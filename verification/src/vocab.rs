use vstd::prelude::*;

use crate::order::{
    lemma_lex_lt_trans, lemma_lex_lt_trichotomy, lemma_sorted_no_dups, lemma_sorted_same_set,
    lex_lt, str_lt, strictly_sorted,
};
use crate::split::{split_spec, tokenize, views_of};

verus! {

// ---------------------------------------------------------------------------
// The vocabulary: a bidirectional mapping between tokens and dense, zero-based
// identifiers.  A token's identifier is its position in the list, so the list
// itself is the whole mapping, and distinctness of its entries is the
// bijection invariant.
// ---------------------------------------------------------------------------
/// The reserved unknown-token marker.
pub open spec fn unk_marker() -> Seq<char> {
    seq!['<', '|', 'u', 'n', 'k', '|', '>']
}

/// The reserved end-of-text marker.
pub open spec fn eot_marker() -> Seq<char> {
    seq!['<', '|', 'e', 'n', 'd', 'o', 'f', 't', 'e', 'x', 't', '|', '>']
}

/// The unknown-token marker as a string.
pub fn unk_token() -> (r: String)
    ensures
        r@ == unk_marker(),
{
    let s: String = "<|unk|>".to_owned();
    proof {
        reveal_strlit("<|unk|>");
        assert(s@ =~= unk_marker());
    }
    s
}

/// The end-of-text marker as a string.
pub fn eot_token() -> (r: String)
    ensures
        r@ == eot_marker(),
{
    let s: String = "<|endoftext|>".to_owned();
    proof {
        reveal_strlit("<|endoftext|>");
        assert(s@ =~= eot_marker());
    }
    s
}

/// No two identifiers name the same token.
pub open spec fn no_dups(voc: Seq<Seq<char>>) -> bool {
    forall|i: int, j: int| 0 <= i < j < voc.len() ==> voc[i] != voc[j]
}

/// The ordinary part of a vocabulary built from `corpus`: strictly sorted,
/// and holding exactly the distinct tokens the splitting rule extracts —
/// minus the two reserved markers when those are appended separately.
pub open spec fn core_tokens_ok(core: Seq<Seq<char>>, corpus: Seq<char>, reserved: bool) -> bool {
    &&& strictly_sorted(core)
    &&& forall|t: Seq<char>|
        core.contains(t) <==> (split_spec(corpus, reserved).contains(t) && !(reserved && (t
            == unk_marker() || t == eot_marker())))
}

/// What `Vocab::extend_from_text` guarantees: the sorted distinct tokens of
/// the corpus, with the two reserved markers appended last when requested.
pub open spec fn built_from(voc: Seq<Seq<char>>, corpus: Seq<char>, reserved: bool) -> bool {
    if reserved {
        &&& voc.len() >= 2
        &&& voc[voc.len() - 2] == unk_marker()
        &&& voc[voc.len() - 1] == eot_marker()
        &&& core_tokens_ok(voc.take(voc.len() - 2), corpus, true)
    } else {
        core_tokens_ok(voc, corpus, false)
    }
}

/// Building is deterministic: the contract of the builder pins the vocabulary
/// completely, so two vocabularies built from one corpus and flag are equal.
pub proof fn lemma_vocab_deterministic(
    v1: Seq<Seq<char>>,
    v2: Seq<Seq<char>>,
    corpus: Seq<char>,
    reserved: bool,
)
    requires
        built_from(v1, corpus, reserved),
        built_from(v2, corpus, reserved),
    ensures
        v1 == v2,
{
    if reserved {
        let c1 = v1.take(v1.len() - 2);
        let c2 = v2.take(v2.len() - 2);
        lemma_sorted_same_set(c1, c2);
        assert(v1.len() == v2.len());
        assert forall|i: int| 0 <= i < v1.len() implies v1[i] == v2[i] by {
            if i < v1.len() - 2 {
                assert(c1[i] == v1[i]);
                assert(c2[i] == v2[i]);
            }
        }
        assert(v1 =~= v2);
    } else {
        lemma_sorted_same_set(v1, v2);
    }
}

/// The end-of-text marker in particular has the marker shape, so whenever
/// marker recognition is enabled the splitting rule keeps `<|endoftext|>`
/// whole: standing alone it is one single token.
pub proof fn lemma_eot_marker_single_token()
    ensures
        crate::split::split_spec(eot_marker(), true) == seq![eot_marker()],
{
    let t = eot_marker();
    assert forall|k: int| 2 <= k < t.len() - 2 implies crate::chars::is_ident_char(t[k]) by {
        assert(t[2] == 'e' && t[3] == 'n' && t[4] == 'd' && t[5] == 'o' && t[6] == 'f' && t[7]
            == 't' && t[8] == 'e' && t[9] == 'x' && t[10] == 't');
    }
    assert(crate::split::is_marker(t));
    crate::split::lemma_marker_single_token(t);
}

/// A built vocabulary satisfies the bijection invariant.
pub proof fn lemma_built_no_dups(voc: Seq<Seq<char>>, corpus: Seq<char>, reserved: bool)
    requires
        built_from(voc, corpus, reserved),
    ensures
        no_dups(voc),
{
    if reserved {
        let core = voc.take(voc.len() - 2);
        lemma_sorted_no_dups(core);
        assert(unk_marker().len() != eot_marker().len());
        assert forall|i: int, j: int| 0 <= i < j < voc.len() implies voc[i] != voc[j] by {
            if j < voc.len() - 2 {
                assert(core[i] == voc[i]);
                assert(core[j] == voc[j]);
            } else if i < voc.len() - 2 {
                assert(core[i] == voc[i]);
                assert(core.contains(core[i]));
            }
        }
    } else {
        lemma_sorted_no_dups(voc);
    }
}

/// A vocabulary under construction or in use by a tokenizer.
pub struct Vocab {
    tokens: Vec<String>,
    reserved: bool,
}

impl View for Vocab {
    type V = Seq<Seq<char>>;

    closed spec fn view(&self) -> Seq<Seq<char>> {
        views_of(self.tokens@)
    }
}

/// Insert `t` into a strictly sorted token list, keeping it sorted and
/// dropping the insertion when `t` is already present.
fn insert_unique_sorted(v: &mut Vec<String>, t: String)
    requires
        strictly_sorted(views_of(old(v)@)),
    ensures
        strictly_sorted(views_of(final(v)@)),
        forall|x: Seq<char>|
            views_of(final(v)@).contains(x) <==> (views_of(old(v)@).contains(x) || x == t@),
{
    let ghost vs = views_of(v@);
    let n = v.len();
    let mut p: usize = 0;
    loop
        invariant
            p <= n,
            n == v.len(),
            v@ == old(v)@,
            forall|k: int| 0 <= k < p ==> lex_lt(views_of(v@)[k], t@),
        ensures
            p <= n,
            n == v.len(),
            v@ == old(v)@,
            forall|k: int| 0 <= k < p ==> lex_lt(views_of(v@)[k], t@),
            p == n || !lex_lt(views_of(v@)[p as int], t@),
        decreases n - p,
    {
        if p == n {
            break ;
        }
        if !str_lt(v[p].as_str(), t.as_str()) {
            break ;
        }
        p = p + 1;
    }
    if p < n && v[p] == t {
        proof {
            assert(views_of(v@)[p as int] == t@);
            assert(views_of(v@).contains(t@));
        }
        return ;
    }
    proof {
        if p < n {
            lemma_lex_lt_trichotomy(vs[p as int], t@);
            assert(lex_lt(t@, vs[p as int]));
        }
    }
    v.insert(p, t);
    proof {
        let ws = views_of(v@);
        assert(ws.len() == vs.len() + 1);
        assert forall|k: int| 0 <= k < ws.len() implies ws[k] == (if k < p {
            vs[k]
        } else if k == p {
            t@
        } else {
            vs[k - 1]
        }) by {
            assert(v@[k] == (if k < p {
                old(v)@[k]
            } else if k == p {
                t
            } else {
                old(v)@[k - 1]
            }));
        }
        assert forall|i: int, j: int| 0 <= i < j < ws.len() implies lex_lt(ws[i], ws[j]) by {
            if j < p {
            } else if j == p {
                assert(lex_lt(vs[i], t@));
            } else if i == p {
                if j - 1 == p {
                    assert(lex_lt(t@, vs[p as int]));
                } else {
                    lemma_lex_lt_trans(t@, vs[p as int], vs[j - 1]);
                }
            } else if i < p {
                assert(lex_lt(vs[i], vs[j - 1]));
            } else {
                assert(lex_lt(vs[i - 1], vs[j - 1]));
            }
        }
        assert forall|x: Seq<char>| ws.contains(x) implies (vs.contains(x) || x == t@) by {
            let k = choose|k: int| 0 <= k < ws.len() && ws[k] == x;
            if k < p {
                assert(vs[k] == x);
            } else if k > p {
                assert(vs[k - 1] == x);
            }
        }
        assert forall|x: Seq<char>| vs.contains(x) || x == t@ implies ws.contains(x) by {
            if x == t@ {
                assert(ws[p as int] == x);
            } else {
                let k = choose|k: int| 0 <= k < vs.len() && vs[k] == x;
                if k < p {
                    assert(ws[k] == x);
                } else {
                    assert(ws[k + 1] == x);
                }
            }
        }
    }
}

impl Vocab {
    /// An empty vocabulary, holding no tokens and no reserved markers.
    pub fn new() -> (v: Vocab)
        ensures
            v@ == Seq::<Seq<char>>::empty(),
            v.spec_reserved() == false,
            v.wf(),
    {
        let v = Vocab { tokens: Vec::new(), reserved: false };
        proof {
            assert(v@ =~= Seq::<Seq<char>>::empty());
        }
        v
    }

    /// Whether this vocabulary was built with marker recognition and the two
    /// reserved markers appended.
    pub closed spec fn spec_reserved(&self) -> bool {
        self.reserved
    }

    /// The bijection invariant: every identifier in range names exactly one
    /// token, and no token is listed twice.
    pub open spec fn wf(&self) -> bool {
        no_dups(self@)
    }

    /// Number of tokens, which is also the first unassigned identifier.
    pub fn len(&self) -> (n: usize)
        ensures
            n == self@.len(),
    {
        self.tokens.len()
    }

    /// The tokens in identifier order.
    pub fn token_list(&self) -> (r: &Vec<String>)
        ensures
            views_of(r@) == self@,
    {
        &self.tokens
    }

    /// Whether this vocabulary carries the reserved markers.
    pub fn has_reserved(&self) -> (r: bool)
        ensures
            r == self.spec_reserved(),
    {
        self.reserved
    }

    /// Hand the token list and the reserved flag over to a consumer, most
    /// often a tokenizer taking ownership of the finished vocabulary.
    pub fn into_parts(self) -> (r: (Vec<String>, bool))
        ensures
            views_of(r.0@) == self@,
            r.1 == self.spec_reserved(),
    {
        (self.tokens, self.reserved)
    }

    /// Build the vocabulary from a training corpus: split the corpus, collect
    /// the distinct tokens in lexicographic order, and, when
    /// `include_reserved` is set, recognize special markers while splitting
    /// and append the unknown-token and end-of-text markers with the two
    /// highest identifiers.
    pub fn extend_from_text(&mut self, input: &str, include_reserved: bool)
        requires
            old(self)@.len() == 0,
        ensures
            built_from(final(self)@, input@, include_reserved),
            final(self).spec_reserved() == include_reserved,
            final(self).wf(),
    {
        let toks = tokenize(input, include_reserved);
        let unk = unk_token();
        let eot = eot_token();
        let ghost split = split_spec(input@, include_reserved);
        let mut idx: usize = 0;
        proof {
            assert(self@ =~= Seq::<Seq<char>>::empty());
            assert(split.take(0) =~= Seq::<Seq<char>>::empty());
        }
        while idx < toks.len()
            invariant
                idx <= toks.len(),
                views_of(toks@) == split,
                unk@ == unk_marker(),
                eot@ == eot_marker(),
                strictly_sorted(views_of(self.tokens@)),
                forall|x: Seq<char>|
                    views_of(self.tokens@).contains(x) <==> (split.take(idx as int).contains(x)
                        && !(include_reserved && (x == unk_marker() || x == eot_marker()))),
            decreases toks.len() - idx,
        {
            let ghost before = views_of(self.tokens@);
            let tok = toks[idx].clone();
            proof {
                assert(tok@ == split[idx as int]);
                assert(split.take(idx as int + 1) =~= split.take(idx as int).push(
                    split[idx as int],
                ));
            }
            let skip_marker = include_reserved && (tok == unk || tok == eot);
            if !skip_marker {
                insert_unique_sorted(&mut self.tokens, tok);
            }
            proof {
                let t = split[idx as int];
                let prev_take = split.take(idx as int);
                let next_take = split.take(idx as int + 1);
                assert(next_take[idx as int] == t);
                assert(next_take.contains(t));
                assert forall|x: Seq<char>| next_take.contains(x) implies (prev_take.contains(x)
                    || x == t) by {
                    let k = choose|k: int| 0 <= k < next_take.len() && next_take[k] == x;
                    if k < idx {
                        assert(prev_take[k] == x);
                    }
                }
                assert forall|x: Seq<char>| prev_take.contains(x) implies next_take.contains(
                    x,
                ) by {
                    let k = choose|k: int| 0 <= k < prev_take.len() && prev_take[k] == x;
                    assert(next_take[k] == x);
                }
                if skip_marker {
                    assert(views_of(self.tokens@) == before);
                }
            }
            idx = idx + 1;
        }
        proof {
            assert(split.take(split.len() as int) =~= split);
        }
        if include_reserved {
            let ghost pre = self.tokens@;
            let ghost core = views_of(self.tokens@);
            self.tokens.push(unk);
            self.tokens.push(eot);
            self.reserved = true;
            proof {
                let ws = views_of(self.tokens@);
                assert(ws.len() == core.len() + 2);
                assert forall|k: int| 0 <= k < core.len() implies ws[k] == core[k] by {
                    assert(self.tokens@[k] == pre[k]);
                }
                assert(ws[ws.len() - 2] == unk_marker());
                assert(ws[ws.len() - 1] == eot_marker());
                assert(ws.take(ws.len() - 2) =~= core);
                lemma_built_no_dups(ws, input@, true);
            }
        } else {
            self.reserved = false;
            proof {
                lemma_built_no_dups(self@, input@, false);
            }
        }
    }
}

} // verus!
