use vstd::prelude::*;
use vstd::string::StringExecFns;

use crate::split::{drops_nothing, lemma_lossless, split_spec, tokenize, views_of};
use crate::vocab::{no_dups, unk_marker, unk_token, Vocab};

verus! {

// ---------------------------------------------------------------------------
// The tokenizer: encode text into identifier sequences and decode them back,
// over one immutable vocabulary and the same splitting rule the builder used.
// ---------------------------------------------------------------------------
/// Why an encode or decode call failed.
#[derive(Debug)]
pub enum TokenError {
    /// Strict encoding met a token absent from the vocabulary.
    UnknownToken(String),
    /// Fallback encoding needed the unknown-token marker, but the vocabulary
    /// was built without the reserved markers.
    ConfigurationError,
    /// Decoding met an identifier outside the vocabulary's range.
    UnresolvableIdentifier(usize),
}

/// The identifier of the first occurrence of `t` in the vocabulary, searched
/// from position `i` on.
pub open spec fn find_from(voc: Seq<Seq<char>>, t: Seq<char>, i: int) -> Option<int>
    decreases voc.len() - i,
{
    if i < 0 || i >= voc.len() {
        None
    } else if voc[i] == t {
        Some(i)
    } else {
        find_from(voc, t, i + 1)
    }
}

/// The identifier of token `t`, when the vocabulary holds it.
pub open spec fn find_spec(voc: Seq<Seq<char>>, t: Seq<char>) -> Option<int> {
    find_from(voc, t, 0)
}

pub proof fn lemma_find_from(voc: Seq<Seq<char>>, t: Seq<char>, i: int)
    requires
        0 <= i <= voc.len(),
    ensures
        match find_from(voc, t, i) {
            Some(j) => i <= j < voc.len() && voc[j] == t && forall|k: int|
                i <= k < j ==> voc[k] != t,
            None => forall|k: int| i <= k < voc.len() ==> voc[k] != t,
        },
    decreases voc.len() - i,
{
    if i < voc.len() && voc[i] != t {
        lemma_find_from(voc, t, i + 1);
    }
}

/// Position of the first token of `toks` that the vocabulary does not hold,
/// or `toks.len()` when it holds them all.
pub open spec fn first_unknown(voc: Seq<Seq<char>>, toks: Seq<Seq<char>>) -> int
    decreases toks.len(),
{
    if toks.len() == 0 {
        0
    } else if find_spec(voc, toks[0]) is None {
        0
    } else {
        1 + first_unknown(voc, toks.drop_first())
    }
}

pub proof fn lemma_first_unknown(voc: Seq<Seq<char>>, toks: Seq<Seq<char>>)
    ensures
        0 <= first_unknown(voc, toks) <= toks.len(),
        forall|k: int| 0 <= k < first_unknown(voc, toks) ==> find_spec(voc, toks[k]) is Some,
        first_unknown(voc, toks) < toks.len() ==> find_spec(
            voc,
            toks[first_unknown(voc, toks)],
        ) is None,
    decreases toks.len(),
{
    if toks.len() > 0 && find_spec(voc, toks[0]) is Some {
        let rest = toks.drop_first();
        lemma_first_unknown(voc, rest);
        let f = first_unknown(voc, rest);
        assert forall|k: int| 0 <= k < first_unknown(voc, toks) implies find_spec(
            voc,
            toks[k],
        ) is Some by {
            if k > 0 {
                assert(rest[k - 1] == toks[k]);
            }
        }
        if first_unknown(voc, toks) < toks.len() {
            assert(rest[f] == toks[f + 1]);
        }
    }
}

/// Position of the first identifier of `ids` outside a vocabulary of
/// `voc_len` tokens, or `ids.len()` when all are in range.
pub open spec fn first_bad(voc_len: int, ids: Seq<usize>) -> int
    decreases ids.len(),
{
    if ids.len() == 0 {
        0
    } else if ids[0] as int >= voc_len {
        0
    } else {
        1 + first_bad(voc_len, ids.drop_first())
    }
}

pub proof fn lemma_first_bad(voc_len: int, ids: Seq<usize>)
    ensures
        0 <= first_bad(voc_len, ids) <= ids.len(),
        forall|k: int| 0 <= k < first_bad(voc_len, ids) ==> (ids[k] as int) < voc_len,
        first_bad(voc_len, ids) < ids.len() ==> (ids[first_bad(voc_len, ids)] as int) >= voc_len,
    decreases ids.len(),
{
    if ids.len() > 0 && (ids[0] as int) < voc_len {
        let rest = ids.drop_first();
        lemma_first_bad(voc_len, rest);
        let f = first_bad(voc_len, rest);
        assert forall|k: int| 0 <= k < first_bad(voc_len, ids) implies (ids[k] as int)
            < voc_len by {
            if k > 0 {
                assert(rest[k - 1] == ids[k]);
            }
        }
        if first_bad(voc_len, ids) < ids.len() {
            assert(rest[f] == ids[f + 1]);
        }
    }
}

/// The identifier assigned to token `t` under the fallback policy: its own
/// identifier when the vocabulary holds it, the unknown-token marker's
/// identifier otherwise.
pub open spec fn fallback_id_ok(voc: Seq<Seq<char>>, t: Seq<char>, id: usize) -> bool {
    match find_spec(voc, t) {
        Some(j) => id as int == j,
        None => match find_spec(voc, unk_marker()) {
            Some(u) => id as int == u,
            None => false,
        },
    }
}

/// The text an identifier sequence decodes to: the named tokens, concatenated
/// in order with no separator.
pub open spec fn decode_spec(voc: Seq<Seq<char>>, ids: Seq<usize>) -> Seq<char> {
    ids.map_values(|id: usize| voc[id as int]).flatten()
}

/// The tokenizer proper.  Identifier lookup in both directions goes through
/// the one token list, whose positions are the identifiers.
pub struct SimpleTokenizerV1 {
    tokens: Vec<String>,
    reserved: bool,
}

impl View for SimpleTokenizerV1 {
    type V = Seq<Seq<char>>;

    closed spec fn view(&self) -> Seq<Seq<char>> {
        views_of(self.tokens@)
    }
}

impl SimpleTokenizerV1 {
    /// Whether the vocabulary carries the reserved markers; also selects the
    /// splitting configuration, as the builder's flag did.
    pub closed spec fn spec_reserved(&self) -> bool {
        self.reserved
    }

    /// The bijection invariant, inherited from the vocabulary.
    pub open spec fn wf(&self) -> bool {
        no_dups(self@)
    }

    /// Wrap a built vocabulary.
    pub fn new(vocab: Vocab) -> (t: Self)
        ensures
            t@ == vocab@,
            t.spec_reserved() == vocab.spec_reserved(),
            vocab.wf() ==> t.wf(),
    {
        let (tokens, reserved) = vocab.into_parts();
        SimpleTokenizerV1 { tokens, reserved }
    }

    /// The identifier of `token`, when the vocabulary holds it.
    pub fn token_to_id(&self, token: &str) -> (r: Option<usize>)
        ensures
            match r {
                Some(j) => find_spec(self@, token@) == Some(j as int),
                None => find_spec(self@, token@) is None,
            },
    {
        let owned = token.to_owned();
        self.find(&owned)
    }

    fn find(&self, t: &String) -> (r: Option<usize>)
        ensures
            match r {
                Some(j) => find_spec(self@, t@) == Some(j as int),
                None => find_spec(self@, t@) is None,
            },
    {
        let n = self.tokens.len();
        let mut i: usize = 0;
        loop
            invariant
                i <= n,
                n == self.tokens@.len(),
                find_spec(self@, t@) == find_from(self@, t@, i as int),
            decreases n - i,
        {
            if i == n {
                return None;
            }
            proof {
                assert(self@[i as int] == self.tokens@[i as int]@);
            }
            if self.tokens[i] == *t {
                return Some(i);
            }
            i = i + 1;
        }
    }

    /// Encode `input` under the fallback policy: split it with the rule the
    /// vocabulary was built with, look every token up, and substitute the
    /// unknown-token marker's identifier for each token the vocabulary lacks.
    /// Fails only when such a substitution is needed and the marker itself is
    /// absent.
    pub fn encode(&self, input: &str) -> (r: Result<Vec<usize>, TokenError>)
        ensures
            ({
                let toks = split_spec(input@, self.spec_reserved());
                match r {
                    Ok(ids) => ids@.len() == toks.len() && forall|k: int|
                        0 <= k < toks.len() ==> fallback_id_ok(self@, toks[k], ids@[k]),
                    Err(e) => e is ConfigurationError,
                }
            }),
            r is Err <==> (first_unknown(self@, split_spec(input@, self.spec_reserved()))
                < split_spec(input@, self.spec_reserved()).len() && find_spec(
                self@,
                unk_marker(),
            ) is None),
    {
        let ghost voc = self@;
        let toks = tokenize(input, self.reserved);
        let ghost toks_spec = split_spec(input@, self.spec_reserved());
        let unk = unk_token();
        let unk_id = self.find(&unk);
        let n = toks.len();
        let mut ids: Vec<usize> = Vec::new();
        let mut i: usize = 0;
        while i < n
            invariant
                i <= n,
                n == toks@.len(),
                views_of(toks@) == toks_spec,
                toks_spec == split_spec(input@, self.spec_reserved()),
                ids@.len() == i,
                match unk_id {
                    Some(u) => find_spec(voc, unk_marker()) == Some(u as int),
                    None => find_spec(voc, unk_marker()) is None,
                },
                voc == self@,
                unk@ == unk_marker(),
                forall|k: int| 0 <= k < i ==> fallback_id_ok(voc, toks_spec[k], ids@[k]),
                forall|k: int| 0 <= k < i ==> find_spec(voc, toks_spec[k]) is Some || unk_id is Some,
            decreases n - i,
        {
            proof {
                assert(toks_spec[i as int] == toks@[i as int]@);
            }
            match self.find(&toks[i]) {
                Some(j) => {
                    ids.push(j);
                },
                None => {
                    match unk_id {
                        Some(u) => {
                            ids.push(u);
                        },
                        None => {
                            proof {
                                lemma_first_unknown(voc, toks_spec);
                                if first_unknown(voc, toks_spec) > i as int {
                                    assert(find_spec(voc, toks_spec[i as int]) is Some);
                                }
                            }
                            return Err(TokenError::ConfigurationError);
                        },
                    }
                },
            }
            i = i + 1;
        }
        proof {
            lemma_first_unknown(voc, toks_spec);
            if first_unknown(voc, toks_spec) < toks_spec.len() && unk_id is None {
                assert(find_spec(voc, toks_spec[first_unknown(voc, toks_spec)]) is Some);
                assert(false);
            }
        }
        Ok(ids)
    }

    /// Encode `input` under the strict policy: as `encode`, but fail on the
    /// first token absent from the vocabulary, naming it.
    pub fn encode_strict(&self, input: &str) -> (r: Result<Vec<usize>, TokenError>)
        ensures
            ({
                let toks = split_spec(input@, self.spec_reserved());
                match r {
                    Ok(ids) => ids@.len() == toks.len() && forall|k: int|
                        0 <= k < toks.len() ==> find_spec(self@, toks[k]) == Some(
                            ids@[k] as int,
                        ),
                    Err(e) => match e {
                        TokenError::UnknownToken(s) => s@ == toks[first_unknown(self@, toks)],
                        _ => false,
                    },
                }
            }),
            r is Ok <==> first_unknown(self@, split_spec(input@, self.spec_reserved()))
                == split_spec(input@, self.spec_reserved()).len(),
    {
        let ghost voc = self@;
        let toks = tokenize(input, self.reserved);
        let ghost toks_spec = split_spec(input@, self.spec_reserved());
        let n = toks.len();
        let mut ids: Vec<usize> = Vec::new();
        let mut i: usize = 0;
        while i < n
            invariant
                i <= n,
                n == toks@.len(),
                views_of(toks@) == toks_spec,
                toks_spec == split_spec(input@, self.spec_reserved()),
                ids@.len() == i,
                voc == self@,
                forall|k: int|
                    0 <= k < i ==> find_spec(voc, toks_spec[k]) == Some(ids@[k] as int),
            decreases n - i,
        {
            proof {
                assert(toks_spec[i as int] == toks@[i as int]@);
            }
            match self.find(&toks[i]) {
                Some(j) => {
                    ids.push(j);
                },
                None => {
                    proof {
                        lemma_first_unknown(voc, toks_spec);
                        let fu = first_unknown(voc, toks_spec);
                        assert(find_spec(voc, toks_spec[i as int]) is None);
                        if fu > i as int {
                            assert(find_spec(voc, toks_spec[i as int]) is Some);
                        }
                        if fu < i as int {
                            assert(find_spec(voc, toks_spec[fu]) is Some);
                            assert(find_spec(voc, toks_spec[fu]) is None);
                        }
                        assert(fu == i as int);
                    }
                    return Err(TokenError::UnknownToken(toks[i].clone()));
                },
            }
            i = i + 1;
        }
        proof {
            lemma_first_unknown(voc, toks_spec);
            if first_unknown(voc, toks_spec) < toks_spec.len() {
                assert(find_spec(voc, toks_spec[first_unknown(voc, toks_spec)]) is Some);
                assert(false);
            }
        }
        Ok(ids)
    }

    /// Decode an identifier sequence: look every identifier up and
    /// concatenate the tokens in order.  Fails on the first identifier
    /// outside the vocabulary's range, naming it.
    pub fn decode(&self, ids: Vec<usize>) -> (r: Result<String, TokenError>)
        ensures
            ({
                match r {
                    Ok(s) => (forall|k: int|
                        0 <= k < ids@.len() ==> (ids@[k] as int) < self@.len()) && s@
                        == decode_spec(self@, ids@),
                    Err(e) => match e {
                        TokenError::UnresolvableIdentifier(id) => first_bad(
                            self@.len() as int,
                            ids@,
                        ) < ids@.len() && id == ids@[first_bad(self@.len() as int, ids@)],
                        _ => false,
                    },
                }
            }),
            r is Ok <==> first_bad(self@.len() as int, ids@) == ids@.len(),
    {
        let ghost voc = self@;
        let n = ids.len();
        let mut out = String::new();
        let mut i: usize = 0;
        proof {
            assert(ids@.take(0).map_values(|id: usize| voc[id as int]) =~= Seq::<
                Seq<char>,
            >::empty());
            assert(decode_spec(voc, ids@.take(0)) =~= Seq::<char>::empty());
        }
        while i < n
            invariant
                i <= n,
                n == ids@.len(),
                voc == self@,
                forall|k: int| 0 <= k < i ==> (ids@[k] as int) < voc.len(),
                out@ == decode_spec(voc, ids@.take(i as int)),
            decreases n - i,
        {
            let id = ids[i];
            if id >= self.tokens.len() {
                proof {
                    lemma_first_bad(voc.len() as int, ids@);
                    if first_bad(voc.len() as int, ids@) > i as int {
                        assert((ids@[i as int] as int) < voc.len());
                    }
                    if first_bad(voc.len() as int, ids@) < i as int {
                        assert((ids@[first_bad(voc.len() as int, ids@)] as int) < voc.len());
                    }
                }
                return Err(TokenError::UnresolvableIdentifier(id));
            }
            proof {
                assert(voc[id as int] == self.tokens@[id as int]@);
            }
            out.append(self.tokens[id].as_str());
            proof {
                let f = |x: usize| voc[x as int];
                let m0 = ids@.take(i as int).map_values(f);
                let m1 = ids@.take(i as int + 1).map_values(f);
                assert(m1 =~= m0.push(voc[id as int]));
                m0.lemma_flatten_push(voc[id as int]);
            }
            i = i + 1;
        }
        proof {
            assert(ids@.take(n as int) =~= ids@);
            lemma_first_bad(voc.len() as int, ids@);
            if first_bad(voc.len() as int, ids@) < ids@.len() {
                assert((ids@[first_bad(voc.len() as int, ids@)] as int) < voc.len());
                assert(false);
            }
        }
        Ok(out)
    }
}

/// A vocabulary built with the reserved markers holds the unknown-token
/// marker, so fallback encoding over it is owed success: by `encode`'s
/// contract it cannot return a configuration error.
pub proof fn lemma_reserved_vocab_has_unk(voc: Seq<Seq<char>>, corpus: Seq<char>)
    requires
        crate::vocab::built_from(voc, corpus, true),
    ensures
        find_spec(voc, unk_marker()) is Some,
{
    lemma_find_from(voc, unk_marker(), 0);
    if find_spec(voc, unk_marker()) is None {
        assert(voc[voc.len() - 2] == unk_marker());
    }
}

/// The bijection invariant at work: in a vocabulary without duplicates, the
/// token an identifier names looks back up to that same identifier, so the
/// encode path and the decode path are inverse on the vocabulary itself.
pub proof fn lemma_bijection(voc: Seq<Seq<char>>, id: int)
    requires
        no_dups(voc),
        0 <= id < voc.len(),
    ensures
        find_spec(voc, voc[id]) == Some(id),
{
    lemma_find_from(voc, voc[id], 0);
    match find_spec(voc, voc[id]) {
        Some(j) => {
            if j != id {
                assert(voc[j] == voc[id]);
            }
        },
        None => {
            assert(voc[id] == voc[id]);
        },
    }
}

/// Strict round trip: when the splitting rule drops nothing from `text` and
/// the vocabulary holds every token of it, decoding any identifier sequence
/// that strict encoding allows reproduces `text` exactly.
pub proof fn lemma_round_trip_strict(
    voc: Seq<Seq<char>>,
    text: Seq<char>,
    specials: bool,
    ids: Seq<usize>,
)
    requires
        drops_nothing(text, specials),
        ids.len() == split_spec(text, specials).len(),
        forall|k: int|
            0 <= k < ids.len() ==> find_spec(voc, split_spec(text, specials)[k]) == Some(
                ids[k] as int,
            ),
    ensures
        decode_spec(voc, ids) == text,
{
    let toks = split_spec(text, specials);
    assert forall|k: int| 0 <= k < ids.len() implies voc[ids[k] as int] == toks[k] by {
        lemma_find_from(voc, toks[k], 0);
    }
    assert(ids.map_values(|id: usize| voc[id as int]) =~= toks);
    lemma_lossless(text, specials);
}

} // verus!
