use vstd::prelude::*;
use vstd::string::StrSliceExecFns;

verus! {

// ---------------------------------------------------------------------------
// Lexicographic order on character sequences, by Unicode scalar value.  The
// vocabulary builder sorts the distinct tokens of a corpus in this order, so
// identifier assignment is reproducible.
// ---------------------------------------------------------------------------
/// `a` comes strictly before `b` lexicographically.
pub open spec fn lex_lt(a: Seq<char>, b: Seq<char>) -> bool
    decreases a.len(),
{
    if b.len() == 0 {
        false
    } else if a.len() == 0 {
        true
    } else if (a[0] as u32) < (b[0] as u32) {
        true
    } else if a[0] == b[0] {
        lex_lt(a.drop_first(), b.drop_first())
    } else {
        false
    }
}

/// Distinct characters have distinct Unicode scalar values.
proof fn lemma_char_code_neq(a: char, b: char)
    requires
        a != b,
    ensures
        (a as u32) != (b as u32),
{
    vstd::utf8::char_u32_cast(a, a as u32);
    vstd::utf8::char_u32_cast(b, b as u32);
}

pub proof fn lemma_lex_lt_irrefl(a: Seq<char>)
    ensures
        !lex_lt(a, a),
    decreases a.len(),
{
    if a.len() > 0 {
        lemma_lex_lt_irrefl(a.drop_first());
    }
}

pub proof fn lemma_lex_lt_asym(a: Seq<char>, b: Seq<char>)
    requires
        lex_lt(a, b),
    ensures
        !lex_lt(b, a),
    decreases a.len(),
{
    if a.len() > 0 && b.len() > 0 && a[0] == b[0] {
        lemma_lex_lt_asym(a.drop_first(), b.drop_first());
    }
}

/// Any two character sequences are ordered or equal.
pub proof fn lemma_lex_lt_trichotomy(a: Seq<char>, b: Seq<char>)
    ensures
        lex_lt(a, b) || lex_lt(b, a) || a == b,
    decreases a.len(),
{
    if b.len() == 0 {
        if a.len() == 0 {
            assert(a =~= b);
        } else {
            assert(lex_lt(b, a));
        }
    } else if a.len() == 0 {
        assert(lex_lt(a, b));
    } else if (a[0] as u32) < (b[0] as u32) {
        assert(lex_lt(a, b));
    } else if a[0] == b[0] {
        lemma_lex_lt_trichotomy(a.drop_first(), b.drop_first());
        if a.drop_first() == b.drop_first() {
            assert(a.drop_first().len() == a.len() - 1);
            assert(b.drop_first().len() == b.len() - 1);
            assert(a.len() == b.len());
            assert forall|i: int| 0 <= i < a.len() implies a[i] == b[i] by {
                if i > 0 {
                    assert(a.drop_first()[i - 1] == a[i]);
                    assert(b.drop_first()[i - 1] == b[i]);
                }
            }
            assert(a =~= b);
        }
    } else {
        lemma_char_code_neq(a[0], b[0]);
        assert((b[0] as u32) < (a[0] as u32));
        assert(lex_lt(b, a));
    }
}

pub proof fn lemma_lex_lt_trans(a: Seq<char>, b: Seq<char>, c: Seq<char>)
    requires
        lex_lt(a, b),
        lex_lt(b, c),
    ensures
        lex_lt(a, c),
    decreases a.len(),
{
    if a.len() > 0 && b.len() > 0 && c.len() > 0 && a[0] == b[0] && b[0] == c[0] {
        lemma_lex_lt_trans(a.drop_first(), b.drop_first(), c.drop_first());
    }
}

/// A strictly ascending token list: earlier entries compare below later ones.
pub open spec fn strictly_sorted(v: Seq<Seq<char>>) -> bool {
    forall|i: int, j: int| 0 <= i < j < v.len() ==> lex_lt(v[i], v[j])
}

/// A strictly sorted list has no repeated entries.
pub proof fn lemma_sorted_no_dups(v: Seq<Seq<char>>)
    requires
        strictly_sorted(v),
    ensures
        forall|i: int, j: int| 0 <= i < j < v.len() ==> v[i] != v[j],
{
    assert forall|i: int, j: int| 0 <= i < j < v.len() implies v[i] != v[j] by {
        if v[i] == v[j] {
            lemma_lex_lt_irrefl(v[i]);
        }
    }
}

/// Two strictly sorted lists that hold the same entries are the same list:
/// the order pins the layout, which is what makes vocabulary building
/// reproducible.
pub proof fn lemma_sorted_same_set(v1: Seq<Seq<char>>, v2: Seq<Seq<char>>)
    requires
        strictly_sorted(v1),
        strictly_sorted(v2),
        forall|t: Seq<char>| v1.contains(t) <==> v2.contains(t),
    ensures
        v1 == v2,
    decreases v1.len(),
{
    if v1.len() == 0 {
        if v2.len() > 0 {
            assert(v2.contains(v2[0]));
        }
        assert(v1 =~= v2);
    } else {
        assert(v1.contains(v1[0]));
        assert(v2.contains(v1[0]));
        let j = choose|j: int| 0 <= j < v2.len() && v2[j] == v1[0];
        assert(v2.contains(v2[0]));
        assert(v1.contains(v2[0]));
        let k = choose|k: int| 0 <= k < v1.len() && v1[k] == v2[0];
        if j > 0 && k > 0 {
            assert(lex_lt(v2[0], v2[j]));
            assert(lex_lt(v1[0], v1[k]));
            lemma_lex_lt_asym(v2[0], v1[0]);
            assert(false);
        }
        assert(v1[0] == v2[0]);
        let t1 = v1.drop_first();
        let t2 = v2.drop_first();
        assert forall|t: Seq<char>| t1.contains(t) implies t2.contains(t) by {
            let i = choose|i: int| 0 <= i < t1.len() && t1[i] == t;
            assert(v1[i + 1] == t);
            assert(lex_lt(v1[0], t));
            assert(v1.contains(t));
            assert(v2.contains(t));
            let m = choose|m: int| 0 <= m < v2.len() && v2[m] == t;
            lemma_lex_lt_irrefl(t);
            assert(m != 0);
            assert(t2[m - 1] == t);
        }
        assert forall|t: Seq<char>| t2.contains(t) implies t1.contains(t) by {
            let i = choose|i: int| 0 <= i < t2.len() && t2[i] == t;
            assert(v2[i + 1] == t);
            assert(lex_lt(v2[0], t));
            assert(v2.contains(t));
            assert(v1.contains(t));
            let m = choose|m: int| 0 <= m < v1.len() && v1[m] == t;
            lemma_lex_lt_irrefl(t);
            assert(m != 0);
            assert(t1[m - 1] == t);
        }
        lemma_sorted_same_set(t1, t2);
        assert(v1.len() == v2.len());
        assert forall|i: int| 0 <= i < v1.len() implies v1[i] == v2[i] by {
            if i > 0 {
                assert(t1[i - 1] == v1[i]);
                assert(t2[i - 1] == v2[i]);
            }
        }
        assert(v1 =~= v2);
    }
}

/// Decide whether `a` comes strictly before `b` in lexicographic order.
pub fn str_lt(a: &str, b: &str) -> (r: bool)
    ensures
        r == lex_lt(a@, b@),
{
    let na = a.unicode_len();
    let nb = b.unicode_len();
    let mut i: usize = 0;
    proof {
        assert(a@.skip(0) =~= a@);
        assert(b@.skip(0) =~= b@);
    }
    loop
        invariant
            i <= na,
            i <= nb,
            na == a@.len(),
            nb == b@.len(),
            lex_lt(a@, b@) == lex_lt(a@.skip(i as int), b@.skip(i as int)),
        decreases na - i,
    {
        proof {
            if i < na {
                assert(a@.skip(i as int)[0] == a@[i as int]);
            }
            if i < nb {
                assert(b@.skip(i as int)[0] == b@[i as int]);
            }
        }
        if i == nb {
            return false;
        }
        if i == na {
            return true;
        }
        let ca = a.get_char(i);
        let cb = b.get_char(i);
        if (ca as u32) < (cb as u32) {
            return true;
        }
        if ca != cb {
            return false;
        }
        proof {
            assert(a@.skip(i as int).drop_first() =~= a@.skip(i as int + 1));
            assert(b@.skip(i as int).drop_first() =~= b@.skip(i as int + 1));
        }
        i = i + 1;
    }
}

} // verus!
