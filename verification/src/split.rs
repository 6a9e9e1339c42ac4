use vstd::prelude::*;
use vstd::string::StrSliceExecFns;

use crate::chars::{
    alnum_char, ident_char, is_alnum, is_ident_char, is_punct, is_space, punct_char, space_char,
};

verus! {

// ---------------------------------------------------------------------------
// The splitting rule, as a mathematical function on character sequences.
//
// At each position, in priority order, the rule matches: a special marker
// `<|ident|>` (only when enabled), a maximal run of alphanumerics joined by
// single internal hyphens, one punctuation character, a double hyphen, or one
// whitespace character.  A character that starts no alternative is dropped.
// ---------------------------------------------------------------------------
/// Length of the longest alphanumeric prefix of `s`.
pub open spec fn alnum_run(s: Seq<char>) -> nat
    decreases s.len(),
{
    if s.len() > 0 && is_alnum(s[0]) {
        (1 + alnum_run(s.drop_first())) as nat
    } else {
        0
    }
}

/// Length of the longest identifier-character prefix of `s`.
pub open spec fn ident_run(s: Seq<char>) -> nat
    decreases s.len(),
{
    if s.len() > 0 && is_ident_char(s[0]) {
        (1 + ident_run(s.drop_first())) as nat
    } else {
        0
    }
}

/// A maximal alphanumeric run is bounded by the sequence, all its characters
/// are alphanumeric, and the first character past it (if any) is not.
pub proof fn lemma_alnum_run(s: Seq<char>)
    ensures
        alnum_run(s) <= s.len(),
        forall|k: int| 0 <= k < alnum_run(s) ==> is_alnum(s[k]),
        alnum_run(s) < s.len() ==> !is_alnum(s[alnum_run(s) as int]),
    decreases s.len(),
{
    if s.len() > 0 && is_alnum(s[0]) {
        lemma_alnum_run(s.drop_first());
        assert forall|k: int| 0 <= k < alnum_run(s) implies is_alnum(s[k]) by {
            if k > 0 {
                assert(s.drop_first()[k - 1] == s[k]);
            }
        }
        if alnum_run(s) < s.len() {
            assert(s.drop_first()[alnum_run(s) - 1] == s[alnum_run(s) as int]);
        }
    }
}

/// Any position that looks like the end of the maximal alphanumeric run is it.
pub proof fn lemma_alnum_run_is(s: Seq<char>, n: int)
    requires
        0 <= n <= s.len(),
        forall|k: int| 0 <= k < n ==> is_alnum(s[k]),
        n == s.len() || !is_alnum(s[n]),
    ensures
        alnum_run(s) == n,
    decreases s.len(),
{
    if n == 0 {
    } else {
        assert(is_alnum(s[0]));
        let t = s.drop_first();
        assert forall|k: int| 0 <= k < n - 1 implies is_alnum(t[k]) by {
            assert(t[k] == s[k + 1]);
        }
        if n < s.len() {
            assert(t[n - 1] == s[n]);
        }
        lemma_alnum_run_is(t, n - 1);
    }
}

/// Counterpart of `lemma_alnum_run_is` for identifier characters.
pub proof fn lemma_ident_run_is(s: Seq<char>, n: int)
    requires
        0 <= n <= s.len(),
        forall|k: int| 0 <= k < n ==> is_ident_char(s[k]),
        n == s.len() || !is_ident_char(s[n]),
    ensures
        ident_run(s) == n,
    decreases s.len(),
{
    if n == 0 {
    } else {
        assert(is_ident_char(s[0]));
        let t = s.drop_first();
        assert forall|k: int| 0 <= k < n - 1 implies is_ident_char(t[k]) by {
            assert(t[k] == s[k + 1]);
        }
        if n < s.len() {
            assert(t[n - 1] == s[n]);
        }
        lemma_ident_run_is(t, n - 1);
    }
}

/// Length of the word token starting at the head of `s`: the leading
/// alphanumeric run, extended across single hyphens that are followed by a
/// further alphanumeric character.  Zero when `s` does not start with a word.
pub open spec fn word_len(s: Seq<char>) -> nat
    decreases s.len(),
{
    let k = alnum_run(s) as int;
    if k == 0 {
        0
    } else if k + 1 < s.len() && s[k] == '-' && is_alnum(s[k + 1]) {
        (k + 1 + word_len(s.skip(k + 1))) as nat
    } else {
        alnum_run(s)
    }
}

pub proof fn lemma_word_len(s: Seq<char>)
    ensures
        word_len(s) <= s.len(),
        s.len() > 0 && is_alnum(s[0]) ==> word_len(s) >= 1,
    decreases s.len(),
{
    lemma_alnum_run(s);
    let k = alnum_run(s) as int;
    if k != 0 && k + 1 < s.len() && s[k] == '-' && is_alnum(s[k + 1]) {
        lemma_word_len(s.skip(k + 1));
    }
}

/// Length of a special marker `<|ident|>` at the head of `s`, when one is
/// there: two opening characters, a nonempty identifier run, two closing ones.
pub open spec fn marker_len(s: Seq<char>) -> Option<int> {
    if s.len() >= 2 && s[0] == '<' && s[1] == '|' {
        let k = ident_run(s.skip(2)) as int;
        if k >= 1 && 2 + k + 2 <= s.len() && s[2 + k] == '|' && s[2 + k + 1] == '>' {
            Some(2 + k + 2)
        } else {
            None
        }
    } else {
        None
    }
}

/// The token the splitting rule produces at the head of `s`, or `None` when
/// the head character starts no alternative and is dropped.
pub open spec fn next_token(s: Seq<char>, specials: bool) -> Option<Seq<char>> {
    if s.len() == 0 {
        None
    } else if specials && s[0] == '<' {
        match marker_len(s) {
            Some(n) => Some(s.take(n)),
            None => None,
        }
    } else if is_alnum(s[0]) {
        Some(s.take(word_len(s) as int))
    } else if is_punct(s[0]) {
        Some(s.take(1))
    } else if s[0] == '-' && s.len() >= 2 && s[1] == '-' {
        Some(s.take(2))
    } else if is_space(s[0]) {
        Some(s.take(1))
    } else {
        None
    }
}

/// Every produced token is a nonempty prefix of the rest of the input.
pub proof fn lemma_next_token(s: Seq<char>, specials: bool)
    ensures
        next_token(s, specials) matches Some(t) ==> 1 <= t.len() <= s.len() && t == s.take(
            t.len() as int,
        ),
{
    lemma_word_len(s);
}

/// The ordered token sequence the splitting rule extracts from `s`.
pub open spec fn split_spec(s: Seq<char>, specials: bool) -> Seq<Seq<char>>
    decreases s.len(),
    via split_spec_decreases
{
    if s.len() == 0 {
        Seq::empty()
    } else {
        match next_token(s, specials) {
            Some(t) => seq![t] + split_spec(s.skip(t.len() as int), specials),
            None => split_spec(s.skip(1), specials),
        }
    }
}

#[via_fn]
proof fn split_spec_decreases(s: Seq<char>, specials: bool) {
    lemma_next_token(s, specials);
}

/// The splitting of `s` drops no character: at every step some alternative of
/// the rule matches.
pub open spec fn drops_nothing(s: Seq<char>, specials: bool) -> bool
    decreases s.len(),
    via drops_nothing_decreases
{
    s.len() == 0 || match next_token(s, specials) {
        Some(t) => drops_nothing(s.skip(t.len() as int), specials),
        None => false,
    }
}

#[via_fn]
proof fn drops_nothing_decreases(s: Seq<char>, specials: bool) {
    lemma_next_token(s, specials);
}

/// A character that always stands in some alternative of the rule, whatever
/// surrounds it.
pub open spec fn covered_char(c: char) -> bool {
    is_alnum(c) || is_punct(c) || is_space(c)
}

/// Splitting is lossless: when no character is dropped, the tokens
/// concatenate back to the input.
pub proof fn lemma_lossless(s: Seq<char>, specials: bool)
    requires
        drops_nothing(s, specials),
    ensures
        split_spec(s, specials).flatten() == s,
    decreases s.len(),
{
    if s.len() == 0 {
        assert(split_spec(s, specials).flatten() =~= s);
    } else {
        lemma_next_token(s, specials);
        match next_token(s, specials) {
            Some(t) => {
                let n = t.len() as int;
                lemma_lossless(s.skip(n), specials);
                let parts = seq![t] + split_spec(s.skip(n), specials);
                assert(parts.drop_first() =~= split_spec(s.skip(n), specials));
                assert(parts.first() == t);
                assert(parts.flatten() == t + split_spec(s.skip(n), specials).flatten());
                assert(t + s.skip(n) =~= s);
            },
            None => {
                assert(false);
            },
        }
    }
}

/// Inputs made only of covered characters are never trimmed by the rule.
pub proof fn lemma_covered_drops_nothing(s: Seq<char>, specials: bool)
    requires
        forall|i: int| 0 <= i < s.len() ==> covered_char(s[i]),
    ensures
        drops_nothing(s, specials),
    decreases s.len(),
{
    if s.len() > 0 {
        assert(covered_char(s[0]));
        lemma_next_token(s, specials);
        match next_token(s, specials) {
            Some(t) => {
                let n = t.len() as int;
                assert forall|i: int| 0 <= i < s.skip(n).len() implies covered_char(
                    s.skip(n)[i],
                ) by {
                    assert(s.skip(n)[i] == s[i + n]);
                }
                lemma_covered_drops_nothing(s.skip(n), specials);
            },
            None => {
                assert(false);
            },
        }
    }
}

/// Losslessness for inputs made only of covered characters: the public face
/// of the two lemmas above.
pub proof fn lemma_lossless_splitting(s: Seq<char>, specials: bool)
    requires
        forall|i: int| 0 <= i < s.len() ==> covered_char(s[i]),
    ensures
        split_spec(s, specials).flatten() == s,
{
    lemma_covered_drops_nothing(s, specials);
    lemma_lossless(s, specials);
}

/// The shape of a reserved special marker: `<|`, a nonempty identifier run,
/// `|>`.
pub open spec fn is_marker(t: Seq<char>) -> bool {
    t.len() >= 5 && t[0] == '<' && t[1] == '|' && t[t.len() - 2] == '|' && t[t.len() - 1] == '>'
        && forall|k: int| 2 <= k < t.len() - 2 ==> is_ident_char(t[k])
}

/// A reserved marker standing alone is recognized as one single token when
/// marker recognition is enabled.
pub proof fn lemma_marker_single_token(t: Seq<char>)
    requires
        is_marker(t),
    ensures
        split_spec(t, true) == seq![t],
{
    let inner = t.skip(2);
    assert forall|k: int| 0 <= k < t.len() - 4 implies is_ident_char(inner[k]) by {
        assert(inner[k] == t[k + 2]);
    }
    assert(inner[t.len() - 4] == t[t.len() - 2]);
    assert(!is_ident_char('|'));
    lemma_ident_run_is(inner, t.len() - 4);
    assert(marker_len(t) == Some(t.len() as int));
    assert(next_token(t, true) == Some(t.take(t.len() as int)));
    assert(t.take(t.len() as int) =~= t);
    assert(t.skip(t.len() as int).len() == 0);
    assert(split_spec(t.skip(t.len() as int), true) =~= Seq::<Seq<char>>::empty());
    assert(split_spec(t, true) =~= seq![t]);
}

/// The character sequences behind a list of token strings.
pub open spec fn views_of(ts: Seq<String>) -> Seq<Seq<char>> {
    Seq::new(ts.len(), |i: int| ts[i]@)
}

pub proof fn lemma_views_of_push(ts: Seq<String>, t: String)
    ensures
        views_of(ts.push(t)) == views_of(ts).push(t@),
{
    assert(views_of(ts.push(t)) =~= views_of(ts).push(t@));
}

/// End of the maximal alphanumeric run of `s` that starts at `from`.
fn scan_alnum(s: &str, from: usize, n: usize) -> (r: usize)
    requires
        n == s@.len(),
        from <= n,
    ensures
        from <= r <= n,
        r - from == alnum_run(s@.skip(from as int)),
{
    let mut j = from;
    loop
        invariant
            from <= j <= n,
            n == s@.len(),
            forall|k: int| from <= k < j ==> is_alnum(s@[k]),
        ensures
            from <= j <= n,
            forall|k: int| from <= k < j ==> is_alnum(s@[k]),
            j == n || !is_alnum(s@[j as int]),
        decreases n - j,
    {
        if j == n {
            break ;
        }
        let c = s.get_char(j);
        if !alnum_char(c) {
            break ;
        }
        j = j + 1;
    }
    proof {
        let t = s@.skip(from as int);
        assert forall|k: int| 0 <= k < j - from implies is_alnum(t[k]) by {
            assert(t[k] == s@[k + from]);
        }
        if (j as int) < n as int {
            assert(t[j - from] == s@[j as int]);
        }
        lemma_alnum_run_is(t, j - from);
    }
    j
}

/// End of the maximal identifier-character run of `s` that starts at `from`.
fn scan_ident(s: &str, from: usize, n: usize) -> (r: usize)
    requires
        n == s@.len(),
        from <= n,
    ensures
        from <= r <= n,
        r - from == ident_run(s@.skip(from as int)),
{
    let mut j = from;
    loop
        invariant
            from <= j <= n,
            n == s@.len(),
            forall|k: int| from <= k < j ==> is_ident_char(s@[k]),
        ensures
            from <= j <= n,
            forall|k: int| from <= k < j ==> is_ident_char(s@[k]),
            j == n || !is_ident_char(s@[j as int]),
        decreases n - j,
    {
        if j == n {
            break ;
        }
        let c = s.get_char(j);
        if !ident_char(c) {
            break ;
        }
        j = j + 1;
    }
    proof {
        let t = s@.skip(from as int);
        assert forall|k: int| 0 <= k < j - from implies is_ident_char(t[k]) by {
            assert(t[k] == s@[k + from]);
        }
        if (j as int) < n as int {
            assert(t[j - from] == s@[j as int]);
        }
        lemma_ident_run_is(t, j - from);
    }
    j
}

/// End of the word token of `s` that starts at `from`.
fn scan_word(s: &str, from: usize, n: usize) -> (r: usize)
    requires
        n == s@.len(),
        from < n,
        is_alnum(s@[from as int]),
    ensures
        from < r <= n,
        r - from == word_len(s@.skip(from as int)),
{
    let mut seg = from;
    loop
        invariant
            from <= seg < n,
            n == s@.len(),
            is_alnum(s@[seg as int]),
            word_len(s@.skip(from as int)) == seg - from + word_len(s@.skip(seg as int)),
        decreases n - seg,
    {
        let j = scan_alnum(s, seg, n);
        proof {
            assert(s@.skip(seg as int)[0] == s@[seg as int]);
            assert(alnum_run(s@.skip(seg as int)) >= 1);
        }
        let mut extend = false;
        if n - j > 1 {
            let c1 = s.get_char(j);
            if c1 == '-' {
                let c2 = s.get_char(j + 1);
                extend = alnum_char(c2);
            }
        }
        proof {
            let t = s@.skip(seg as int);
            let k = alnum_run(t) as int;
            assert(k == j - seg);
            if (j as int) + 1 < n as int {
                assert(t[k] == s@[j as int]);
                assert(t[k + 1] == s@[j as int + 1]);
            }
            assert(extend == (k + 1 < t.len() && t[k] == '-' && is_alnum(t[k + 1])));
        }
        if extend {
            proof {
                let t = s@.skip(seg as int);
                let k = alnum_run(t) as int;
                assert(word_len(t) == k + 1 + word_len(t.skip(k + 1)));
                assert(t.skip(k + 1) =~= s@.skip(j as int + 1));
            }
            seg = j + 1;
        } else {
            proof {
                let t = s@.skip(seg as int);
                assert(word_len(t) == alnum_run(t));
            }
            return j;
        }
    }
}

/// End of the special marker of `s` that starts at `from`, when one is there.
fn scan_marker(s: &str, from: usize, n: usize) -> (r: Option<usize>)
    requires
        n == s@.len(),
        from <= n,
    ensures
        match r {
            Some(j) => from < j <= n && marker_len(s@.skip(from as int)) == Some(j - from as int),
            None => marker_len(s@.skip(from as int)) is None,
        },
{
    proof {
        let t = s@.skip(from as int);
        assert(t.len() == n - from);
    }
    if n - from < 2 {
        return None;
    }
    proof {
        assert(s@.skip(from as int)[0] == s@[from as int]);
        assert(s@.skip(from as int)[1] == s@[from as int + 1]);
    }
    if s.get_char(from) != '<' {
        return None;
    }
    if s.get_char(from + 1) != '|' {
        return None;
    }
    let e = scan_ident(s, from + 2, n);
    proof {
        let t = s@.skip(from as int);
        assert(t.skip(2) =~= s@.skip(from as int + 2));
        assert(ident_run(t.skip(2)) == e - (from + 2));
    }
    if e == from + 2 {
        return None;
    }
    if n - e < 2 {
        return None;
    }
    proof {
        let t = s@.skip(from as int);
        let k = ident_run(t.skip(2)) as int;
        assert(t[2 + k] == s@[e as int]);
        assert(t[2 + k + 1] == s@[e as int + 1]);
    }
    if s.get_char(e) != '|' {
        return None;
    }
    if s.get_char(e + 1) != '>' {
        return None;
    }
    Some(e + 2)
}

/// Apply the splitting rule to `s`, producing its ordered token sequence.
/// With `specials` set, reserved markers of the shape `<|ident|>` are
/// recognized as single tokens.
pub fn tokenize(s: &str, specials: bool) -> (r: Vec<String>)
    ensures
        views_of(r@) == split_spec(s@, specials),
{
    let n = s.unicode_len();
    let mut out: Vec<String> = Vec::new();
    let mut i: usize = 0;
    proof {
        assert(views_of(out@) =~= Seq::<Seq<char>>::empty());
        assert(s@.skip(0) =~= s@);
        assert(views_of(out@) + split_spec(s@.skip(0), specials) =~= split_spec(s@, specials));
    }
    while i < n
        invariant
            i <= n,
            n == s@.len(),
            split_spec(s@, specials) == views_of(out@) + split_spec(s@.skip(i as int), specials),
        decreases n - i,
    {
        let ghost rest = s@.skip(i as int);
        let ghost prev = views_of(out@);
        let c = s.get_char(i);
        let mut dropped = false;
        let mut j: usize = i;
        if specials && c == '<' {
            match scan_marker(s, i, n) {
                Some(end) => {
                    j = end;
                },
                None => {
                    dropped = true;
                },
            }
        } else if alnum_char(c) {
            j = scan_word(s, i, n);
        } else if punct_char(c) {
            j = i + 1;
        } else if c == '-' && i + 1 < n && s.get_char(i + 1) == '-' {
            j = i + 2;
        } else if space_char(c) {
            j = i + 1;
        } else {
            dropped = true;
        }
        proof {
            assert(rest[0] == s@[i as int]);
            if i as int + 1 < n as int {
                assert(rest[1] == s@[i as int + 1]);
            }
        }
        if dropped {
            proof {
                assert(next_token(rest, specials) is None);
                assert(rest.skip(1) =~= s@.skip(i as int + 1));
                assert(split_spec(rest, specials) == split_spec(s@.skip(i as int + 1), specials));
            }
            i = i + 1;
        } else {
            let tok = s.substring_char(i, j).to_owned();
            proof {
                let t = rest.take(j - i);
                assert(t =~= s@.subrange(i as int, j as int));
                assert(tok@ == t);
                assert(next_token(rest, specials) == Some(t));
                assert(t.len() == j - i);
                assert(split_spec(rest, specials) == seq![t] + split_spec(
                    rest.skip(j - i),
                    specials,
                ));
                assert(rest.skip(j - i) =~= s@.skip(j as int));
                lemma_views_of_push(out@, tok);
                assert(prev.push(t) + split_spec(s@.skip(j as int), specials) =~= prev + (seq![t]
                    + split_spec(s@.skip(j as int), specials)));
            }
            out.push(tok);
            i = j;
        }
    }
    proof {
        assert(s@.skip(i as int).len() == 0);
        assert(split_spec(s@.skip(i as int), specials) =~= Seq::<Seq<char>>::empty());
        assert(views_of(out@) + Seq::<Seq<char>>::empty() =~= views_of(out@));
    }
    out
}

} // verus!
