use vstd::prelude::*;

verus! {

/// An ASCII alphanumeric character: a letter or a decimal digit.
pub open spec fn is_alnum(c: char) -> bool {
    ('0' <= c && c <= '9') || ('A' <= c && c <= 'Z') || ('a' <= c && c <= 'z')
}

/// A character allowed inside a special marker: alphanumeric or underscore.
pub open spec fn is_ident_char(c: char) -> bool {
    is_alnum(c) || c == '_'
}

/// One of the fixed punctuation characters the splitting rule recognizes.
pub open spec fn is_punct(c: char) -> bool {
    c == ',' || c == '.' || c == '?' || c == '_' || c == '!' || c == '"' || c == '(' || c == ')'
        || c == '\'' || c == ':' || c == ';'
}

/// A whitespace character (the Unicode white-space set).
pub open spec fn is_space(c: char) -> bool {
    c == '\u{9}' || c == '\u{a}' || c == '\u{b}' || c == '\u{c}' || c == '\u{d}' || c == ' '
        || c == '\u{85}' || c == '\u{a0}' || c == '\u{1680}' || ('\u{2000}' <= c && c
        <= '\u{200a}') || c == '\u{2028}' || c == '\u{2029}' || c == '\u{202f}' || c == '\u{205f}'
        || c == '\u{3000}'
}

pub fn alnum_char(c: char) -> (r: bool)
    ensures
        r == is_alnum(c),
{
    ('0' <= c && c <= '9') || ('A' <= c && c <= 'Z') || ('a' <= c && c <= 'z')
}

pub fn ident_char(c: char) -> (r: bool)
    ensures
        r == is_ident_char(c),
{
    alnum_char(c) || c == '_'
}

pub fn punct_char(c: char) -> (r: bool)
    ensures
        r == is_punct(c),
{
    c == ',' || c == '.' || c == '?' || c == '_' || c == '!' || c == '"' || c == '(' || c == ')'
        || c == '\'' || c == ':' || c == ';'
}

pub fn space_char(c: char) -> (r: bool)
    ensures
        r == is_space(c),
{
    c == '\u{9}' || c == '\u{a}' || c == '\u{b}' || c == '\u{c}' || c == '\u{d}' || c == ' '
        || c == '\u{85}' || c == '\u{a0}' || c == '\u{1680}' || ('\u{2000}' <= c && c
        <= '\u{200a}') || c == '\u{2028}' || c == '\u{2029}' || c == '\u{202f}' || c == '\u{205f}'
        || c == '\u{3000}'
}

} // verus!
