//! Character classes of RFC 7230/7231 and the scanners built on them.

use vstd::prelude::*;

verus! {

/// `tchar` of RFC 7230: the characters a token is made of.
pub open spec fn is_tchar(c: char) -> bool {
    ||| ('a' <= c && c <= 'z')
    ||| ('A' <= c && c <= 'Z')
    ||| ('0' <= c && c <= '9')
    ||| c == '!' || c == '#' || c == '$' || c == '%' || c == '&' || c == '\''
    ||| c == '*' || c == '+' || c == '-' || c == '.' || c == '^' || c == '_'
    ||| c == '`' || c == '|' || c == '~'
}

/// Optional whitespace (`OWS`): space or horizontal tab.
pub open spec fn is_ows(c: char) -> bool {
    c == ' ' || c == '\t'
}

/// Index of the first character at or after `i` that is not a `tchar`
/// (or the length of `s` when there is none).
pub open spec fn token_end(s: Seq<char>, i: int) -> int
    decreases s.len() - i,
{
    if 0 <= i < s.len() && is_tchar(s[i]) {
        token_end(s, i + 1)
    } else {
        i
    }
}

/// Index of the first character at or after `i` that is not `OWS`.
pub open spec fn ows_end(s: Seq<char>, i: int) -> int
    decreases s.len() - i,
{
    if 0 <= i < s.len() && is_ows(s[i]) {
        ows_end(s, i + 1)
    } else {
        i
    }
}

pub fn is_tchar_exec(c: char) -> (b: bool)
    ensures
        b == is_tchar(c),
{
    ('a' <= c && c <= 'z') || ('A' <= c && c <= 'Z') || ('0' <= c && c <= '9') || c == '!'
        || c == '#' || c == '$' || c == '%' || c == '&' || c == '\'' || c == '*' || c == '+'
        || c == '-' || c == '.' || c == '^' || c == '_' || c == '`' || c == '|' || c == '~'
}

/// Scans the token that starts at `i`.
pub fn scan_token(s: &Vec<char>, i: usize) -> (j: usize)
    requires
        i <= s.len(),
    ensures
        j == token_end(s@, i as int),
        i <= j <= s.len(),
{
    let mut j = i;
    while j < s.len() && is_tchar_exec(s[j])
        invariant
            i <= j <= s.len(),
            token_end(s@, j as int) == token_end(s@, i as int),
        decreases s.len() - j,
    {
        j = j + 1;
    }
    j
}

/// Scans the optional whitespace that starts at `i`.
pub fn scan_ows(s: &Vec<char>, i: usize) -> (j: usize)
    requires
        i <= s.len(),
    ensures
        j == ows_end(s@, i as int),
        i <= j <= s.len(),
{
    let mut j = i;
    while j < s.len() && (s[j] == ' ' || s[j] == '\t')
        invariant
            i <= j <= s.len(),
            ows_end(s@, j as int) == ows_end(s@, i as int),
        decreases s.len() - j,
    {
        j = j + 1;
    }
    j
}

/// ASCII lowercase of one character; every other character is kept.
pub open spec fn lower(c: char) -> char {
    if 'A' <= c && c <= 'Z' {
        ((c as u32) + 32) as char
    } else {
        c
    }
}

/// ASCII lowercase of a whole sequence.
pub open spec fn lower_seq(s: Seq<char>) -> Seq<char> {
    s.map_values(|c: char| lower(c))
}

pub fn lower_exec(c: char) -> (r: char)
    ensures
        r == lower(c),
{
    if 'A' <= c && c <= 'Z' {
        ((c as u8) + 32) as char
    } else {
        c
    }
}

pub proof fn lemma_token_end_bounds(s: Seq<char>, i: int)
    requires
        0 <= i <= s.len(),
    ensures
        i <= token_end(s, i) <= s.len(),
        forall|k: int| i <= k < token_end(s, i) ==> is_tchar(#[trigger] s[k]),
        token_end(s, i) < s.len() ==> !is_tchar(s[token_end(s, i)]),
    decreases s.len() - i,
{
    if i < s.len() && is_tchar(s[i]) {
        lemma_token_end_bounds(s, i + 1);
    }
}

pub proof fn lemma_ows_end_bounds(s: Seq<char>, i: int)
    requires
        0 <= i <= s.len(),
    ensures
        i <= ows_end(s, i) <= s.len(),
        forall|k: int| i <= k < ows_end(s, i) ==> is_ows(#[trigger] s[k]),
        ows_end(s, i) < s.len() ==> !is_ows(s[ows_end(s, i)]),
    decreases s.len() - i,
{
    if i < s.len() && is_ows(s[i]) {
        lemma_ows_end_bounds(s, i + 1);
    }
}

/// A run of token characters from `i` up to `j`, ended by the end of `s` or
/// by a character that is not a token character, is the token at `i`.
pub proof fn lemma_token_end_at(s: Seq<char>, i: int, j: int)
    requires
        0 <= i <= j <= s.len(),
        forall|k: int| i <= k < j ==> is_tchar(#[trigger] s[k]),
        j == s.len() || !is_tchar(s[j]),
    ensures
        token_end(s, i) == j,
    decreases j - i,
{
    if i < j {
        lemma_token_end_at(s, i + 1, j);
    }
}

/// The same for a run of optional whitespace.
pub proof fn lemma_ows_end_at(s: Seq<char>, i: int, j: int)
    requires
        0 <= i <= j <= s.len(),
        forall|k: int| i <= k < j ==> is_ows(#[trigger] s[k]),
        j == s.len() || !is_ows(s[j]),
    ensures
        ows_end(s, i) == j,
    decreases j - i,
{
    if i < j {
        lemma_ows_end_at(s, i + 1, j);
    }
}

} // verus!
