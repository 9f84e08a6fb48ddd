//! Small pieces of `String` handling that vstd does not specify.

use vstd::prelude::*;

verus! {

/// Calls `String::push`, which appends one character to the string.
/// Trusted: the contract says the character is appended and nothing else changes.
#[verifier::external_body]
pub(crate) fn push_char(s: &mut String, c: char)
    ensures
        final(s)@ == old(s)@.push(c),
{
    s.push(c);
}

/// The characters of `s[from..to]` as a new string, ASCII-lowercased when
/// `lowercase` is set.
pub fn string_of_range(s: &Vec<char>, from: usize, to: usize, lowercase: bool) -> (r: String)
    requires
        from <= to <= s.len(),
    ensures
        r@ == (if lowercase {
            crate::grammar::lower_seq(s@.subrange(from as int, to as int))
        } else {
            s@.subrange(from as int, to as int)
        }),
{
    let mut r = String::new();
    let mut i = from;
    while i < to
        invariant
            from <= i <= to <= s.len(),
            r@ == (if lowercase {
                crate::grammar::lower_seq(s@.subrange(from as int, i as int))
            } else {
                s@.subrange(from as int, i as int)
            }),
        decreases to - i,
    {
        let c = if lowercase {
            crate::grammar::lower_exec(s[i])
        } else {
            s[i]
        };
        push_char(&mut r, c);
        proof {
            assert(s@.subrange(from as int, i + 1) =~= s@.subrange(from as int, i as int).push(
                s@[i as int],
            ));
            assert(crate::grammar::lower_seq(s@.subrange(from as int, i + 1))
                =~= crate::grammar::lower_seq(s@.subrange(from as int, i as int)).push(
                crate::grammar::lower(s@[i as int]),
            ));
        }
        i = i + 1;
    }
    r
}

/// The characters of `s`, in order.
pub fn chars_of(s: &str) -> (v: Vec<char>)
    ensures
        v@ == s@,
{
    let mut v: Vec<char> = Vec::new();
    for c in it: s.chars()
        invariant
            v@ == it.seq().take(it.index() as int),
    {
        v.push(c);
    }
    v
}

/// Whether two strings hold the same characters.
pub fn same_text(a: &str, b: &str) -> (r: bool)
    ensures
        r == (a@ == b@),
{
    a.to_owned() == b.to_owned()
}

/// What `<str as Debug>::fmt` writes for a string with the characters `s`:
/// the string in double quotes with Rust's escapes. Its exact form rests on
/// std's escaping rules and Unicode tables, so it is only named here.
pub uninterp spec fn debug_form(s: Seq<char>) -> Seq<char>;

/// Calls `<str as Debug>::fmt` through `format!("{:?}", ..)`. Trusted: the
/// contract says only that the result is the named `debug_form` of the
/// argument's characters, that is, that it depends on them alone.
#[verifier::external_body]
pub(crate) fn debug_text(s: &str) -> (r: String)
    ensures
        r@ == debug_form(s@),
{
    format!("{:?}", s)
}

/// The decimal digit of `d` (below 10).
pub open spec fn digit_char(d: int) -> char {
    (48 + d) as char
}

/// `n` written in decimal, without leading zeros.
pub open spec fn decimal(n: nat) -> Seq<char>
    decreases n,
{
    if n < 10 {
        seq![digit_char(n as int)]
    } else {
        decimal(n / 10) + seq![digit_char((n % 10) as int)]
    }
}

/// `n` written in decimal.
pub fn decimal_string(n: u128) -> (r: String)
    ensures
        r@ == decimal(n as nat),
{
    let mut digits: Vec<char> = Vec::new();
    let mut m = n;
    while m >= 10
        invariant
            decimal(n as nat) == decimal(m as nat) + digits@.reverse(),
        decreases m,
    {
        let d = ((m % 10) as u8 + 48) as char;
        let ghost before = digits@;
        digits.push(d);
        proof {
            assert(digits@.reverse() =~= seq![d] + before.reverse());
        }
        m = m / 10;
    }
    let ghost goal = decimal(n as nat);
    let mut r = String::new();
    push_char(&mut r, ((m as u8) + 48) as char);
    assert(digits@.take(digits@.len() as int) =~= digits@);
    let mut k = digits.len();
    while k > 0
        invariant
            k <= digits.len(),
            r@ + digits@.take(k as int).reverse() == goal,
        decreases k,
    {
        let ghost before = r@;
        push_char(&mut r, digits[k - 1]);
        proof {
            assert(digits@.take(k as int).reverse() =~= seq![digits@[k - 1]] + digits@.take(
                k - 1,
            ).reverse());
            assert(before + digits@.take(k as int).reverse() =~= r@ + digits@.take(
                k - 1,
            ).reverse());
        }
        k = k - 1;
    }
    proof {
        assert(digits@.take(0).reverse() =~= Seq::<char>::empty());
        assert(r@ + Seq::<char>::empty() =~= r@);
    }
    r
}

} // verus!
