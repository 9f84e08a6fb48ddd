//! The decisions of the property runner: replaying the canonical witness
//! inputs, folding per-property outcomes, and writing the one-line JSON
//! report. Timing, the test frameworks and printing stay with the caller.

use vstd::prelude::*;

use crate::etna::{
    property_ows_before_semicolon, property_quoted_vs_unquoted_param_eq,
    property_strip_empty_params, property_subtype_with_plus, PropertyResult,
};
use crate::text::{decimal, decimal_string, push_char, same_text};

verus! {

/// How much work one run did: inputs tried and microseconds spent.
#[derive(Clone, Copy)]
pub struct Metrics {
    pub inputs: u64,
    pub elapsed_us: u128,
}

impl Default for Metrics {
    fn default() -> (r: Metrics)
        ensures
            r.inputs == 0 && r.elapsed_us == 0,
    {
        Metrics { inputs: 0, elapsed_us: 0 }
    }
}

impl Metrics {
    /// The work of two runs together.
    pub fn combine(self, other: Metrics) -> (r: Metrics)
        requires
            self.inputs + other.inputs <= u64::MAX,
            self.elapsed_us + other.elapsed_us <= u128::MAX,
        ensures
            r.inputs == self.inputs + other.inputs,
            r.elapsed_us == self.elapsed_us + other.elapsed_us,
    {
        Metrics {
            inputs: self.inputs + other.inputs,
            elapsed_us: self.elapsed_us + other.elapsed_us,
        }
    }
}

/// A property result as a runner status: a failure carries its message,
/// a pass or a discarded input is no failure.
pub fn to_err(r: PropertyResult) -> (out: Result<(), String>)
    ensures
        match r {
            PropertyResult::Fail(m) => out == Err::<(), String>(m),
            _ => out == Ok::<(), String>(()),
        },
{
    match r {
        PropertyResult::Pass | PropertyResult::Discard => Ok(()),
        PropertyResult::Fail(m) => Err(m),
    }
}

/// A property result in the form a quickcheck-style runner takes: `Some(true)` for a pass,
/// `Some(false)` for a failure, `None` for a discarded input.
pub fn to_opt(r: PropertyResult) -> (out: Option<bool>)
    ensures
        out == match r {
            PropertyResult::Pass => Some(true),
            PropertyResult::Fail(_) => Some(false),
            PropertyResult::Discard => None::<bool>,
        },
{
    match r {
        PropertyResult::Pass => Some(true),
        PropertyResult::Fail(_) => Some(false),
        PropertyResult::Discard => None,
    }
}

/// The names of the properties, in the order `All` runs them.
pub fn all_properties() -> (r: [&'static str; 4])
    ensures
        r@[0]@ == "SubtypeWithPlus"@,
        r@[1]@ == "StripEmptyParams"@,
        r@[2]@ == "OwsBeforeSemicolon"@,
        r@[3]@ == "QuotedVsUnquotedParamEq"@,
{
    ["SubtypeWithPlus", "StripEmptyParams", "OwsBeforeSemicolon", "QuotedVsUnquotedParamEq"]
}

pub open spec fn sum_inputs(outcomes: Seq<(Result<(), String>, Metrics)>) -> int
    decreases outcomes.len(),
{
    if outcomes.len() == 0 {
        0
    } else {
        sum_inputs(outcomes.drop_last()) + outcomes.last().1.inputs
    }
}

pub open spec fn sum_elapsed(outcomes: Seq<(Result<(), String>, Metrics)>) -> int
    decreases outcomes.len(),
{
    if outcomes.len() == 0 {
        0
    } else {
        sum_elapsed(outcomes.drop_last()) + outcomes.last().1.elapsed_us
    }
}

/// The status of the first failed outcome, or `Ok` when none failed.
pub open spec fn first_failure(outcomes: Seq<(Result<(), String>, Metrics)>) -> Result<(), String>
    decreases outcomes.len(),
{
    if outcomes.len() == 0 {
        Ok(())
    } else if outcomes[0].0 is Err {
        outcomes[0].0
    } else {
        first_failure(outcomes.drop_first())
    }
}

pub proof fn lemma_sums_monotone(outcomes: Seq<(Result<(), String>, Metrics)>, i: int)
    requires
        0 <= i <= outcomes.len(),
    ensures
        0 <= sum_inputs(outcomes.take(i)) <= sum_inputs(outcomes),
        0 <= sum_elapsed(outcomes.take(i)) <= sum_elapsed(outcomes),
    decreases outcomes.len(),
{
    if outcomes.len() > 0 {
        if i == outcomes.len() {
            assert(outcomes.take(i) =~= outcomes);
            lemma_sums_monotone(outcomes.drop_last(), i - 1);
            assert(outcomes.drop_last().take(i - 1) =~= outcomes.take(i - 1));
        } else {
            lemma_sums_monotone(outcomes.drop_last(), i);
            assert(outcomes.drop_last().take(i) =~= outcomes.take(i));
        }
    }
}

proof fn lemma_first_failure_step(outcomes: Seq<(Result<(), String>, Metrics)>, i: int)
    requires
        0 <= i < outcomes.len(),
    ensures
        first_failure(outcomes.take(i + 1)) == (if first_failure(outcomes.take(i)) is Err {
            first_failure(outcomes.take(i))
        } else if outcomes[i].0 is Err {
            outcomes[i].0
        } else {
            Ok(())
        }),
    decreases i,
{
    let a = outcomes.take(i + 1);
    assert(a[0] == outcomes[0]);
    if i > 0 {
        assert(outcomes.take(i)[0] == outcomes[0]);
        lemma_first_failure_step(outcomes.drop_first(), i - 1);
        assert(a.drop_first() =~= outcomes.drop_first().take(i));
        assert(outcomes.take(i).drop_first() =~= outcomes.drop_first().take(i - 1));
    } else {
        assert(a.drop_first() =~= Seq::<(Result<(), String>, Metrics)>::empty());
        assert(outcomes.take(0) =~= Seq::<(Result<(), String>, Metrics)>::empty());
    }
}

/// Folds the outcomes of running every property: the metrics add up, and
/// the status is that of the first property that failed.
pub fn run_all(outcomes: Vec<(Result<(), String>, Metrics)>) -> (r: (Result<(), String>, Metrics))
    requires
        sum_inputs(outcomes@) <= u64::MAX,
        sum_elapsed(outcomes@) <= u128::MAX,
    ensures
        r.0 == first_failure(outcomes@),
        r.1.inputs == sum_inputs(outcomes@),
        r.1.elapsed_us == sum_elapsed(outcomes@),
{
    let ghost all = outcomes@;
    let mut total = Metrics::default();
    let mut final_status: Result<(), String> = Ok(());
    let mut i: usize = 0;
    let n = outcomes.len();
    let mut rest = outcomes;
    assert(all.take(0) =~= Seq::<(Result<(), String>, Metrics)>::empty());
    assert(all.subrange(0, n as int) =~= all);
    while i < n
        invariant
            n == all.len(),
            i <= n,
            rest@ == all.subrange(i as int, n as int),
            final_status == first_failure(all.take(i as int)),
            final_status is Ok ==> final_status == Ok::<(), String>(()),
            total.inputs == sum_inputs(all.take(i as int)),
            total.elapsed_us == sum_elapsed(all.take(i as int)),
            sum_inputs(all) <= u64::MAX,
            sum_elapsed(all) <= u128::MAX,
        decreases n - i,
    {
        let (r, m) = rest.remove(0);
        assert(rest@ =~= all.subrange(i + 1, n as int));
        assert(all.take(i + 1).drop_last() =~= all.take(i as int));
        proof {
            lemma_sums_monotone(all, i + 1);
            lemma_first_failure_step(all, i as int);
        }
        total = total.combine(m);
        assert((r, m) == all[i as int]);
        if r.is_err() && final_status.is_ok() {
            final_status = r;
        }

        i = i + 1;
    }
    assert(all.take(n as int) =~= all);
    (final_status, total)
}

/// The input that `witness_subtype_with_plus_case_xhtml_xml` checks:
/// `text/xhtml+xml`.
pub fn canonical_subtype_with_plus() -> (r: (u8, u8, u8))
    ensures
        r == (0u8, 7u8, 0u8),
{
    (0, 7, 0)
}

/// The input that `witness_strip_empty_params_case_event_stream_semicolon`
/// checks: `text/event-stream;`.
pub fn canonical_strip_empty_params() -> (r: (u8, u8, u8))
    ensures
        r == (0u8, 5u8, 0u8),
{
    (0, 5, 0)
}

/// The input that `witness_ows_before_semicolon_case_text_plain_charset`
/// checks: `text/plain ;charset=utf-8`.
pub fn canonical_ows_before_semicolon() -> (r: (u8, u8, u8, u8))
    ensures
        r == (0u8, 0u8, 0u8, 4u8),
{
    (0, 0, 0, 4)
}

/// The input that `witness_quoted_vs_unquoted_param_eq_case_name_foo`
/// checks: `text/plain; name=foo` against `text/plain; name="foo"`.
pub fn canonical_quoted_vs_unquoted() -> (r: (u8, u8, u8, u8))
    ensures
        r == (0u8, 0u8, 3u8, 0u8),
{
    (0, 0, 3, 0)
}

pub fn check_subtype_with_plus() -> (r: Result<(), String>)
    ensures
        r == Ok::<(), String>(()),
{
    let (a, b, c) = canonical_subtype_with_plus();
    to_err(property_subtype_with_plus(a, b, c))
}

pub fn check_strip_empty_params() -> (r: Result<(), String>)
    ensures
        r == Ok::<(), String>(()),
{
    let (a, b, c) = canonical_strip_empty_params();
    to_err(property_strip_empty_params(a, b, c))
}

pub fn check_ows_before_semicolon() -> (r: Result<(), String>)
    ensures
        r == Ok::<(), String>(()),
{
    let (a, b, c, d) = canonical_ows_before_semicolon();
    to_err(property_ows_before_semicolon(a, b, c, d))
}

pub fn check_quoted_vs_unquoted() -> (r: Result<(), String>)
    ensures
        r == Ok::<(), String>(()),
{
    let (a, b, c, d) = canonical_quoted_vs_unquoted();
    to_err(property_quoted_vs_unquoted_param_eq(a, b, c, d))
}

/// Whether `name` is one of the four property names.
pub open spec fn is_property_name(name: Seq<char>) -> bool {
    ||| name == "SubtypeWithPlus"@
    ||| name == "StripEmptyParams"@
    ||| name == "OwsBeforeSemicolon"@
    ||| name == "QuotedVsUnquotedParamEq"@
}

/// Replays the canonical witness of the named property (the `etna` tool of
/// the runner, for one property).
pub fn check_property(property: &str) -> (r: Result<(), String>)
    ensures
        is_property_name(property@) ==> r == Ok::<(), String>(()),
        !is_property_name(property@) ==> (r matches Err(m) && m@ == "Unknown property for etna: "@
            + property@),
{
    if same_text(property, "SubtypeWithPlus") {
        check_subtype_with_plus()
    } else if same_text(property, "StripEmptyParams") {
        check_strip_empty_params()
    } else if same_text(property, "OwsBeforeSemicolon") {
        check_ows_before_semicolon()
    } else if same_text(property, "QuotedVsUnquotedParamEq") {
        check_quoted_vs_unquoted()
    } else {
        let mut m = String::from_str("Unknown property for etna: ");
        m.append(property);
        Err(m)
    }
}

/// The lowercase hexadecimal digit of `d` (below 16).
pub open spec fn hex_char(d: int) -> char {
    if d < 10 {
        (48 + d) as char
    } else {
        (87 + d) as char
    }
}

/// One character as it stands inside a JSON string.
pub open spec fn json_escape(c: char) -> Seq<char> {
    if c == '"' {
        seq!['\\', '"']
    } else if c == '\\' {
        seq!['\\', '\\']
    } else if c == '\n' {
        seq!['\\', 'n']
    } else if c == '\r' {
        seq!['\\', 'r']
    } else if c == '\t' {
        seq!['\\', 't']
    } else if (c as u32) < 0x20 {
        seq!['\\', 'u', '0', '0', hex_char(((c as u32) / 16) as int), hex_char(((c as u32) % 16) as int)]
    } else {
        seq![c]
    }
}

pub open spec fn json_escape_all(s: Seq<char>) -> Seq<char>
    decreases s.len(),
{
    if s.len() == 0 {
        Seq::empty()
    } else {
        json_escape_all(s.drop_last()) + json_escape(s.last())
    }
}

/// `s` as a JSON string literal.
pub open spec fn json_quoted(s: Seq<char>) -> Seq<char> {
    seq!['"'] + json_escape_all(s) + seq!['"']
}

/// The value of a hexadecimal digit of either case.
pub open spec fn hex_value(c: char) -> Option<int> {
    if '0' <= c && c <= '9' {
        Some(c as int - 48)
    } else if 'a' <= c && c <= 'f' {
        Some(c as int - 87)
    } else if 'A' <= c && c <= 'F' {
        Some(c as int - 55)
    } else {
        None
    }
}

/// The number that the four hexadecimal digits at `i` of `b` stand for.
pub open spec fn hex4(b: Seq<char>, i: int) -> Option<int> {
    if 0 <= i && i + 4 <= b.len() {
        match (hex_value(b[i]), hex_value(b[i + 1]), hex_value(b[i + 2]), hex_value(b[i + 3])) {
            (Some(v0), Some(v1), Some(v2), Some(v3)) => Some(v0 * 4096 + v1 * 256 + v2 * 16 + v3),
            _ => None,
        }
    } else {
        None
    }
}

pub open spec fn prepend_char(c: char, r: Option<Seq<char>>) -> Option<Seq<char>> {
    match r {
        Some(x) => Some(seq![c] + x),
        None => None,
    }
}

/// The characters that the body of a JSON string (RFC 8259 section 7, what
/// stands between the quotes) stands for, or `None` when the body is not
/// well formed.
pub open spec fn json_unescape(b: Seq<char>) -> Option<Seq<char>>
    decreases b.len(),
{
    if b.len() == 0 {
        Some(Seq::empty())
    } else if b[0] == '\\' {
        if b.len() < 2 {
            None
        } else {
            let e = b[1];
            if e == '"' || e == '\\' || e == '/' {
                prepend_char(e, json_unescape(b.skip(2)))
            } else if e == 'b' {
                prepend_char('\u{8}', json_unescape(b.skip(2)))
            } else if e == 'f' {
                prepend_char('\u{c}', json_unescape(b.skip(2)))
            } else if e == 'n' {
                prepend_char('\n', json_unescape(b.skip(2)))
            } else if e == 'r' {
                prepend_char('\r', json_unescape(b.skip(2)))
            } else if e == 't' {
                prepend_char('\t', json_unescape(b.skip(2)))
            } else if e == 'u' {
                match hex4(b, 2) {
                    None => None,
                    Some(v) => if 0xD800 <= v < 0xDC00 {
                        if b.len() >= 12 && b[6] == '\\' && b[7] == 'u' {
                            match hex4(b, 8) {
                                Some(w) => if 0xDC00 <= w < 0xE000 {
                                    prepend_char(
                                        (0x10000 + (v - 0xD800) * 1024 + (w - 0xDC00)) as char,
                                        json_unescape(b.skip(12)),
                                    )
                                } else {
                                    None
                                },
                                None => None,
                            }
                        } else {
                            None
                        }
                    } else if 0xDC00 <= v < 0xE000 {
                        None
                    } else {
                        prepend_char(v as char, json_unescape(b.skip(6)))
                    },
                }
            } else {
                None
            }
        }
    } else if b[0] == '"' || (b[0] as u32) < 0x20 {
        None
    } else {
        prepend_char(b[0], json_unescape(b.skip(1)))
    }
}

/// What a JSON string literal (with its quotes) stands for, or `None` when
/// it is not one.
pub open spec fn json_decode_literal(lit: Seq<char>) -> Option<Seq<char>> {
    if lit.len() >= 2 && lit[0] == '"' && lit[lit.len() - 1] == '"' {
        json_unescape(lit.subrange(1, lit.len() - 1))
    } else {
        None
    }
}

proof fn lemma_escape_all_front(s: Seq<char>)
    requires
        s.len() > 0,
    ensures
        json_escape_all(s) == json_escape(s[0]) + json_escape_all(s.drop_first()),
    decreases s.len(),
{
    if s.len() == 1 {
        assert(s.drop_last() =~= Seq::<char>::empty());
        assert(s.drop_first() =~= Seq::<char>::empty());
        assert(json_escape_all(s.drop_last()) == Seq::<char>::empty());
        assert(s.last() == s[0]);
        assert(json_escape_all(s) =~= json_escape(s[0]));
        assert(json_escape(s[0]) + Seq::<char>::empty() =~= json_escape(s[0]));
    } else {
        lemma_escape_all_front(s.drop_last());
        assert(s.drop_last().drop_first() =~= s.drop_first().drop_last());
        assert(s.drop_first().last() == s.last());
        assert(s.drop_last()[0] == s[0]);
        assert(json_escape_all(s) =~= json_escape(s[0]) + json_escape_all(s.drop_first()));
    }
}

proof fn lemma_escape_decodes(c: char, rest: Seq<char>)
    ensures
        json_unescape(json_escape(c) + rest) == prepend_char(c, json_unescape(rest)),
        forall|i: int| 0 <= i < json_escape(c).len() ==> (#[trigger] json_escape(c)[i] as u32) >= 0x20,
{
    let x = json_escape(c) + rest;
    if c == '"' || c == '\\' || c == '\n' || c == '\r' || c == '\t' {
        assert(x.skip(2) =~= rest);
    } else if (c as u32) < 0x20 {
        let hi = ((c as u32) / 16) as int;
        let lo = ((c as u32) % 16) as int;
        assert(x[2] == '0' && x[3] == '0');
        assert(x[4] == hex_char(hi) && x[5] == hex_char(lo));
        assert(hi < 2);
        assert(hex_value(x[4]) == Some(hi));
        if lo < 10 {
            assert(hex_value(x[5]) == Some(lo));
        } else {
            assert(hex_value(x[5]) == Some(lo));
        }
        assert(hex4(x, 2) == Some(hi * 16 + lo));
        assert(hi * 16 + lo == c as u32);
        assert(((c as u32) as int) as char == c);
        assert(x.skip(6) =~= rest);
    } else {
        assert(x[0] == c);
        assert(x.skip(1) =~= rest);
    }
}

proof fn lemma_escape_all_decodes(s: Seq<char>)
    ensures
        json_unescape(json_escape_all(s)) == Some(s),
        forall|i: int| 0 <= i < json_escape_all(s).len() ==> (#[trigger] json_escape_all(s)[i] as u32)
            >= 0x20,
    decreases s.len(),
{
    if s.len() > 0 {
        lemma_escape_all_front(s);
        lemma_escape_all_decodes(s.drop_first());
        lemma_escape_decodes(s[0], json_escape_all(s.drop_first()));
        assert(seq![s[0]] + s.drop_first() =~= s);
        let a = json_escape(s[0]);
        let b = json_escape_all(s.drop_first());
        assert forall|i: int| 0 <= i < (a + b).len() implies ((#[trigger] (a + b)[i]) as u32) >= 0x20 by {
            if i < a.len() {
                assert((a + b)[i] == a[i]);
            } else {
                assert((a + b)[i] == b[i - a.len()]);
            }
        }
    }
}

/// `json_str` writes a JSON string literal that stands for exactly its
/// input: it starts and ends with a double quote, holds no control
/// character, and decoding it (RFC 8259) gives back the input.
pub proof fn law_json_str_roundtrip(s: Seq<char>)
    ensures
        json_quoted(s)[0] == '"',
        json_quoted(s)[json_quoted(s).len() - 1] == '"',
        forall|i: int| 0 <= i < json_quoted(s).len() ==> (#[trigger] json_quoted(s)[i] as u32) >= 0x20,
        json_decode_literal(json_quoted(s)) == Some(s),
{
    lemma_escape_all_decodes(s);
    let q = json_quoted(s);
    let body = json_escape_all(s);
    assert(q.subrange(1, q.len() - 1) =~= body);
    assert forall|i: int| 0 <= i < q.len() implies (#[trigger] q[i] as u32) >= 0x20 by {
        if 0 < i < q.len() - 1 {
            assert(q[i] == body[i - 1]);
        }
    }
}

/// Index of the closing quote of a JSON string whose inside starts at `i`
/// of `x` (a backslash takes the next character with it), or -1 when the
/// string is not closed.
pub open spec fn json_string_close(x: Seq<char>, i: int) -> int
    decreases x.len() - i,
{
    if i < 0 || i >= x.len() {
        -1
    } else if x[i] == '"' {
        i
    } else if x[i] == '\\' {
        if i + 2 <= x.len() {
            json_string_close(x, i + 2)
        } else {
            -1
        }
    } else {
        json_string_close(x, i + 1)
    }
}

/// What a JSON `null` or JSON string literal at the start of `x` stands
/// for (`None` for `null`), with the number of characters it takes.
pub open spec fn read_json_opt_string(x: Seq<char>) -> Option<(Option<Seq<char>>, int)> {
    if x.len() >= 4 && x[0] == 'n' && x[1] == 'u' && x[2] == 'l' && x[3] == 'l' {
        Some((None, 4))
    } else if x.len() > 0 && x[0] == '"' {
        let e = json_string_close(x, 1);
        if e < 0 {
            None
        } else {
            match json_unescape(x.subrange(1, e)) {
                Some(v) => Some((Some(v), e + 1)),
                None => None,
            }
        }
    } else {
        None
    }
}

/// What `x`, read as one whole JSON `null` or string literal, stands for.
pub open spec fn json_value_of(x: Seq<char>) -> Option<Option<Seq<char>>> {
    match read_json_opt_string(x) {
        Some((v, n)) => if n == x.len() {
            Some(v)
        } else {
            None
        },
        None => None,
    }
}

proof fn lemma_close_escape(y: Seq<char>, p: int, c: char)
    requires
        0 <= p,
        p + json_escape(c).len() <= y.len(),
        y.subrange(p, p + json_escape(c).len()) == json_escape(c),
    ensures
        json_string_close(y, p) == json_string_close(y, p + json_escape(c).len()),
{
    let e = json_escape(c);
    assert(y[p] == y.subrange(p, p + e.len())[0]);
    if c == '"' || c == '\\' || c == '\n' || c == '\r' || c == '\t' {
    } else if (c as u32) < 0x20 {
        assert(y[p + 2] == e[2]);
        assert(y[p + 3] == e[3]);
        assert(y[p + 4] == e[4]);
        assert(y[p + 5] == e[5]);
        assert(json_string_close(y, p + 5) == json_string_close(y, p + 6));
        assert(json_string_close(y, p + 4) == json_string_close(y, p + 5));
        assert(json_string_close(y, p + 3) == json_string_close(y, p + 4));
        assert(json_string_close(y, p + 2) == json_string_close(y, p + 3));
    } else {
    }
}

proof fn lemma_close_body(y: Seq<char>, p: int, s: Seq<char>)
    requires
        0 <= p,
        p + json_escape_all(s).len() < y.len(),
        y.subrange(p, p + json_escape_all(s).len()) == json_escape_all(s),
        y[p + json_escape_all(s).len()] == '"',
    ensures
        json_string_close(y, p) == p + json_escape_all(s).len(),
    decreases s.len(),
{
    if s.len() > 0 {
        lemma_escape_all_front(s);
        let a = json_escape(s[0]);
        let b = json_escape_all(s.drop_first());
        assert(y.subrange(p, p + a.len()) =~= a) by {
            assert forall|m: int| 0 <= m < a.len() implies y.subrange(p, p + a.len())[m] == a[m] by {
                assert(y.subrange(p, p + (a + b).len())[m] == (a + b)[m]);
            }
        }
        assert(y.subrange(p + a.len(), p + a.len() + b.len()) =~= b) by {
            assert forall|m: int| 0 <= m < b.len() implies y.subrange(p + a.len(), p + a.len()
                + b.len())[m] == b[m] by {
                assert(y.subrange(p, p + (a + b).len())[a.len() + m] == (a + b)[a.len() + m]);
            }
        }
        lemma_close_escape(y, p, s[0]);
        lemma_close_body(y, p + a.len(), s.drop_first());
    } else {
        assert(json_escape_all(s) =~= Seq::<char>::empty());
    }
}

/// A JSON string literal that `json_str` would write reads back, whole,
/// to what it was written from.
pub proof fn lemma_value_of_quoted(x: Seq<char>)
    ensures
        json_value_of(json_quoted(x)) == Some(Some(x)),
{
    let q = json_quoted(x);
    let body = json_escape_all(x);
    assert(q[0] == '"');
    assert(q.subrange(1, 1 + body.len() as int) =~= body);
    assert(q[1 + body.len() as int] == '"');
    lemma_close_body(q, 1, x);
    lemma_escape_all_decodes(x);
    assert(q.subrange(1, 1 + body.len() as int) =~= body);
}

/// Each field of the report line reads back, as JSON, to what the run
/// gave: the line is the fixed keys with six JSON values between them, and
/// those values are the status, the time in microseconds followed by `us`,
/// the counterexample and the error (`null` exactly when there is none),
/// the tool and the property.
pub proof fn law_json_report_fields(
    tool: Seq<char>,
    property: Seq<char>,
    status: Seq<char>,
    metrics: Metrics,
    counterexample: Option<Seq<char>>,
    error: Option<Seq<char>>,
) -> (r: (Seq<char>, Seq<char>, Seq<char>, Seq<char>, Seq<char>, Seq<char>))
    ensures
        json_report(tool, property, status, metrics, counterexample, error) == "{\"status\":"@
            + r.0 + ",\"tests\":"@ + decimal(metrics.inputs as nat) + ",\"discards\":0,\"time\":"@
            + r.1 + ",\"counterexample\":"@ + r.2 + ",\"error\":"@ + r.3 + ",\"tool\":"@ + r.4
            + ",\"property\":"@ + r.5 + "}"@,
        json_value_of(r.0) == Some(Some(status)),
        json_value_of(r.1) == Some(Some(decimal(metrics.elapsed_us as nat) + "us"@)),
        json_value_of(r.2) == Some(counterexample),
        json_value_of(r.3) == Some(error),
        json_value_of(r.4) == Some(Some(tool)),
        json_value_of(r.5) == Some(Some(property)),
{
    reveal_strlit("null");
    lemma_value_of_quoted(status);
    lemma_value_of_quoted(decimal(metrics.elapsed_us as nat) + "us"@);
    lemma_value_of_quoted(tool);
    lemma_value_of_quoted(property);
    match counterexample {
        Some(x) => lemma_value_of_quoted(x),
        None => {},
    }
    match error {
        Some(x) => lemma_value_of_quoted(x),
        None => {},
    }
    (
        json_quoted(status),
        json_quoted(decimal(metrics.elapsed_us as nat) + "us"@),
        json_opt(counterexample),
        json_opt(error),
        json_quoted(tool),
        json_quoted(property),
    )
}

fn hex_digit(d: u32) -> (c: char)
    requires
        d < 16,
    ensures
        c == hex_char(d as int),
{
    if d < 10 {
        ((d as u8) + 48) as char
    } else {
        ((d as u8) + 87) as char
    }
}

/// `s` as a JSON string literal: in double quotes, with `"`, `\`, and the
/// control characters escaped.
pub fn json_str(s: &str) -> (r: String)
    ensures
        r@ == json_quoted(s@),
{
    let chars = crate::text::chars_of(s);
    let mut out = String::from_str("\"");
    let ghost start = out@;
    proof {
        reveal_strlit("\"");
        assert(chars@.take(0) =~= Seq::<char>::empty());
    }
    let mut i: usize = 0;
    while i < chars.len()
        invariant
            i <= chars.len(),
            start == seq!['"'],
            out@ == start + json_escape_all(chars@.take(i as int)),
        decreases chars.len() - i,
    {
        let c = chars[i];
        let ghost before = out@;
        if c == '"' {
            push_char(&mut out, '\\');
            push_char(&mut out, '"');
        } else if c == '\\' {
            push_char(&mut out, '\\');
            push_char(&mut out, '\\');
        } else if c == '\n' {
            push_char(&mut out, '\\');
            push_char(&mut out, 'n');
        } else if c == '\r' {
            push_char(&mut out, '\\');
            push_char(&mut out, 'r');
        } else if c == '\t' {
            push_char(&mut out, '\\');
            push_char(&mut out, 't');
        } else if (c as u32) < 0x20 {
            push_char(&mut out, '\\');
            push_char(&mut out, 'u');
            push_char(&mut out, '0');
            push_char(&mut out, '0');
            push_char(&mut out, hex_digit((c as u32) / 16));
            push_char(&mut out, hex_digit((c as u32) % 16));
        } else {
            push_char(&mut out, c);
        }
        proof {
            assert(out@ =~= before + json_escape(c));
            assert(chars@.take(i + 1).drop_last() =~= chars@.take(i as int));
        }
        i = i + 1;
    }
    push_char(&mut out, '"');
    proof {
        assert(chars@.take(chars@.len() as int) =~= chars@);
    }
    out
}

/// `null`, or the JSON string literal of `s`.
pub open spec fn json_opt(s: Option<Seq<char>>) -> Seq<char> {
    match s {
        Some(x) => json_quoted(x),
        None => "null"@,
    }
}

/// The one-line JSON report of a run.
pub open spec fn json_report(
    tool: Seq<char>,
    property: Seq<char>,
    status: Seq<char>,
    metrics: Metrics,
    counterexample: Option<Seq<char>>,
    error: Option<Seq<char>>,
) -> Seq<char> {
    "{\"status\":"@ + json_quoted(status) + ",\"tests\":"@ + decimal(metrics.inputs as nat)
        + ",\"discards\":0,\"time\":"@ + json_quoted(decimal(metrics.elapsed_us as nat) + "us"@)
        + ",\"counterexample\":"@ + json_opt(counterexample) + ",\"error\":"@ + json_opt(error)
        + ",\"tool\":"@ + json_quoted(tool) + ",\"property\":"@ + json_quoted(property) + "}"@
}

fn json_opt_exec(s: Option<&str>) -> (r: String)
    ensures
        r@ == json_opt(crate::media_type::view_str_option(s)),
{
    match s {
        Some(x) => json_str(x),
        None => String::from_str("null"),
    }
}

/// The one-line JSON report of a run: status, inputs tried, time taken,
/// counterexample and error (each `null` when absent), tool and property.
pub fn json_line(
    tool: &str,
    property: &str,
    status: &str,
    metrics: Metrics,
    counterexample: Option<&str>,
    error: Option<&str>,
) -> (r: String)
    ensures
        r@ == json_report(
            tool@,
            property@,
            status@,
            metrics,
            crate::media_type::view_str_option(counterexample),
            crate::media_type::view_str_option(error),
        ),
{
    let mut time = decimal_string(metrics.elapsed_us as u128);
    time.append("us");
    let mut out = String::from_str("{\"status\":");
    out.append(json_str(status).as_str());
    out.append(",\"tests\":");
    out.append(decimal_string(metrics.inputs as u128).as_str());
    out.append(",\"discards\":0,\"time\":");
    out.append(json_str(time.as_str()).as_str());
    out.append(",\"counterexample\":");
    out.append(json_opt_exec(counterexample).as_str());
    out.append(",\"error\":");
    out.append(json_opt_exec(error).as_str());
    out.append(",\"tool\":");
    out.append(json_str(tool).as_str());
    out.append(",\"property\":");
    out.append(json_str(property).as_str());
    out.append("}");
    out
}

/// `s` with `prefix` taken off its front, if `s` starts with it.
pub fn strip_prefix(s: &str, prefix: &str) -> (r: Option<String>)
    ensures
        r is Some <==> prefix@.is_prefix_of(s@),
        r matches Some(x) ==> x@ == s@.skip(prefix@.len() as int),
{
    let sc = crate::text::chars_of(s);
    let pc = crate::text::chars_of(prefix);
    if pc.len() > sc.len() {
        return None;
    }
    let mut i: usize = 0;
    while i < pc.len()
        invariant
            i <= pc.len() <= sc.len(),
            pc@ == prefix@,
            sc@ == s@,
            forall|k: int| 0 <= k < i ==> pc@[k] == sc@[k],
        decreases pc.len() - i,
    {
        if pc[i] != sc[i] {
            proof {
                if prefix@.is_prefix_of(s@) {
                    assert(prefix@ =~= s@.subrange(0, prefix@.len() as int));
                    assert(prefix@[i as int] == s@.subrange(0, prefix@.len() as int)[i as int]);
                }
            }
            return None;
        }
        i = i + 1;
    }
    assert(pc@ =~= sc@.subrange(0, pc@.len() as int));
    let rest = crate::text::string_of_range(&sc, pc.len(), sc.len(), false);
    assert(sc@.subrange(pc@.len() as int, sc@.len() as int) =~= sc@.skip(pc@.len() as int));
    Some(rest)
}

/// What a failing hegel run reports: whether it failed because the
/// property name was unknown, and the message. A message that starts with
/// `__unknown_property:` names an unknown property; otherwise the message
/// is the panic message without a leading `Property test failed: `.
pub fn hegel_failure(msg: &str) -> (r: (bool, String))
    ensures
        "__unknown_property:"@.is_prefix_of(msg@) ==> r.0 && r.1@ == "Unknown property for hegel: "@
            + msg@.skip("__unknown_property:"@.len() as int),
        !"__unknown_property:"@.is_prefix_of(msg@) ==> !r.0 && r.1@ == (if "Property test failed: "@.is_prefix_of(
            msg@,
        ) {
            msg@.skip("Property test failed: "@.len() as int)
        } else {
            msg@
        }),
{
    match strip_prefix(msg, "__unknown_property:") {
        Some(rest) => {
            let mut m = String::from_str("Unknown property for hegel: ");
            m.append(rest.as_str());
            (true, m)
        },
        None => match strip_prefix(msg, "Property test failed: ") {
            Some(rest) => (false, rest),
            None => (false, String::from_str(msg)),
        },
    }
}

/// How a crabcheck run ended, as plain values.
pub enum CrabcheckStatus {
    Finished,
    Failed { counterexample: String },
    TimedOut,
    GaveUp { passed: u64, discarded: u64 },
    Aborted { error: String },
}

/// The runner status of a crabcheck run: `Ok` when it finished, else the
/// message the report carries.
pub fn crabcheck_status(s: CrabcheckStatus) -> (r: Result<(), String>)
    ensures
        match s {
            CrabcheckStatus::Finished => r == Ok::<(), String>(()),
            CrabcheckStatus::Failed { counterexample } => r matches Err(m) && m@ == counterexample@,
            CrabcheckStatus::TimedOut => r matches Err(m) && m@ == "crabcheck timed out"@,
            CrabcheckStatus::GaveUp { passed, discarded } => r matches Err(m) && m@
                == "crabcheck gave up: passed="@ + decimal(passed as nat) + ", discarded="@ + decimal(
                discarded as nat,
            ),
            CrabcheckStatus::Aborted { error } => r matches Err(m) && m@ == "crabcheck aborted: "@
                + error@,
        },
{
    match s {
        CrabcheckStatus::Finished => Ok(()),
        CrabcheckStatus::Failed { counterexample } => Err(counterexample),
        CrabcheckStatus::TimedOut => Err(String::from_str("crabcheck timed out")),
        CrabcheckStatus::GaveUp { passed, discarded } => {
            let mut m = String::from_str("crabcheck gave up: passed=");
            m.append(decimal_string(passed as u128).as_str());
            m.append(", discarded=");
            m.append(decimal_string(discarded as u128).as_str());
            Err(m)
        },
        CrabcheckStatus::Aborted { error } => {
            let mut m = String::from_str("crabcheck aborted: ");
            m.append(error.as_str());
            Err(m)
        },
    }
}

} // verus!
