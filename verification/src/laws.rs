//! What holds of every parse: the laws of the media type parser and of
//! media type equality.

use vstd::prelude::*;

use crate::grammar::{
    is_ows, is_tchar, lemma_ows_end_at, lemma_token_end_at, lower, lower_seq,
};
use crate::media_type::{
    last_plus, lookup, prepend_params, same_media_type, spec_params, spec_parse, spec_quoted, spec_suffix,
    MediaTypeView, ParseError,
};

verus! {

/// A nonempty run of token characters.
pub open spec fn is_token(s: Seq<char>) -> bool {
    s.len() > 0 && forall|i: int| 0 <= i < s.len() ==> is_tchar(#[trigger] s[i])
}

/// A token with no uppercase letter, so that lowercasing keeps it.
pub open spec fn is_lower_token(s: Seq<char>) -> bool {
    is_token(s) && forall|i: int| 0 <= i < s.len() ==> !('A' <= #[trigger] s[i] && s[i] <= 'Z')
}

pub proof fn lemma_lower_token_lowered(s: Seq<char>)
    requires
        is_lower_token(s),
    ensures
        lower_seq(s) == s,
{
    assert(lower_seq(s) =~= s);
}

/// A (possibly empty) run of spaces and tabs.
pub open spec fn is_ws(s: Seq<char>) -> bool {
    forall|i: int| 0 <= i < s.len() ==> is_ows(#[trigger] s[i])
}

/// `type/subtype` written out.
pub open spec fn essence_text(t: Seq<char>, s: Seq<char>) -> Seq<char> {
    t + seq!['/'] + s
}

/// The media type with the given type and subtype and no parameters.
pub open spec fn bare(t: Seq<char>, s: Seq<char>) -> MediaTypeView {
    MediaTypeView { ty: lower_seq(t), subtype: lower_seq(s), params: Seq::empty() }
}

proof fn lemma_lower_concat(a: Seq<char>, b: Seq<char>)
    ensures
        lower_seq(a + b) == lower_seq(a) + lower_seq(b),
{
    assert(lower_seq(a + b) =~= lower_seq(a) + lower_seq(b));
}

/// `type/subtype` followed by anything that does not continue the subtype
/// is read with that type and subtype, and the rest is read as parameters.
proof fn lemma_essence(t: Seq<char>, s: Seq<char>, rest: Seq<char>)
    requires
        is_token(t),
        is_token(s),
        rest.len() == 0 || !is_tchar(rest[0]),
    ensures
        spec_parse(essence_text(t, s) + rest) == match spec_params(
            essence_text(t, s) + rest,
            (t.len() + 1 + s.len()) as int,
        ) {
            Ok(ps) => Ok::<MediaTypeView, ParseError>(
                MediaTypeView { ty: lower_seq(t), subtype: lower_seq(s), params: ps },
            ),
            Err(x) => Err(x),
        },
{
    let w = essence_text(t, s) + rest;
    let tl = t.len() as int;
    let u = tl + 1 + s.len();
    assert(w[tl] == '/');
    assert forall|k: int| 0 <= k < tl implies is_tchar(#[trigger] w[k]) by {
        assert(w[k] == t[k]);
    }
    lemma_token_end_at(w, 0, tl);
    assert forall|k: int| tl + 1 <= k < u implies is_tchar(#[trigger] w[k]) by {
        assert(w[k] == s[k - tl - 1]);
    }
    if u < w.len() {
        assert(w[u] == rest[0]);
    }
    lemma_token_end_at(w, tl + 1, u);
    assert(w.subrange(0, tl) =~= t);
    assert(w.subrange(tl + 1, u) =~= s);
}

/// A subtype with a `+suffix` is kept whole, and its suffix is what follows
/// the `+`: `type/name+suffix` parses to subtype `name+suffix` (lowercased)
/// and suffix `suffix`.
pub proof fn law_subtype_keeps_suffix(t: Seq<char>, s: Seq<char>, x: Seq<char>)
    requires
        is_token(t),
        is_token(s),
        is_token(x),
        forall|i: int| 0 <= i < x.len() ==> #[trigger] x[i] != '+',
    ensures
        spec_parse(essence_text(t, s + seq!['+'] + x)) == Ok::<MediaTypeView, ParseError>(
            bare(t, s + seq!['+'] + x),
        ),
        lower_seq(s + seq!['+'] + x) == lower_seq(s) + seq!['+'] + lower_seq(x),
        spec_suffix(lower_seq(s + seq!['+'] + x)) == Some(lower_seq(x)),
{
    let sub = s + seq!['+'] + x;
    assert forall|i: int| 0 <= i < sub.len() implies is_tchar(#[trigger] sub[i]) by {
        if i < s.len() {
            assert(sub[i] == s[i]);
        } else if i > s.len() {
            assert(sub[i] == x[i - s.len() - 1]);
        }
    }
    let empty = Seq::<char>::empty();
    lemma_essence(t, sub, empty);
    assert(essence_text(t, sub) + empty =~= essence_text(t, sub));
    lemma_lower_concat(s + seq!['+'], x);
    lemma_lower_concat(s, seq!['+']);
    assert(lower_seq(seq!['+']) =~= seq!['+']);
    let lx = lower_seq(x);
    assert forall|i: int| 0 <= i < lx.len() implies #[trigger] lx[i] != '+' by {
        assert(lx[i] == lower(x[i]));
    }
    lemma_last_plus_before(lower_seq(s), lx);
    let l = lower_seq(s) + seq!['+'] + lx;
    assert(l.subrange(lower_seq(s).len() + 1 as int, l.len() as int) =~= lx);
}

proof fn lemma_last_plus_before(a: Seq<char>, b: Seq<char>)
    requires
        forall|i: int| 0 <= i < b.len() ==> #[trigger] b[i] != '+',
    ensures
        last_plus(a + seq!['+'] + b) == a.len(),
    decreases b.len(),
{
    let w = a + seq!['+'] + b;
    if b.len() > 0 {
        assert(w.last() == b.last());
        assert(w.drop_last() =~= a + seq!['+'] + b.drop_last());
        lemma_last_plus_before(a, b.drop_last());
    }
}

/// A `;` with nothing after it but whitespace is an empty parameter list:
/// `type/subtype ; ` parses exactly as `type/subtype`, with no parameters.
pub proof fn law_empty_params_stripped(t: Seq<char>, s: Seq<char>, ws1: Seq<char>, ws2: Seq<char>)
    requires
        is_token(t),
        is_token(s),
        is_ws(ws1),
        is_ws(ws2),
    ensures
        spec_parse(essence_text(t, s) + ws1 + seq![';'] + ws2) == Ok::<MediaTypeView, ParseError>(
            bare(t, s),
        ),
        spec_parse(essence_text(t, s)) == Ok::<MediaTypeView, ParseError>(bare(t, s)),
{
    let e = essence_text(t, s);
    let rest = ws1 + seq![';'] + ws2;
    let w = e + rest;
    assert(w =~= e + ws1 + seq![';'] + ws2);
    if ws1.len() > 0 {
        assert(rest[0] == ws1[0]);
    } else {
        assert(rest[0] == ';');
    }
    lemma_essence(t, s, rest);
    let u = e.len() as int;
    let j = u + ws1.len();
    assert forall|k: int| u <= k < j implies is_ows(#[trigger] w[k]) by {
        assert(w[k] == ws1[k - u]);
    }
    assert(w[j] == ';');
    lemma_ows_end_at(w, u, j);
    assert forall|k: int| j + 1 <= k < w.len() implies is_ows(#[trigger] w[k]) by {
        assert(w[k] == ws2[k - j - 1]);
    }
    lemma_ows_end_at(w, j + 1, w.len() as int);
    let empty = Seq::<char>::empty();
    lemma_essence(t, s, empty);
    assert(e + empty =~= e);
}

/// `type/subtype` followed by one parameter `name=value`, with optional
/// whitespace around the `;`, written with the value bare or in quotes.
pub open spec fn one_param_text(
    t: Seq<char>,
    s: Seq<char>,
    ws1: Seq<char>,
    ws2: Seq<char>,
    p: Seq<char>,
    v: Seq<char>,
    quoted: bool,
) -> Seq<char> {
    essence_text(t, s) + ws1 + seq![';'] + ws2 + p + seq!['='] + (if quoted {
        seq!['"'] + v + seq!['"']
    } else {
        v
    })
}

/// The media type with the given type and subtype and one parameter.
pub open spec fn with_one_param(t: Seq<char>, s: Seq<char>, p: Seq<char>, v: Seq<char>) -> MediaTypeView {
    MediaTypeView { ty: lower_seq(t), subtype: lower_seq(s), params: seq![(lower_seq(p), v)] }
}

proof fn lemma_quoted_plain(w: Seq<char>, i: int, j: int)
    requires
        0 <= i <= j < w.len(),
        w[j] == '"',
        forall|k: int| i <= k < j ==> is_tchar(#[trigger] w[k]),
    ensures
        spec_quoted(w, i) == Ok::<(int, Seq<char>), ParseError>((j + 1, w.subrange(i, j))),
    decreases j - i,
{
    if i < j {
        assert(is_tchar(w[i]));
        lemma_quoted_plain(w, i + 1, j);
        assert(seq![w[i]] + w.subrange(i + 1, j) =~= w.subrange(i, j));
    } else {
        assert(w.subrange(i, j) =~= Seq::<char>::empty());
    }
}

/// The parameter part of a one-parameter media type, described by where
/// its pieces stand in `w`.
proof fn lemma_one_param_tail(w: Seq<char>, u: int, j: int, k: int, n: int, quoted: bool)
    requires
        0 <= u <= j,
        j < k < n,
        n + 1 < w.len(),
        forall|m: int| u <= m < j ==> is_ows(#[trigger] w[m]),
        w[j] == ';',
        forall|m: int| j + 1 <= m < k ==> is_ows(#[trigger] w[m]),
        forall|m: int| k <= m < n ==> is_tchar(#[trigger] w[m]),
        w[n] == '=',
        quoted ==> w[n + 1] == '"' && w[w.len() - 1] == '"' && n + 2 < w.len() && forall|m: int|
            n + 2 <= m < w.len() - 1 ==> is_tchar(#[trigger] w[m]),
        !quoted ==> forall|m: int| n + 1 <= m < w.len() ==> is_tchar(#[trigger] w[m]),
    ensures
        spec_params(w, u) == Ok::<Seq<(Seq<char>, Seq<char>)>, ParseError>(
            seq![
                (lower_seq(w.subrange(k, n)), if quoted {
                    w.subrange(n + 2, w.len() - 1)
                } else {
                    w.subrange(n + 1, w.len() as int)
                }),
            ],
        ),
{
    lemma_ows_end_at(w, u, j);
    lemma_ows_end_at(w, j + 1, k);
    lemma_token_end_at(w, k, n);
    if quoted {
        lemma_quoted_plain(w, n + 2, w.len() - 1);
    } else {
        lemma_token_end_at(w, n + 1, w.len() as int);
    }
    assert(spec_params(w, w.len() as int) == Ok::<Seq<(Seq<char>, Seq<char>)>, ParseError>(
        Seq::empty(),
    ));
    let pv = (lower_seq(w.subrange(k, n)), if quoted {
        w.subrange(n + 2, w.len() - 1)
    } else {
        w.subrange(n + 1, w.len() as int)
    });
    assert(seq![pv] + Seq::<(Seq<char>, Seq<char>)>::empty() =~= seq![pv]);
}

/// Whitespace may stand on either side of the `;` before a parameter, and
/// a token value means the same bare or in quotes: every such spelling of
/// `type/subtype; name=value` parses to the same media type, whose
/// parameter `name` has the value `value`.
#[verifier::rlimit(40)]
pub proof fn law_one_param(
    t: Seq<char>,
    s: Seq<char>,
    ws1: Seq<char>,
    ws2: Seq<char>,
    p: Seq<char>,
    v: Seq<char>,
    quoted: bool,
)
    requires
        is_token(t),
        is_token(s),
        is_ws(ws1),
        is_ws(ws2),
        is_token(p),
        is_token(v),
    ensures
        spec_parse(one_param_text(t, s, ws1, ws2, p, v, quoted)) == Ok::<MediaTypeView, ParseError>(
            with_one_param(t, s, p, v),
        ),
        lookup(with_one_param(t, s, p, v).params, lower_seq(p)) == Some(v),
{
    let e = essence_text(t, s);
    let val = if quoted {
        seq!['"'] + v + seq!['"']
    } else {
        v
    };
    let rest = ws1 + seq![';'] + ws2 + p + seq!['='] + val;
    let w = e + rest;
    assert(w =~= one_param_text(t, s, ws1, ws2, p, v, quoted));
    if ws1.len() > 0 {
        assert(rest[0] == ws1[0]);
    } else {
        assert(rest[0] == ';');
    }
    lemma_essence(t, s, rest);
    let u = e.len() as int;
    let j = u + ws1.len();
    let k = j + 1 + ws2.len();
    let n = k + p.len();
    assert forall|m: int| u <= m < j implies is_ows(#[trigger] w[m]) by {
        assert(w[m] == ws1[m - u]);
    }
    assert(w[j] == ';');
    assert forall|m: int| j + 1 <= m < k implies is_ows(#[trigger] w[m]) by {
        assert(w[m] == ws2[m - j - 1]);
    }
    assert forall|m: int| k <= m < n implies is_tchar(#[trigger] w[m]) by {
        assert(w[m] == p[m - k]);
    }
    assert(w[n] == '=');
    assert(w.subrange(k, n) =~= p);
    if quoted {
        assert(w[n + 1] == '"');
        assert(w[w.len() - 1] == '"');
        assert forall|m: int| n + 2 <= m < w.len() - 1 implies is_tchar(#[trigger] w[m]) by {
            assert(w[m] == v[m - n - 2]);
        }
        assert(w.subrange(n + 2, w.len() - 1) =~= v);
    } else {
        assert forall|m: int| n + 1 <= m < w.len() implies is_tchar(#[trigger] w[m]) by {
            assert(w[m] == v[m - n - 1]);
        }
        assert(w.subrange(n + 1, w.len() as int) =~= v);
    }
    lemma_one_param_tail(w, u, j, k, n, quoted);
}

/// Whitespace before and after the `;` does not change a media type: any
/// two spellings of `type/subtype;name=value` that differ only in that
/// whitespace parse to the same media type.
pub proof fn law_ows_same(
    t: Seq<char>,
    s: Seq<char>,
    ws1: Seq<char>,
    ws2: Seq<char>,
    ws3: Seq<char>,
    ws4: Seq<char>,
    p: Seq<char>,
    v: Seq<char>,
)
    requires
        is_token(t),
        is_token(s),
        is_ws(ws1),
        is_ws(ws2),
        is_ws(ws3),
        is_ws(ws4),
        is_token(p),
        is_token(v),
    ensures
        spec_parse(one_param_text(t, s, ws1, ws2, p, v, false)) is Ok,
        spec_parse(one_param_text(t, s, ws3, ws4, p, v, false)) is Ok,
        same_media_type(
            spec_parse(one_param_text(t, s, ws1, ws2, p, v, false))->Ok_0,
            spec_parse(one_param_text(t, s, ws3, ws4, p, v, false))->Ok_0,
        ),
{
    law_one_param(t, s, ws1, ws2, p, v, false);
    law_one_param(t, s, ws3, ws4, p, v, false);
    law_same_reflexive(with_one_param(t, s, p, v));
}

/// A token value means the same in quotes: `type/subtype; name=value` and
/// `type/subtype; name="value"` parse to the same media type.
pub proof fn law_quoted_same(
    t: Seq<char>,
    s: Seq<char>,
    ws1: Seq<char>,
    ws2: Seq<char>,
    p: Seq<char>,
    v: Seq<char>,
)
    requires
        is_token(t),
        is_token(s),
        is_ws(ws1),
        is_ws(ws2),
        is_token(p),
        is_token(v),
    ensures
        spec_parse(one_param_text(t, s, ws1, ws2, p, v, false)) is Ok,
        spec_parse(one_param_text(t, s, ws1, ws2, p, v, true)) is Ok,
        same_media_type(
            spec_parse(one_param_text(t, s, ws1, ws2, p, v, false))->Ok_0,
            spec_parse(one_param_text(t, s, ws1, ws2, p, v, true))->Ok_0,
        ),
{
    law_one_param(t, s, ws1, ws2, p, v, false);
    law_one_param(t, s, ws1, ws2, p, v, true);
    law_same_reflexive(with_one_param(t, s, p, v));
}

/// How one parameter is written: the whitespace before and after its `;`,
/// its name, its value, whether the value stands in double quotes, and, for
/// a quoted value, what stands between the quotes.
pub struct ParamSpelling {
    pub ws1: Seq<char>,
    pub ws2: Seq<char>,
    pub name: Seq<char>,
    pub value: Seq<char>,
    pub quoted: bool,
    pub raw: Seq<char>,
}

/// `raw` is the inside of a quoted string (RFC 7230 `qdtext` and
/// backslash escapes, no bare `"`) that stands for `value`.
pub open spec fn quoted_body(raw: Seq<char>, value: Seq<char>) -> bool {
    spec_quoted(raw + seq!['"'], 0) == Ok::<(int, Seq<char>), ParseError>((raw.len() + 1 as int, value))
}

/// Whitespace runs around the `;`, a token as name, and as value a token
/// written bare or any quoted string.
pub open spec fn spelling_valid(p: ParamSpelling) -> bool {
    &&& is_ws(p.ws1)
    &&& is_ws(p.ws2)
    &&& is_token(p.name)
    &&& if p.quoted {
        quoted_body(p.raw, p.value)
    } else {
        is_token(p.value)
    }
}

/// The value as written: bare, or in double quotes.
pub open spec fn value_text(p: ParamSpelling) -> Seq<char> {
    if p.quoted {
        seq!['"'] + p.raw + seq!['"']
    } else {
        p.value
    }
}

/// A quoted string reads the same wherever it stands: only the characters
/// from its start to its closing quote matter.
pub proof fn lemma_quoted_shift(x: Seq<char>, i: int, y: Seq<char>, j: int, len: int, v: Seq<char>)
    requires
        0 <= i,
        0 <= j,
        i + len <= x.len(),
        j + len <= y.len(),
        forall|m: int| 0 <= m < len ==> #[trigger] x[i + m] == y[j + m],
        spec_quoted(x, i) == Ok::<(int, Seq<char>), ParseError>((i + len, v)),
    ensures
        spec_quoted(y, j) == Ok::<(int, Seq<char>), ParseError>((j + len, v)),
    decreases len,
{
    crate::media_type::lemma_quoted_end(x, i);
    assert(x[i + 0] == y[j + 0]);
    if x[i] == '"' {
    } else if x[i] == '\\' {
        let r = spec_quoted(x, i + 2);
        crate::media_type::lemma_quoted_end(x, i + 2);
        assert(x[i + 1] == y[j + 1]);
        let (e, w) = r->Ok_0;
        assert forall|m: int| 0 <= m < len - 2 implies #[trigger] x[(i + 2) + m] == y[(j + 2) + m] by {
            assert(x[i + (m + 2)] == y[j + (m + 2)]);
        }
        lemma_quoted_shift(x, i + 2, y, j + 2, len - 2, w);
    } else {
        let r = spec_quoted(x, i + 1);
        crate::media_type::lemma_quoted_end(x, i + 1);
        let (e, w) = r->Ok_0;
        assert forall|m: int| 0 <= m < len - 1 implies #[trigger] x[(i + 1) + m] == y[(j + 1) + m] by {
            assert(x[i + (m + 1)] == y[j + (m + 1)]);
        }
        lemma_quoted_shift(x, i + 1, y, j + 1, len - 1, w);
    }
}

/// `ws1 ; ws2 name=value` as written.
pub open spec fn spelling_text(p: ParamSpelling) -> Seq<char> {
    p.ws1 + seq![';'] + p.ws2 + p.name + seq!['='] + value_text(p)
}

/// A whole parameter list as written, one parameter after the other.
pub open spec fn params_text(ps: Seq<ParamSpelling>) -> Seq<char>
    decreases ps.len(),
{
    if ps.len() == 0 {
        Seq::empty()
    } else {
        spelling_text(ps[0]) + params_text(ps.drop_first())
    }
}

/// What may end a media type after its parameters: whitespace, and
/// optionally a `;` with nothing but whitespace after it.
pub open spec fn tail_text(ws3: Seq<char>, ws4: Seq<char>, closing: bool) -> Seq<char> {
    ws3 + (if closing {
        seq![';'] + ws4
    } else {
        Seq::empty()
    })
}

/// The parameters that a written list stands for: lowercased names with
/// their values.
pub open spec fn spelled_params(ps: Seq<ParamSpelling>) -> Seq<(Seq<char>, Seq<char>)> {
    ps.map_values(|p: ParamSpelling| (lower_seq(p.name), p.value))
}

proof fn lemma_spelling_layout(p: ParamSpelling)
    ensures
        ({
            let text = spelling_text(p);
            let a = p.ws1.len() as int;
            let b = a + 1 + p.ws2.len();
            let c = b + p.name.len();
            &&& text.len() == c + 1 + value_text(p).len()
            &&& forall|m: int| 0 <= m < a ==> #[trigger] text[m] == p.ws1[m]
            &&& text[a] == ';'
            &&& forall|m: int| a < m < b ==> #[trigger] text[m] == p.ws2[m - a - 1]
            &&& forall|m: int| b <= m < c ==> #[trigger] text[m] == p.name[m - b]
            &&& text[c] == '='
            &&& forall|m: int|
                c < m < text.len() ==> #[trigger] text[m] == value_text(p)[m - c - 1]
        }),
{
}

/// One parameter, read where its pieces stand in `w`, followed at `e` by
/// whatever comes next. A quoted value is given by what its quoted string
/// reads to.
proof fn lemma_param_step(
    w: Seq<char>,
    u: int,
    j: int,
    k: int,
    n: int,
    e: int,
    quoted: bool,
    value: Seq<char>,
)
    requires
        0 <= u <= j,
        j < k < n,
        n + 1 < e <= w.len(),
        forall|m: int| u <= m < j ==> is_ows(#[trigger] w[m]),
        w[j] == ';',
        forall|m: int| j + 1 <= m < k ==> is_ows(#[trigger] w[m]),
        forall|m: int| k <= m < n ==> is_tchar(#[trigger] w[m]),
        w[n] == '=',
        quoted ==> w[n + 1] == '"' && spec_quoted(w, n + 2) == Ok::<(int, Seq<char>), ParseError>(
            (e, value),
        ),
        !quoted ==> (forall|m: int| n + 1 <= m < e ==> is_tchar(#[trigger] w[m])) && (e == w.len()
            || !is_tchar(w[e])) && value == w.subrange(n + 1, e),
    ensures
        spec_params(w, u) == prepend_params(
            seq![(lower_seq(w.subrange(k, n)), value)],
            spec_params(w, e),
        ),
{
    lemma_ows_end_at(w, u, j);
    lemma_ows_end_at(w, j + 1, k);
    lemma_token_end_at(w, k, n);
    if !quoted {
        lemma_token_end_at(w, n + 1, e);
    }
}

/// A written list followed by more text starts with whitespace or `;`.
proof fn lemma_list_start(ps: Seq<ParamSpelling>, tail: Seq<char>)
    requires
        forall|i: int| 0 <= i < ps.len() ==> spelling_valid(#[trigger] ps[i]),
        tail.len() == 0 || is_ows(tail[0]) || tail[0] == ';',
    ensures
        (params_text(ps) + tail).len() == 0 || is_ows((params_text(ps) + tail)[0])
            || (params_text(ps) + tail)[0] == ';',
{
    if ps.len() > 0 {
        let p = ps[0];
        assert(spelling_valid(p));
        lemma_spelling_layout(p);
        let x = params_text(ps) + tail;
        assert(x[0] == spelling_text(p)[0]);
        if p.ws1.len() > 0 {
            assert(is_ows(p.ws1[0]));
        }
    } else {
        assert(params_text(ps) + tail =~= tail);
    }
}

proof fn lemma_tail(pre: Seq<char>, ws3: Seq<char>, ws4: Seq<char>, closing: bool)
    requires
        is_ws(ws3),
        is_ws(ws4),
    ensures
        spec_params(pre + tail_text(ws3, ws4, closing), pre.len() as int) == Ok::<
            Seq<(Seq<char>, Seq<char>)>,
            ParseError,
        >(Seq::empty()),
{
    let w = pre + tail_text(ws3, ws4, closing);
    let u = pre.len() as int;
    let j = u + ws3.len();
    if u < w.len() {
        assert forall|m: int| u <= m < j implies is_ows(#[trigger] w[m]) by {
            assert(w[m] == ws3[m - u]);
        }
        if closing {
            assert(w[j] == ';');
            lemma_ows_end_at(w, u, j);
            assert forall|m: int| j + 1 <= m < w.len() implies is_ows(#[trigger] w[m]) by {
                assert(w[m] == ws4[m - j - 1]);
            }
            lemma_ows_end_at(w, j + 1, w.len() as int);
        } else {
            lemma_ows_end_at(w, u, j);
        }
    }
}

/// The first parameter of `w` from `pre.len()` on is `p`, as written.
#[verifier::rlimit(60)]
proof fn lemma_first_param(pre: Seq<char>, p: ParamSpelling, after: Seq<char>)
    requires
        spelling_valid(p),
        after.len() == 0 || !is_tchar(after[0]),
    ensures
        spec_params(pre + spelling_text(p) + after, pre.len() as int) == prepend_params(
            seq![(lower_seq(p.name), p.value)],
            spec_params(pre + spelling_text(p) + after, (pre.len() + spelling_text(p).len()) as int),
        ),
{
    let text = spelling_text(p);
    let w = pre + text + after;
    lemma_spelling_layout(p);
    let u = pre.len() as int;
    let e = u + text.len();
    assert forall|m: int| 0 <= m < text.len() implies #[trigger] w[u + m] == text[m] by {
        assert((pre + text + after)[u + m] == text[m]);
    }
    let a = p.ws1.len() as int;
    let b = a + 1 + p.ws2.len();
    let c = b + p.name.len();
    let j = u + a;
    let k = u + b;
    let n = u + c;
    assert forall|m: int| u <= m < j implies is_ows(#[trigger] w[m]) by {
        assert(w[u + (m - u)] == text[m - u]);
    }
    assert(w[u + a] == text[a]);
    assert forall|m: int| j + 1 <= m < k implies is_ows(#[trigger] w[m]) by {
        assert(w[u + (m - u)] == text[m - u]);
    }
    assert forall|m: int| k <= m < n implies is_tchar(#[trigger] w[m]) by {
        assert(w[u + (m - u)] == text[m - u]);
    }
    assert(w[u + c] == text[c]);
    let vt = value_text(p);
    assert(w.subrange(k, n) =~= p.name) by {
        assert forall|m: int| 0 <= m < p.name.len() implies w.subrange(k, n)[m] == p.name[m] by {
            assert(w[u + (b + m)] == text[b + m]);
        }
    }
    if e < w.len() {
        assert(w[e] == after[0]);
    }
    if p.quoted {
        assert(w[u + (c + 1)] == text[c + 1]);
        let body = p.raw + seq!['"'];
        assert forall|m: int| 0 <= m < body.len() implies #[trigger] body[0 + m] == w[(n + 2) + m] by {
            assert(w[u + (c + 2 + m)] == text[c + 2 + m]);
            assert(vt[c + 2 + m - c - 1] == body[m]);
        }
        lemma_quoted_shift(body, 0, w, n + 2, body.len() as int, p.value);
    } else {
        assert forall|m: int| n + 1 <= m < e implies is_tchar(#[trigger] w[m]) by {
            assert(w[u + (m - u)] == text[m - u]);
        }
        assert(w.subrange(n + 1, e) =~= p.value) by {
            assert forall|m: int| 0 <= m < p.value.len() implies w.subrange(n + 1, e)[m]
                == p.value[m] by {
                assert(w[u + (c + 1 + m)] == text[c + 1 + m]);
            }
        }
    }
    lemma_param_step(w, u, j, k, n, e, p.quoted, p.value);
}

proof fn lemma_params_list(pre: Seq<char>, ps: Seq<ParamSpelling>, ws3: Seq<char>, ws4: Seq<char>, closing: bool)
    requires
        forall|i: int| 0 <= i < ps.len() ==> spelling_valid(#[trigger] ps[i]),
        is_ws(ws3),
        is_ws(ws4),
    ensures
        spec_params(pre + params_text(ps) + tail_text(ws3, ws4, closing), pre.len() as int)
            == Ok::<Seq<(Seq<char>, Seq<char>)>, ParseError>(spelled_params(ps)),
    decreases ps.len(),
{
    let tail = tail_text(ws3, ws4, closing);
    if ps.len() == 0 {
        assert(pre + params_text(ps) + tail =~= pre + tail);
        lemma_tail(pre, ws3, ws4, closing);
        assert(spelled_params(ps) =~= Seq::<(Seq<char>, Seq<char>)>::empty());
    } else {
        let p = ps[0];
        let rest = ps.drop_first();
        assert(spelling_valid(p));
        assert forall|i: int| 0 <= i < rest.len() implies spelling_valid(#[trigger] rest[i]) by {
            assert(rest[i] == ps[i + 1]);
        }
        let text = spelling_text(p);
        let after = params_text(rest) + tail;
        let w = pre + params_text(ps) + tail;
        assert(w =~= pre + text + after);
        assert(w =~= (pre + text) + params_text(rest) + tail);
        lemma_params_list(pre + text, rest, ws3, ws4, closing);
        if tail.len() > 0 {
            if ws3.len() > 0 {
                assert(tail[0] == ws3[0]);
            } else {
                assert(tail[0] == ';');
            }
        }
        lemma_list_start(rest, tail);
        lemma_first_param(pre, p, after);
        assert((pre + text).len() == pre.len() + text.len());
        assert(seq![(lower_seq(p.name), p.value)] + spelled_params(rest) =~= spelled_params(ps));
    }
}

/// Every way of writing a parameter list (any whitespace around each `;`,
/// each value a bare token or a quoted string, an optional empty `;` and
/// whitespace at the end) parses to the media type whose parameters are the
/// list's names, lowercased, with their values, in order.
pub proof fn law_params_list(
    t: Seq<char>,
    s: Seq<char>,
    ps: Seq<ParamSpelling>,
    ws3: Seq<char>,
    ws4: Seq<char>,
    closing: bool,
)
    requires
        is_token(t),
        is_token(s),
        forall|i: int| 0 <= i < ps.len() ==> spelling_valid(#[trigger] ps[i]),
        is_ws(ws3),
        is_ws(ws4),
    ensures
        spec_parse(essence_text(t, s) + params_text(ps) + tail_text(ws3, ws4, closing)) == Ok::<
            MediaTypeView,
            ParseError,
        >(MediaTypeView { ty: lower_seq(t), subtype: lower_seq(s), params: spelled_params(ps) }),
{
    let e = essence_text(t, s);
    let tail = tail_text(ws3, ws4, closing);
    let rest = params_text(ps) + tail;
    if tail.len() > 0 {
        if ws3.len() > 0 {
            assert(tail[0] == ws3[0]);
        } else {
            assert(tail[0] == ';');
        }
    }
    lemma_list_start(ps, tail);
    if rest.len() > 0 {
        assert(!is_tchar(rest[0]));
    }
    lemma_essence(t, s, rest);
    assert(e + params_text(ps) + tail =~= e + rest);
    lemma_params_list(e, ps, ws3, ws4, closing);
}

proof fn lemma_ws_range(s: Seq<char>, a: int, b: int)
    requires
        0 <= a <= b <= s.len(),
        forall|m: int| a <= m < b ==> is_ows(#[trigger] s[m]),
    ensures
        is_ws(s.subrange(a, b)),
{
    assert forall|m: int| 0 <= m < b - a implies is_ows(#[trigger] s.subrange(a, b)[m]) by {
        assert(s.subrange(a, b)[m] == s[a + m]);
    }
}

proof fn lemma_token_range(s: Seq<char>, a: int, b: int)
    requires
        0 <= a < b <= s.len(),
        forall|m: int| a <= m < b ==> is_tchar(#[trigger] s[m]),
    ensures
        is_token(s.subrange(a, b)),
{
    assert forall|m: int| 0 <= m < b - a implies is_tchar(#[trigger] s.subrange(a, b)[m]) by {
        assert(s.subrange(a, b)[m] == s[a + m]);
    }
}

/// The parameter part of `s` from `i` on, when it parses, is a written
/// parameter list with an ending: this gives them.
#[verifier::rlimit(60)]
proof fn lemma_params_spelled(s: Seq<char>, i: int) -> (r: (Seq<ParamSpelling>, Seq<char>, Seq<char>, bool))
    requires
        0 <= i <= s.len(),
        spec_params(s, i) is Ok,
    ensures
        forall|k: int| 0 <= k < r.0.len() ==> spelling_valid(#[trigger] r.0[k]),
        is_ws(r.1),
        is_ws(r.2),
        s.subrange(i, s.len() as int) == params_text(r.0) + tail_text(r.1, r.2, r.3),
        spec_params(s, i) == Ok::<Seq<(Seq<char>, Seq<char>)>, ParseError>(spelled_params(r.0)),
    decreases s.len() - i,
{
    let len = s.len() as int;
    let empty = Seq::<char>::empty();
    let none = Seq::<ParamSpelling>::empty();
    assert(spelled_params(none) =~= Seq::<(Seq<char>, Seq<char>)>::empty());
    if i >= len {
        assert(s.subrange(i, len) =~= params_text(none) + tail_text(empty, empty, false));
        (none, empty, empty, false)
    } else {
        let j = crate::grammar::ows_end(s, i);
        crate::grammar::lemma_ows_end_bounds(s, i);
        if j >= len {
            let ws3 = s.subrange(i, len);
            lemma_ws_range(s, i, len);
            assert(s.subrange(i, len) =~= params_text(none) + tail_text(ws3, empty, false));
            (none, ws3, empty, false)
        } else {
            let k = crate::grammar::ows_end(s, j + 1);
            crate::grammar::lemma_ows_end_bounds(s, j + 1);
            let ws1 = s.subrange(i, j);
            let ws2 = s.subrange(j + 1, k);
            lemma_ws_range(s, i, j);
            lemma_ws_range(s, j + 1, k);
            if k >= len {
                assert(s.subrange(i, len) =~= params_text(none) + tail_text(ws1, ws2, true));
                (none, ws1, ws2, true)
            } else {
                let n = crate::grammar::token_end(s, k);
                crate::grammar::lemma_token_end_bounds(s, k);
                let name = s.subrange(k, n);
                lemma_token_range(s, k, n);
                if s[n + 1] == '"' {
                    crate::media_type::lemma_quoted_end(s, n + 2);
                    let (e, v) = spec_quoted(s, n + 2)->Ok_0;
                    let raw = s.subrange(n + 2, e - 1);
                    let body = raw + seq!['"'];
                    assert forall|m: int| 0 <= m < e - (n + 2) implies #[trigger] s[(n + 2) + m]
                        == body[0 + m] by {
                        if m < e - 1 - (n + 2) {
                            assert(body[m] == raw[m]);
                        }
                    }
                    lemma_quoted_shift(s, n + 2, body, 0, e - (n + 2), v);
                    let p = ParamSpelling { ws1, ws2, name, value: v, quoted: true, raw };
                    let (rest, ws3, ws4, closing) = lemma_params_spelled(s, e);
                    let ps = seq![p] + rest;
                    assert(ps.drop_first() =~= rest);
                    assert(ps[0] == p);
                    assert forall|q: int| 0 <= q < ps.len() implies spelling_valid(#[trigger] ps[q]) by {
                        if q > 0 {
                            assert(ps[q] == rest[q - 1]);
                        }
                    }
                    assert(s.subrange(i, e) =~= spelling_text(p));
                    assert(s.subrange(i, len) =~= s.subrange(i, e) + s.subrange(e, len));
                    assert(params_text(ps) + tail_text(ws3, ws4, closing) =~= spelling_text(p) + (
                    params_text(rest) + tail_text(ws3, ws4, closing)));
                    assert(spelled_params(ps) =~= seq![(lower_seq(name), v)] + spelled_params(rest));
                    (ps, ws3, ws4, closing)
                } else {
                    let w = crate::grammar::token_end(s, n + 1);
                    crate::grammar::lemma_token_end_bounds(s, n + 1);
                    let v = s.subrange(n + 1, w);
                    lemma_token_range(s, n + 1, w);
                    let p = ParamSpelling { ws1, ws2, name, value: v, quoted: false, raw: empty };
                    let (rest, ws3, ws4, closing) = lemma_params_spelled(s, w);
                    let ps = seq![p] + rest;
                    assert(ps.drop_first() =~= rest);
                    assert(ps[0] == p);
                    assert forall|q: int| 0 <= q < ps.len() implies spelling_valid(#[trigger] ps[q]) by {
                        if q > 0 {
                            assert(ps[q] == rest[q - 1]);
                        }
                    }
                    assert(s.subrange(i, w) =~= spelling_text(p));
                    assert(s.subrange(i, len) =~= s.subrange(i, w) + s.subrange(w, len));
                    assert(params_text(ps) + tail_text(ws3, ws4, closing) =~= spelling_text(p) + (
                    params_text(rest) + tail_text(ws3, ws4, closing)));
                    assert(spelled_params(ps) =~= seq![(lower_seq(name), v)] + spelled_params(rest));
                    (ps, ws3, ws4, closing)
                }
            }
        }
    }
}

/// Every input that parses is written as the grammar says: a type token,
/// `/`, a subtype token, a parameter list (each parameter with whitespace
/// around its `;`, a token name, and a token value or a quoted string) and
/// an ending of whitespace and possibly a bare `;`. The law gives these
/// pieces, and the parse is what `law_params_list` says of them.
pub proof fn law_parse_is_spelled(s: Seq<char>) -> (r: (
    Seq<char>,
    Seq<char>,
    Seq<ParamSpelling>,
    Seq<char>,
    Seq<char>,
    bool,
))
    requires
        spec_parse(s) is Ok,
    ensures
        is_token(r.0),
        is_token(r.1),
        forall|k: int| 0 <= k < r.2.len() ==> spelling_valid(#[trigger] r.2[k]),
        is_ws(r.3),
        is_ws(r.4),
        s == essence_text(r.0, r.1) + params_text(r.2) + tail_text(r.3, r.4, r.5),
        spec_parse(s) == Ok::<MediaTypeView, ParseError>(
            MediaTypeView { ty: lower_seq(r.0), subtype: lower_seq(r.1), params: spelled_params(r.2) },
        ),
{
    let len = s.len() as int;
    let t = crate::grammar::token_end(s, 0);
    crate::grammar::lemma_token_end_bounds(s, 0);
    let u = crate::grammar::token_end(s, t + 1);
    crate::grammar::lemma_token_end_bounds(s, t + 1);
    let ty = s.subrange(0, t);
    let st = s.subrange(t + 1, u);
    lemma_token_range(s, 0, t);
    lemma_token_range(s, t + 1, u);
    let (ps, ws3, ws4, closing) = lemma_params_spelled(s, u);
    assert(s =~= essence_text(ty, st) + s.subrange(u, len));
    assert(essence_text(ty, st) + params_text(ps) + tail_text(ws3, ws4, closing) =~= essence_text(
        ty,
        st,
    ) + (params_text(ps) + tail_text(ws3, ws4, closing)));
    (ty, st, ps, ws3, ws4, closing)
}

/// Whitespace around the `;`s, the way each value is written (bare, or any
/// quoted string that stands for it) and the way the input ends do not
/// change a media type: two ways of writing the same names and values, in
/// the same order, parse to the same media type.
pub proof fn law_spelling_irrelevant(
    t: Seq<char>,
    s: Seq<char>,
    ps1: Seq<ParamSpelling>,
    tail1: (Seq<char>, Seq<char>, bool),
    ps2: Seq<ParamSpelling>,
    tail2: (Seq<char>, Seq<char>, bool),
)
    requires
        is_token(t),
        is_token(s),
        forall|i: int| 0 <= i < ps1.len() ==> spelling_valid(#[trigger] ps1[i]),
        forall|i: int| 0 <= i < ps2.len() ==> spelling_valid(#[trigger] ps2[i]),
        is_ws(tail1.0) && is_ws(tail1.1) && is_ws(tail2.0) && is_ws(tail2.1),
        ps1.len() == ps2.len(),
        forall|i: int|
            0 <= i < ps1.len() ==> (#[trigger] ps1[i]).name == ps2[i].name && ps1[i].value
                == ps2[i].value,
    ensures
        spec_parse(essence_text(t, s) + params_text(ps1) + tail_text(tail1.0, tail1.1, tail1.2)) is Ok,
        spec_parse(essence_text(t, s) + params_text(ps1) + tail_text(tail1.0, tail1.1, tail1.2))
            == spec_parse(essence_text(t, s) + params_text(ps2) + tail_text(tail2.0, tail2.1, tail2.2)),
{
    law_params_list(t, s, ps1, tail1.0, tail1.1, tail1.2);
    law_params_list(t, s, ps2, tail2.0, tail2.1, tail2.2);
    assert(spelled_params(ps1) =~= spelled_params(ps2));
}

/// No parameter name stands with two different values.
pub open spec fn consistent_params(ps: Seq<(Seq<char>, Seq<char>)>) -> bool {
    forall|i: int, j: int|
        0 <= i < ps.len() && 0 <= j < ps.len() && (#[trigger] ps[i]).0 == (#[trigger] ps[j]).0
            ==> ps[i].1 == ps[j].1
}

/// What a lookup finds is a parameter of the list.
pub proof fn lemma_lookup_found(ps: Seq<(Seq<char>, Seq<char>)>, n: Seq<char>)
    ensures
        lookup(ps, n) matches Some(v) ==> exists|k: int| 0 <= k < ps.len() && #[trigger] ps[k] == (n, v),
    decreases ps.len(),
{
    if ps.len() > 0 {
        if ps[0].0 == n {
            assert(ps[0] == (n, ps[0].1));
        } else {
            lemma_lookup_found(ps.drop_first(), n);
            if let Some(v) = lookup(ps, n) {
                let k = choose|k: int| 0 <= k < ps.drop_first().len() && #[trigger] ps.drop_first()[k] == (n, v);
                assert(ps[k + 1] == (n, v));
            }
        }
    }
}

/// A name that stands in the list is found.
pub proof fn lemma_lookup_some_of_member(ps: Seq<(Seq<char>, Seq<char>)>, i: int)
    requires
        0 <= i < ps.len(),
    ensures
        lookup(ps, ps[i].0) is Some,
    decreases ps.len(),
{
    if i > 0 && ps[0].0 != ps[i].0 {
        lemma_lookup_some_of_member(ps.drop_first(), i - 1);
        assert(ps.drop_first()[i - 1] == ps[i]);
    }
}

/// A media type in which no parameter name stands with two different
/// values is the same as itself. (`t/p; a=1; a=2` is not: looking `a` up
/// gives `1`, which is not the value of its second occurrence.)
pub proof fn law_same_reflexive(a: MediaTypeView)
    requires
        consistent_params(a.params),
    ensures
        same_media_type(a, a),
{
    assert forall|i: int| 0 <= i < a.params.len() implies lookup(a.params, (#[trigger] a.params[i]).0)
        == Some(a.params[i].1) by {
        lemma_lookup_some_of_member(a.params, i);
        lemma_lookup_found(a.params, a.params[i].0);
        let v = lookup(a.params, a.params[i].0)->Some_0;
        let k = choose|k: int| 0 <= k < a.params.len() && #[trigger] a.params[k] == (a.params[i].0, v);
        assert(a.params[k].0 == a.params[i].0);
    }
}

/// Sameness does not depend on the order of its arguments.
pub proof fn law_same_symmetric(a: MediaTypeView, b: MediaTypeView)
    ensures
        same_media_type(a, b) == same_media_type(b, a),
{
}

/// Two media types that are the same as a third are the same.
pub proof fn law_same_transitive(a: MediaTypeView, b: MediaTypeView, c: MediaTypeView)
    requires
        same_media_type(a, b),
        same_media_type(b, c),
    ensures
        same_media_type(a, c),
{
    assert forall|i: int| 0 <= i < a.params.len() implies lookup(c.params, (#[trigger] a.params[i]).0)
        == Some(a.params[i].1) by {
        let n = a.params[i].0;
        assert(lookup(b.params, n) == Some(a.params[i].1));
        lemma_lookup_found(b.params, n);
        let k = choose|k: int| 0 <= k < b.params.len() && #[trigger] b.params[k] == (n, a.params[i].1);
        assert(lookup(c.params, b.params[k].0) == Some(b.params[k].1));
    }
    assert forall|i: int| 0 <= i < c.params.len() implies lookup(a.params, (#[trigger] c.params[i]).0)
        == Some(c.params[i].1) by {
        let n = c.params[i].0;
        assert(lookup(b.params, n) == Some(c.params[i].1));
        lemma_lookup_found(b.params, n);
        let k = choose|k: int| 0 <= k < b.params.len() && #[trigger] b.params[k] == (n, c.params[i].1);
        assert(lookup(a.params, b.params[k].0) == Some(b.params[k].1));
    }
}

/// The order in which two differently named parameters are written does
/// not matter.
pub proof fn law_param_order(
    ty: Seq<char>,
    subtype: Seq<char>,
    x: (Seq<char>, Seq<char>),
    y: (Seq<char>, Seq<char>),
)
    requires
        x.0 != y.0,
    ensures
        same_media_type(
            MediaTypeView { ty, subtype, params: seq![x, y] },
            MediaTypeView { ty, subtype, params: seq![y, x] },
        ),
{
    let xy = seq![x, y];
    let yx = seq![y, x];
    reveal_with_fuel(lookup, 3);
    assert(xy.drop_first() =~= seq![y]);
    assert(yx.drop_first() =~= seq![x]);
    assert(lookup(yx, x.0) == Some(x.1));
    assert(lookup(xy, y.0) == Some(y.1));
    assert(lookup(xy, x.0) == Some(x.1));
    assert(lookup(yx, y.0) == Some(y.1));
    assert forall|i: int| 0 <= i < xy.len() implies lookup(yx, (#[trigger] xy[i]).0) == Some(xy[i].1) by {
        if i == 0 { assert(xy[i] == x); } else { assert(xy[i] == y); }
    }
    assert forall|i: int| 0 <= i < yx.len() implies lookup(xy, (#[trigger] yx[i]).0) == Some(yx[i].1) by {
        if i == 0 { assert(yx[i] == y); } else { assert(yx[i] == x); }
    }
}

proof fn lemma_lower_of_token(s: Seq<char>)
    requires
        is_token(s),
    ensures
        is_lower_token(lower_seq(s)),
{
    let l = lower_seq(s);
    assert forall|i: int| 0 <= i < l.len() implies is_tchar(#[trigger] l[i]) && !('A' <= l[i]
        && l[i] <= 'Z') by {
        assert(l[i] == lower(s[i]));
        assert(is_tchar(s[i]));
    }
}

proof fn lemma_params_names(s: Seq<char>, i: int)
    requires
        0 <= i,
    ensures
        spec_params(s, i) matches Ok(ps) ==> forall|k: int|
            0 <= k < ps.len() ==> is_lower_token(#[trigger] ps[k].0),
    decreases s.len() - i,
{
    if i < s.len() {
        let j = crate::grammar::ows_end(s, i);
        crate::grammar::lemma_ows_end_bounds(s, i);
        if j < s.len() && s[j] == ';' {
            let k = crate::grammar::ows_end(s, j + 1);
            crate::grammar::lemma_ows_end_bounds(s, j + 1);
            if k < s.len() {
                let n = crate::grammar::token_end(s, k);
                crate::grammar::lemma_token_end_bounds(s, k);
                if n != k && n + 1 < s.len() && s[n] == '=' {
                    let name = lower_seq(s.subrange(k, n));
                    assert(is_token(s.subrange(k, n)));
                    lemma_lower_of_token(s.subrange(k, n));
                    if s[n + 1] == '"' {
                        crate::media_type::lemma_quoted_end(s, n + 2);
                        if let Ok((e, v)) = spec_quoted(s, n + 2) {
                            lemma_params_names(s, e);
                            if let Ok(rest) = spec_params(s, e) {
                                let ps = seq![(name, v)] + rest;
                                assert forall|m: int| 0 <= m < ps.len() implies is_lower_token(
                                    #[trigger] ps[m].0,
                                ) by {
                                    if m > 0 {
                                        assert(ps[m] == rest[m - 1]);
                                    }
                                }
                            }
                        }
                    } else {
                        let w = crate::grammar::token_end(s, n + 1);
                        crate::grammar::lemma_token_end_bounds(s, n + 1);
                        if w != n + 1 {
                            lemma_params_names(s, w);
                            if let Ok(rest) = spec_params(s, w) {
                                let ps = seq![(name, s.subrange(n + 1, w))] + rest;
                                assert forall|m: int| 0 <= m < ps.len() implies is_lower_token(
                                    #[trigger] ps[m].0,
                                ) by {
                                    if m > 0 {
                                        assert(ps[m] == rest[m - 1]);
                                    }
                                }
                            }
                        }
                    }
                }
            }
        }
    }
}

/// What every successful parse gives: the type, the subtype and every
/// parameter name are nonempty tokens without uppercase letters.
pub proof fn law_parse_normalizes(s: Seq<char>)
    requires
        spec_parse(s) is Ok,
    ensures
        is_lower_token(spec_parse(s)->Ok_0.ty),
        is_lower_token(spec_parse(s)->Ok_0.subtype),
        forall|k: int|
            0 <= k < spec_parse(s)->Ok_0.params.len() ==> is_lower_token(
                #[trigger] spec_parse(s)->Ok_0.params[k].0,
            ),
{
    let t = crate::grammar::token_end(s, 0);
    crate::grammar::lemma_token_end_bounds(s, 0);
    let u = crate::grammar::token_end(s, t + 1);
    crate::grammar::lemma_token_end_bounds(s, t + 1);
    assert(is_token(s.subrange(0, t)));
    assert(is_token(s.subrange(t + 1, u)));
    lemma_lower_of_token(s.subrange(0, t));
    lemma_lower_of_token(s.subrange(t + 1, u));
    lemma_params_names(s, u);
}


/// `tchar` as RFC 7230 section 3.2.6 lists it: `!#$%&'*+-.^_`|~`, DIGIT
/// (%x30-39) and ALPHA (%x41-5A / %x61-7A).
pub open spec fn rfc7230_tchar(c: char) -> bool {
    ||| c == '\u{21}' || c == '\u{23}' || c == '\u{24}' || c == '\u{25}' || c == '\u{26}'
    ||| c == '\u{27}' || c == '\u{2a}' || c == '\u{2b}' || c == '\u{2d}' || c == '\u{2e}'
    ||| c == '\u{5e}' || c == '\u{5f}' || c == '\u{60}' || c == '\u{7c}' || c == '\u{7e}'
    ||| ('\u{30}' <= c && c <= '\u{39}')
    ||| ('\u{41}' <= c && c <= '\u{5a}')
    ||| ('\u{61}' <= c && c <= '\u{7a}')
}

/// `qdtext` as RFC 7230 section 3.2.6 lists it: HTAB, SP, %x21, %x23-5B,
/// %x5D-7E, and obs-text (taken here as every character from %x80 on).
pub open spec fn rfc7230_qdtext(c: char) -> bool {
    ||| c == '\u{09}' || c == '\u{20}' || c == '\u{21}'
    ||| ('\u{23}' <= c && c <= '\u{5b}')
    ||| ('\u{5d}' <= c && c <= '\u{7e}')
    ||| '\u{80}' <= c
}

/// What may follow a backslash in RFC 7230's `quoted-pair`: HTAB, SP,
/// VCHAR (%x21-7E), obs-text.
pub open spec fn rfc7230_pair_char(c: char) -> bool {
    ||| c == '\u{09}' || c == '\u{20}'
    ||| ('\u{21}' <= c && c <= '\u{7e}')
    ||| '\u{80}' <= c
}

/// RFC 7230 OWS: spaces and horizontal tabs.
pub open spec fn rfc7230_ows(s: Seq<char>) -> bool {
    forall|i: int| 0 <= i < s.len() ==> (#[trigger] s[i] == '\u{20}' || s[i] == '\u{09}')
}

/// A nonempty run of RFC 7230 `tchar`s.
pub open spec fn rfc7230_token(s: Seq<char>) -> bool {
    s.len() > 0 && forall|i: int| 0 <= i < s.len() ==> rfc7230_tchar(#[trigger] s[i])
}

/// The content that the inside of an RFC 7230 `quoted-string` (between
/// its quotes) stands for: `qdtext` stands for itself and `\` followed by
/// a character stands for that character; `None` when it is not such an
/// inside.
pub open spec fn rfc7230_unquote(raw: Seq<char>) -> Option<Seq<char>>
    decreases raw.len(),
{
    if raw.len() == 0 {
        Some(Seq::empty())
    } else if raw[0] == '\u{5c}' {
        if raw.len() >= 2 && rfc7230_pair_char(raw[1]) {
            match rfc7230_unquote(raw.skip(2)) {
                Some(v) => Some(seq![raw[1]] + v),
                None => None,
            }
        } else {
            None
        }
    } else if rfc7230_qdtext(raw[0]) {
        match rfc7230_unquote(raw.skip(1)) {
            Some(v) => Some(seq![raw[0]] + v),
            None => None,
        }
    } else {
        None
    }
}

/// The token characters of the parser are RFC 7230's `tchar`s.
proof fn lemma_tchar_rfc(c: char)
    ensures
        is_tchar(c) <==> rfc7230_tchar(c),
{
}

proof fn lemma_rfc_token(s: Seq<char>)
    requires
        rfc7230_token(s),
    ensures
        is_token(s),
{
    assert forall|i: int| 0 <= i < s.len() implies is_tchar(#[trigger] s[i]) by {
        lemma_tchar_rfc(s[i]);
    }
}

proof fn lemma_rfc_ws(s: Seq<char>)
    requires
        rfc7230_ows(s),
    ensures
        is_ws(s),
{
    assert forall|i: int| 0 <= i < s.len() implies is_ows(#[trigger] s[i]) by {
    }
}

/// The inside of a quoted string, followed by its closing quote at `i` of
/// `y`, reads to what RFC 7230 says it stands for.
proof fn lemma_quoted_rfc(y: Seq<char>, i: int, raw: Seq<char>, v: Seq<char>)
    requires
        0 <= i,
        i + raw.len() < y.len(),
        y.subrange(i, i + raw.len()) == raw,
        y[i + raw.len()] == '"',
        rfc7230_unquote(raw) == Some(v),
    ensures
        spec_quoted(y, i) == Ok::<(int, Seq<char>), ParseError>((i + raw.len() + 1, v)),
    decreases raw.len(),
{
    if raw.len() == 0 {
        assert(v =~= Seq::<char>::empty());
    } else {
        assert(y[i] == raw[0]);
        if raw[0] == '\u{5c}' {
            assert(y[i + 1] == raw[1]);
            let w = rfc7230_unquote(raw.skip(2))->Some_0;
            assert(y.subrange(i + 2, i + 2 + raw.skip(2).len()) =~= raw.skip(2));
            lemma_quoted_rfc(y, i + 2, raw.skip(2), w);
        } else {
            let w = rfc7230_unquote(raw.skip(1))->Some_0;
            assert(y.subrange(i + 1, i + 1 + raw.skip(1).len()) =~= raw.skip(1));
            lemma_quoted_rfc(y, i + 1, raw.skip(1), w);
        }
    }
}

/// A parameter value may be any RFC 7230 `quoted-string`: written as
/// `type/subtype ; name="raw"`, with `raw` any quoted-string inside, the
/// media type parses, and its one parameter is the name, lowercased, with
/// the content that `raw` stands for (so `"https://a/b"`, with `:` and `/`,
/// is the value `https://a/b`).
pub proof fn law_quoted_string_value(
    t: Seq<char>,
    s: Seq<char>,
    ws1: Seq<char>,
    ws2: Seq<char>,
    p: Seq<char>,
    raw: Seq<char>,
    v: Seq<char>,
)
    requires
        rfc7230_token(t),
        rfc7230_token(s),
        rfc7230_token(p),
        rfc7230_ows(ws1),
        rfc7230_ows(ws2),
        rfc7230_unquote(raw) == Some(v),
    ensures
        spec_parse(
            t + seq!['/'] + s + ws1 + seq![';'] + ws2 + p + seq!['=', '"'] + raw + seq!['"'],
        ) == Ok::<MediaTypeView, ParseError>(
            MediaTypeView {
                ty: lower_seq(t),
                subtype: lower_seq(s),
                params: seq![(lower_seq(p), v)],
            },
        ),
{
    lemma_rfc_token(t);
    lemma_rfc_token(s);
    lemma_rfc_token(p);
    lemma_rfc_ws(ws1);
    lemma_rfc_ws(ws2);
    let body = raw + seq!['"'];
    assert(body.subrange(0, raw.len() as int) =~= raw);
    lemma_quoted_rfc(body, 0, raw, v);
    let sp = ParamSpelling { ws1, ws2, name: p, value: v, quoted: true, raw };
    let ps = seq![sp];
    assert(ps[0] == sp);
    let empty = Seq::<char>::empty();
    law_params_list(t, s, ps, empty, empty, false);
    assert(ps.drop_first() =~= Seq::<ParamSpelling>::empty());
    assert(params_text(ps.drop_first()) =~= empty);
    assert(params_text(ps) =~= spelling_text(sp));
    assert(tail_text(empty, empty, false) =~= empty);
    assert(value_text(sp) =~= seq!['"'] + raw + seq!['"']);
    assert(essence_text(t, s) + params_text(ps) + tail_text(empty, empty, false) =~= t + seq!['/']
        + s + ws1 + seq![';'] + ws2 + p + seq!['=', '"'] + raw + seq!['"']);
    assert(spelled_params(ps) =~= seq![(lower_seq(p), v)]);
}

/// The token alphabet is RFC 7230's `tchar`: a one-character type, subtype,
/// parameter name or parameter value parses exactly when that character is
/// a `tchar`, and a one-character value is then kept as it is.
#[verifier::rlimit(40)]
pub proof fn law_token_alphabet(t: Seq<char>, s: Seq<char>, p: Seq<char>, c: char)
    requires
        rfc7230_token(t),
        rfc7230_token(s),
        rfc7230_token(p),
    ensures
        spec_parse(seq![c] + seq!['/'] + s) is Ok <==> rfc7230_tchar(c),
        spec_parse(t + seq!['/'] + seq![c]) is Ok <==> rfc7230_tchar(c),
        spec_parse(t + seq!['/'] + s + seq![';'] + seq![c] + seq!['='] + p) is Ok <==> rfc7230_tchar(c),
        spec_parse(t + seq!['/'] + s + seq![';'] + p + seq!['='] + seq![c]) is Ok <==> rfc7230_tchar(c),
        rfc7230_tchar(c) ==> spec_parse(t + seq!['/'] + s + seq![';'] + p + seq!['='] + seq![c])
            == Ok::<MediaTypeView, ParseError>(
            MediaTypeView {
                ty: lower_seq(t),
                subtype: lower_seq(s),
                params: seq![(lower_seq(p), seq![c])],
            },
        ),
{
    lemma_rfc_token(t);
    lemma_rfc_token(s);
    lemma_rfc_token(p);
    lemma_tchar_rfc(c);
    let cs = seq![c];
    let empty = Seq::<char>::empty();
    lemma_alphabet_type(s, c);
    lemma_alphabet_subtype(t, c);
    lemma_alphabet_name(t, s, p, c);
    lemma_alphabet_value(t, s, p, c);
}

proof fn lemma_alphabet_type(s: Seq<char>, c: char)
    requires
        is_token(s),
    ensures
        spec_parse(seq![c] + seq!['/'] + s) is Ok <==> is_tchar(c),
{
    let w = seq![c] + seq!['/'] + s;
    if is_tchar(c) {
        let empty = Seq::<char>::empty();
        law_empty_params_stripped(seq![c], s, empty, empty);
        assert(essence_text(seq![c], s) =~= w);
    } else {
        assert(w[0] == c);
        lemma_token_end_at(w, 0, 0);
    }
}

proof fn lemma_alphabet_subtype(t: Seq<char>, c: char)
    requires
        is_token(t),
    ensures
        spec_parse(t + seq!['/'] + seq![c]) is Ok <==> is_tchar(c),
{
    let w = t + seq!['/'] + seq![c];
    if is_tchar(c) {
        let empty = Seq::<char>::empty();
        law_empty_params_stripped(t, seq![c], empty, empty);
        assert(essence_text(t, seq![c]) =~= w);
    } else {
        let tl = t.len() as int;
        assert forall|k: int| 0 <= k < tl implies is_tchar(#[trigger] w[k]) by {
            assert(w[k] == t[k]);
        }
        assert(w[tl] == '/');
        lemma_token_end_at(w, 0, tl);
        assert(w[tl + 1] == c);
        lemma_token_end_at(w, tl + 1, tl + 1);
    }
}

#[verifier::rlimit(40)]
proof fn lemma_alphabet_name(t: Seq<char>, s: Seq<char>, p: Seq<char>, c: char)
    requires
        is_token(t),
        is_token(s),
        is_token(p),
    ensures
        spec_parse(t + seq!['/'] + s + seq![';'] + seq![c] + seq!['='] + p) is Ok <==> is_tchar(c),
{
    let empty = Seq::<char>::empty();
    let w = t + seq!['/'] + s + seq![';'] + seq![c] + seq!['='] + p;
    if is_tchar(c) {
        assert(is_token(seq![c]));
        law_one_param(t, s, empty, empty, seq![c], p, false);
        assert(one_param_text(t, s, empty, empty, seq![c], p, false) =~= w);
    } else {
        let e = essence_text(t, s);
        let rest = seq![';'] + seq![c] + seq!['='] + p;
        assert(w =~= e + rest);
        assert(rest[0] == ';');
        lemma_essence(t, s, rest);
        let u = e.len() as int;
        assert(w[u] == ';');
        assert(w[u + 1] == c);
        assert(w[u + 2] == '=');
        lemma_ows_end_at(w, u, u);
        if is_ows(c) {
            lemma_ows_end_at(w, u + 1, u + 2);
            lemma_token_end_at(w, u + 2, u + 2);
        } else {
            lemma_ows_end_at(w, u + 1, u + 1);
            lemma_token_end_at(w, u + 1, u + 1);
        }
    }
}

#[verifier::rlimit(40)]
proof fn lemma_alphabet_value(t: Seq<char>, s: Seq<char>, p: Seq<char>, c: char)
    requires
        is_token(t),
        is_token(s),
        is_token(p),
    ensures
        spec_parse(t + seq!['/'] + s + seq![';'] + p + seq!['='] + seq![c]) is Ok <==> is_tchar(c),
        is_tchar(c) ==> spec_parse(t + seq!['/'] + s + seq![';'] + p + seq!['='] + seq![c])
            == Ok::<MediaTypeView, ParseError>(
            MediaTypeView {
                ty: lower_seq(t),
                subtype: lower_seq(s),
                params: seq![(lower_seq(p), seq![c])],
            },
        ),
{
    let empty = Seq::<char>::empty();
    let w = t + seq!['/'] + s + seq![';'] + p + seq!['='] + seq![c];
    if is_tchar(c) {
        assert(is_token(seq![c]));
        law_one_param(t, s, empty, empty, p, seq![c], false);
        assert(one_param_text(t, s, empty, empty, p, seq![c], false) =~= w);
    } else {
        let e = essence_text(t, s);
        let rest = seq![';'] + p + seq!['='] + seq![c];
        assert(w =~= e + rest);
        assert(rest[0] == ';');
        lemma_essence(t, s, rest);
        let u = e.len() as int;
        let n = u + 1 + p.len();
        assert(w[u] == ';');
        assert(w[u + 1] == p[0]);
        assert forall|m: int| u + 1 <= m < n implies is_tchar(#[trigger] w[m]) by {
            assert(w[m] == p[m - u - 1]);
        }
        assert(w[n] == '=');
        assert(w[n + 1] == c);
        assert(w.len() == n + 2);
        lemma_ows_end_at(w, u, u);
        lemma_ows_end_at(w, u + 1, u + 1);
        lemma_token_end_at(w, u + 1, n);
        if c != '"' {
            lemma_token_end_at(w, n + 1, n + 1);
        }
    }
}

/// Two media types are the same exactly when their types are equal, their
/// subtypes are equal, and each parameter of either one, every occurrence
/// of a repeated name included, is what looking its name up in the other
/// gives. In particular `text/xml` and `application/xml` differ.
pub proof fn law_same_means(a: MediaTypeView, b: MediaTypeView)
    ensures
        same_media_type(a, b) <==> {
            &&& a.ty == b.ty
            &&& a.subtype == b.subtype
            &&& forall|i: int|
                0 <= i < a.params.len() ==> lookup(b.params, (#[trigger] a.params[i]).0) == Some(
                    a.params[i].1,
                )
            &&& forall|i: int|
                0 <= i < b.params.len() ==> lookup(a.params, (#[trigger] b.params[i]).0) == Some(
                    b.params[i].1,
                )
        },
        same_media_type(a, b) ==> a.ty == b.ty && a.subtype == b.subtype,
{
}

} // verus!
