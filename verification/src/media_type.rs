//! The media type value, its mathematical model, and the parser that
//! produces it.
//!
//! Grammar (RFC 7231 section 3.1.1.1, made lenient in two ways: whitespace
//! may end the input, and so may a `;` with no parameter after it):
//!
//! ```text
//! media-type = type "/" subtype *( OWS ";" OWS parameter ) [ OWS ";" ] OWS
//! parameter  = token "=" ( token / quoted-string )
//! ```
//!
//! The type, subtype and parameter names are ASCII-lowercased; parameter
//! values are kept as written, a quoted value with its quotes and
//! backslash escapes removed.

use vstd::prelude::*;

use crate::grammar::{lemma_ows_end_bounds, lemma_token_end_bounds, lower_seq, ows_end, token_end};
use crate::text::string_of_range;

verus! {

/// Why a string is not a media type.
#[derive(Debug, Clone, Copy, PartialEq, Eq, Structural)]
pub enum ParseError {
    /// The input is a bare type with no `/` after it.
    MissingSlash,
    /// A parameter name runs to the end of the input without `=`.
    MissingEqual,
    /// A quoted value is not closed.
    MissingQuote,
    /// A character stands where the grammar does not allow it.
    InvalidToken { pos: usize, ch: char },
    /// The input ends where a type, subtype or value must begin.
    UnexpectedEnd,
}

impl ParseError {
    /// A sentence that says what is wrong.
    pub fn describe(&self) -> (r: String)
        ensures
            r@ == match *self {
                ParseError::MissingSlash => "a slash (/) was missing between the type and subtype"@,
                ParseError::MissingEqual => "an equals sign (=) was missing between a parameter and its value"@,
                ParseError::MissingQuote => "a quote (\") was missing from a parameter value"@,
                ParseError::InvalidToken { pos, ch } => "invalid token, "@ + seq![ch] + " at position "@
                    + crate::text::decimal(pos as nat),
                ParseError::UnexpectedEnd => "the input ended where a name or value was expected"@,
            },
    {
        match self {
            ParseError::MissingSlash => String::from_str("a slash (/) was missing between the type and subtype"),
            ParseError::MissingEqual => String::from_str("an equals sign (=) was missing between a parameter and its value"),
            ParseError::MissingQuote => String::from_str("a quote (\") was missing from a parameter value"),
            ParseError::InvalidToken { pos, ch } => {
                let mut r = String::from_str("invalid token, ");
                crate::text::push_char(&mut r, *ch);
                r.append(" at position ");
                let n = crate::text::decimal_string(*pos as u128);
                r.append(n.as_str());
                r
            },
            ParseError::UnexpectedEnd => String::from_str("the input ended where a name or value was expected"),
        }
    }
}

/// The model of a media type: lowercased type and subtype, and the
/// parameters in the order written, each as (lowercased name, value).
pub struct MediaTypeView {
    pub ty: Seq<char>,
    pub subtype: Seq<char>,
    pub params: Seq<(Seq<char>, Seq<char>)>,
}

/// One parameter: its lowercased name and its value.
#[derive(Debug)]
pub struct Param {
    name: String,
    value: String,
}

impl View for Param {
    type V = (Seq<char>, Seq<char>);

    closed spec fn view(&self) -> (Seq<char>, Seq<char>) {
        (self.name@, self.value@)
    }
}

/// A parsed media type such as `text/plain; charset=utf-8`.
#[derive(Debug)]
pub struct MediaType {
    ty: String,
    subtype: String,
    params: Vec<Param>,
}

pub open spec fn params_view(ps: Seq<Param>) -> Seq<(Seq<char>, Seq<char>)> {
    ps.map_values(|p: Param| p@)
}

impl View for MediaType {
    type V = MediaTypeView;

    closed spec fn view(&self) -> MediaTypeView {
        MediaTypeView { ty: self.ty@, subtype: self.subtype@, params: params_view(self.params@) }
    }
}

pub open spec fn invalid_at(s: Seq<char>, i: int) -> ParseError {
    ParseError::InvalidToken { pos: i as usize, ch: s[i] }
}

/// `qdtext` of RFC 7230: what may stand unescaped between double quotes.
pub open spec fn is_qdtext(c: char) -> bool {
    ||| c == '\t' || c == ' ' || c == '!'
    ||| ('#' <= c && c <= '[')
    ||| (']' <= c && c <= '~')
    ||| '\u{80}' <= c
}

/// What may follow a backslash inside double quotes.
pub open spec fn is_escapable(c: char) -> bool {
    ||| c == '\t'
    ||| (' ' <= c && c <= '~')
    ||| '\u{80}' <= c
}

/// The rest of a quoted string whose opening quote stands before `i`: the
/// index just past the closing quote, and the value with escapes removed.
pub open spec fn spec_quoted(s: Seq<char>, i: int) -> Result<(int, Seq<char>), ParseError>
    decreases s.len() - i,
{
    if i < 0 || i >= s.len() {
        Err(ParseError::MissingQuote)
    } else if s[i] == '"' {
        Ok((i + 1, Seq::empty()))
    } else if s[i] == '\\' {
        if i + 1 >= s.len() {
            Err(ParseError::MissingQuote)
        } else if !is_escapable(s[i + 1]) {
            Err(invalid_at(s, i + 1))
        } else {
            prepend_value(seq![s[i + 1]], spec_quoted(s, i + 2))
        }
    } else if !is_qdtext(s[i]) {
        Err(invalid_at(s, i))
    } else {
        prepend_value(seq![s[i]], spec_quoted(s, i + 1))
    }
}

pub open spec fn prepend_value(p: Seq<char>, r: Result<(int, Seq<char>), ParseError>) -> Result<
    (int, Seq<char>),
    ParseError,
> {
    match r {
        Ok((e, v)) => Ok((e, p + v)),
        Err(x) => Err(x),
    }
}

pub proof fn lemma_quoted_end(s: Seq<char>, i: int)
    requires
        0 <= i,
    ensures
        spec_quoted(s, i) matches Ok((e, v)) ==> i < e <= s.len() && s[e - 1] == '"',
    decreases s.len() - i,
{
    if 0 <= i < s.len() && s[i] != '"' {
        if s[i] == '\\' {
            if i + 1 < s.len() {
                lemma_quoted_end(s, i + 2);
            }
        } else {
            lemma_quoted_end(s, i + 1);
        }
    }
}

pub open spec fn prepend_params(
    p: Seq<(Seq<char>, Seq<char>)>,
    r: Result<Seq<(Seq<char>, Seq<char>)>, ParseError>,
) -> Result<Seq<(Seq<char>, Seq<char>)>, ParseError> {
    match r {
        Ok(rest) => Ok(p + rest),
        Err(x) => Err(x),
    }
}

/// The parameters from index `i` on, where `i` is just past the subtype or
/// just past the previous parameter's value.
pub open spec fn spec_params(s: Seq<char>, i: int) -> Result<
    Seq<(Seq<char>, Seq<char>)>,
    ParseError,
>
    decreases s.len() - i,
{
    if i < 0 || i >= s.len() {
        Ok(Seq::empty())
    } else {
        let j = ows_end(s, i);
        if j >= s.len() {
            Ok(Seq::empty())
        } else if s[j] != ';' {
            Err(invalid_at(s, j))
        } else {
            let k = ows_end(s, j + 1);
            if k >= s.len() {
                Ok(Seq::empty())
            } else {
                let n = token_end(s, k);
                let name = lower_seq(s.subrange(k, n));
                if n == k {
                    Err(invalid_at(s, k))
                } else if n >= s.len() {
                    Err(ParseError::MissingEqual)
                } else if s[n] != '=' {
                    Err(invalid_at(s, n))
                } else if n + 1 >= s.len() {
                    Err(ParseError::UnexpectedEnd)
                } else if s[n + 1] == '"' {
                    proof {
                        lemma_ows_end_bounds(s, i);
                        lemma_ows_end_bounds(s, j + 1);
                        lemma_token_end_bounds(s, k);
                        lemma_quoted_end(s, n + 2);
                    }
                    match spec_quoted(s, n + 2) {
                        Ok((e, v)) => prepend_params(seq![(name, v)], spec_params(s, e)),
                        Err(x) => Err(x),
                    }
                } else {
                    let w = token_end(s, n + 1);
                    proof {
                        lemma_ows_end_bounds(s, i);
                        lemma_ows_end_bounds(s, j + 1);
                        lemma_token_end_bounds(s, k);
                        lemma_token_end_bounds(s, n + 1);
                    }
                    if w == n + 1 {
                        Err(invalid_at(s, n + 1))
                    } else {
                        prepend_params(seq![(name, s.subrange(n + 1, w))], spec_params(s, w))
                    }
                }
            }
        }
    }
}

/// What parsing the characters `s` gives.
pub open spec fn spec_parse(s: Seq<char>) -> Result<MediaTypeView, ParseError> {
    let t = token_end(s, 0);
    if t >= s.len() {
        if s.len() == 0 {
            Err(ParseError::UnexpectedEnd)
        } else {
            Err(ParseError::MissingSlash)
        }
    } else if s[t] != '/' {
        Err(invalid_at(s, t))
    } else if t == 0 {
        Err(invalid_at(s, 0))
    } else {
        let u = token_end(s, t + 1);
        if u == t + 1 {
            if u >= s.len() {
                Err(ParseError::UnexpectedEnd)
            } else {
                Err(invalid_at(s, u))
            }
        } else {
            match spec_params(s, u) {
                Ok(ps) => Ok(
                    MediaTypeView {
                        ty: lower_seq(s.subrange(0, t)),
                        subtype: lower_seq(s.subrange(t + 1, u)),
                        params: ps,
                    },
                ),
                Err(x) => Err(x),
            }
        }
    }
}

fn invalid_at_exec(s: &Vec<char>, i: usize) -> (e: ParseError)
    requires
        i < s.len(),
    ensures
        e == invalid_at(s@, i as int),
{
    ParseError::InvalidToken { pos: i, ch: s[i] }
}

/// Scans a quoted string whose opening quote stands just before `i`.
fn scan_quoted(s: &Vec<char>, i: usize) -> (r: Result<(usize, String), ParseError>)
    requires
        i <= s.len(),
    ensures
        match r {
            Ok((e, v)) => spec_quoted(s@, i as int) == Ok::<(int, Seq<char>), ParseError>(
                (e as int, v@),
            ),
            Err(x) => spec_quoted(s@, i as int) == Err::<(int, Seq<char>), ParseError>(x),
        },
{
    let mut acc = String::new();
    let mut j = i;
    loop
        invariant
            i <= j <= s.len(),
            spec_quoted(s@, i as int) == prepend_value(acc@, spec_quoted(s@, j as int)),
        decreases s.len() - j,
    {
        if j >= s.len() {
            return Err(ParseError::MissingQuote);
        }
        let c = s[j];
        if c == '"' {
            proof {
                assert(acc@ + Seq::<char>::empty() =~= acc@);
            }
            return Ok((j + 1, acc));
        } else if c == '\\' {
            if j + 1 >= s.len() {
                return Err(ParseError::MissingQuote);
            }
            let d = s[j + 1];
            if !(d == '\t' || (' ' <= d && d <= '~') || '\u{80}' <= d) {
                return Err(invalid_at_exec(s, j + 1));
            }
            let ghost before = acc@;
            crate::text::push_char(&mut acc, d);
            proof {
                match spec_quoted(s@, j + 2) {
                    Ok((e, v)) => {
                        assert(before + (seq![d] + v) =~= acc@ + v);
                    },
                    Err(x) => {},
                }
            }
            j = j + 2;
        } else if !(c == '\t' || c == ' ' || c == '!' || ('#' <= c && c <= '[') || (']' <= c
            && c <= '~') || '\u{80}' <= c) {
            return Err(invalid_at_exec(s, j));
        } else {
            let ghost before = acc@;
            crate::text::push_char(&mut acc, c);
            proof {
                match spec_quoted(s@, j + 1) {
                    Ok((e, v)) => {
                        assert(before + (seq![c] + v) =~= acc@ + v);
                    },
                    Err(x) => {},
                }
            }
            j = j + 1;
        }
    }
}

/// Parses the parameters from index `start` on.
fn parse_params(s: &Vec<char>, start: usize) -> (r: Result<Vec<Param>, ParseError>)
    requires
        start <= s.len(),
    ensures
        match r {
            Ok(ps) => spec_params(s@, start as int) == Ok::<
                Seq<(Seq<char>, Seq<char>)>,
                ParseError,
            >(params_view(ps@)),
            Err(x) => spec_params(s@, start as int) == Err::<
                Seq<(Seq<char>, Seq<char>)>,
                ParseError,
            >(x),
        },
{
    let mut out: Vec<Param> = Vec::new();
    let mut i = start;
    loop
        invariant
            start <= i <= s.len(),
            spec_params(s@, start as int) == prepend_params(
                params_view(out@),
                spec_params(s@, i as int),
            ),
        decreases s.len() - i,
    {
        proof {
            assert(params_view(out@) + Seq::<(Seq<char>, Seq<char>)>::empty() =~= params_view(
                out@,
            ));
        }
        if i >= s.len() {
            return Ok(out);
        }
        let j = crate::grammar::scan_ows(s, i);
        if j >= s.len() {
            return Ok(out);
        }
        if s[j] != ';' {
            return Err(invalid_at_exec(s, j));
        }
        let k = crate::grammar::scan_ows(s, j + 1);
        if k >= s.len() {
            return Ok(out);
        }
        let n = crate::grammar::scan_token(s, k);
        if n == k {
            return Err(invalid_at_exec(s, k));
        }
        if n >= s.len() {
            return Err(ParseError::MissingEqual);
        }
        if s[n] != '=' {
            return Err(invalid_at_exec(s, n));
        }
        if n + 1 >= s.len() {
            return Err(ParseError::UnexpectedEnd);
        }
        let name = string_of_range(s, k, n, true);
        let ghost before = params_view(out@);
        if s[n + 1] == '"' {
            match scan_quoted(s, n + 2) {
                Err(x) => {
                    return Err(x);
                },
                Ok((e, value)) => {
                    proof {
                        lemma_quoted_end(s@, n + 2);
                    }
                    out.push(Param { name, value });
                    proof {
                        assert(params_view(out@) =~= before.push(out@.last()@));
                        match spec_params(s@, e as int) {
                            Ok(rest) => {
                                assert(before + (seq![out@.last()@] + rest) =~= params_view(
                                    out@,
                                ) + rest);
                            },
                            Err(x) => {},
                        }
                    }
                    i = e;
                },
            }
        } else {
            let w = crate::grammar::scan_token(s, n + 1);
            if w == n + 1 {
                return Err(invalid_at_exec(s, n + 1));
            }
            let value = string_of_range(s, n + 1, w, false);
            out.push(Param { name, value });
            proof {
                assert(params_view(out@) =~= before.push(out@.last()@));
                match spec_params(s@, w as int) {
                    Ok(rest) => {
                        assert(before + (seq![out@.last()@] + rest) =~= params_view(out@) + rest);
                    },
                    Err(x) => {},
                }
            }
            i = w;
        }
    }
}

/// Parses a media type from its characters.
pub fn parse_chars(s: &Vec<char>) -> (r: Result<MediaType, ParseError>)
    ensures
        match r {
            Ok(m) => spec_parse(s@) == Ok::<MediaTypeView, ParseError>(m@),
            Err(x) => spec_parse(s@) == Err::<MediaTypeView, ParseError>(x),
        },
{
    let t = crate::grammar::scan_token(s, 0);
    if t >= s.len() {
        if s.len() == 0 {
            return Err(ParseError::UnexpectedEnd);
        } else {
            return Err(ParseError::MissingSlash);
        }
    }
    if s[t] != '/' {
        return Err(invalid_at_exec(s, t));
    }
    if t == 0 {
        return Err(invalid_at_exec(s, 0));
    }
    let u = crate::grammar::scan_token(s, t + 1);
    if u == t + 1 {
        if u >= s.len() {
            return Err(ParseError::UnexpectedEnd);
        } else {
            return Err(invalid_at_exec(s, u));
        }
    }
    let params = match parse_params(s, u) {
        Ok(ps) => ps,
        Err(x) => {
            return Err(x);
        },
    };
    let ty = string_of_range(s, 0, t, true);
    let subtype = string_of_range(s, t + 1, u, true);
    Ok(MediaType { ty, subtype, params })
}

/// Index of the last `+` in `s`, or -1 when there is none.
pub open spec fn last_plus(s: Seq<char>) -> int
    decreases s.len(),
{
    if s.len() == 0 {
        -1
    } else if s.last() == '+' {
        s.len() - 1
    } else {
        last_plus(s.drop_last())
    }
}

/// The structured-syntax suffix of a subtype (RFC 6839): what follows its
/// last `+`, if it has one.
pub open spec fn spec_suffix(subtype: Seq<char>) -> Option<Seq<char>> {
    let p = last_plus(subtype);
    if p < 0 {
        None
    } else {
        Some(subtype.subrange(p + 1, subtype.len() as int))
    }
}

/// The value of the first parameter named `name`.
pub open spec fn lookup(ps: Seq<(Seq<char>, Seq<char>)>, name: Seq<char>) -> Option<Seq<char>>
    decreases ps.len(),
{
    if ps.len() == 0 {
        None
    } else if ps[0].0 == name {
        Some(ps[0].1)
    } else {
        lookup(ps.drop_first(), name)
    }
}

/// Every parameter of `a`, each occurrence of a repeated name included, is
/// what looking its name up in `b` gives.
pub open spec fn params_found_in(
    a: Seq<(Seq<char>, Seq<char>)>,
    b: Seq<(Seq<char>, Seq<char>)>,
) -> bool {
    forall|i: int| 0 <= i < a.len() ==> lookup(b, (#[trigger] a[i]).0) == Some(a[i].1)
}

/// Two media types are the same when they have the same type and subtype
/// and every parameter of each, repeated names included, is found with its
/// value by looking its name up in the other.
pub open spec fn same_media_type(a: MediaTypeView, b: MediaTypeView) -> bool {
    &&& a.ty == b.ty
    &&& a.subtype == b.subtype
    &&& params_found_in(a.params, b.params)
    &&& params_found_in(b.params, a.params)
}

pub open spec fn view_str_option(o: Option<&str>) -> Option<Seq<char>> {
    match o {
        Some(s) => Some(s@),
        None => None,
    }
}

/// Index of the first parameter of `ps` whose name is `key`.
fn find_param(ps: &Vec<Param>, key: &String) -> (r: Option<usize>)
    ensures
        match r {
            Some(j) => j < ps.len() && lookup(params_view(ps@), key@) == Some(ps@[j as int]@.1),
            None => lookup(params_view(ps@), key@) == None::<Seq<char>>,
        },
{
    let mut i: usize = 0;
    assert(params_view(ps@).subrange(0, ps@.len() as int) =~= params_view(ps@));
    while i < ps.len()
        invariant
            i <= ps.len(),
            lookup(params_view(ps@), key@) == lookup(
                params_view(ps@).subrange(i as int, ps@.len() as int),
                key@,
            ),
        decreases ps.len() - i,
    {
        let ghost rest = params_view(ps@).subrange(i as int, ps@.len() as int);
        assert(rest[0] == ps@[i as int]@);
        if ps[i].name == *key {
            return Some(i);
        }
        assert(rest.drop_first() =~= params_view(ps@).subrange(i + 1, ps@.len() as int));
        i = i + 1;
    }
    None
}

/// Whether every parameter of `a` is what looking its name up in `b` gives.
fn names_agree(a: &Vec<Param>, b: &Vec<Param>) -> (r: bool)
    ensures
        r == params_found_in(params_view(a@), params_view(b@)),
{
    let ghost pa = params_view(a@);
    let mut i: usize = 0;
    while i < a.len()
        invariant
            i <= a.len(),
            pa == params_view(a@),
            forall|k: int| 0 <= k < i ==> lookup(params_view(b@), (#[trigger] pa[k]).0) == Some(pa[k].1),
        decreases a.len() - i,
    {
        assert(pa[i as int] == a@[i as int]@);
        let found = match find_param(b, &a[i].name) {
            Some(y) => b[y].value == a[i].value,
            None => false,
        };
        if !found {
            return false;
        }
        i = i + 1;
    }
    true
}

impl MediaType {
    /// Parses a media type such as `text/html; charset=utf-8`.
    pub fn parse(s: &str) -> (r: Result<MediaType, ParseError>)
        ensures
            match r {
                Ok(m) => spec_parse(s@) == Ok::<MediaTypeView, ParseError>(m@),
                Err(x) => spec_parse(s@) == Err::<MediaTypeView, ParseError>(x),
            },
    {
        let chars = crate::text::chars_of(s);
        parse_chars(&chars)
    }

    /// The top-level type, lowercased (`text` in `text/plain`).
    pub fn type_(&self) -> (r: &str)
        ensures
            r@ == self@.ty,
    {
        self.ty.as_str()
    }

    /// The subtype, lowercased, with its `+suffix` if it has one
    /// (`xhtml+xml` in `application/xhtml+xml`).
    pub fn subtype(&self) -> (r: &str)
        ensures
            r@ == self@.subtype,
    {
        self.subtype.as_str()
    }

    /// The part of the subtype after its last `+` (`xml` in
    /// `application/xhtml+xml`), if there is a `+`.
    pub fn suffix(&self) -> (r: Option<&str>)
        ensures
            view_str_option(r) == spec_suffix(self@.subtype),
    {
        let chars = crate::text::chars_of(self.subtype.as_str());
        let mut i = chars.len();
        assert(chars@.subrange(0, i as int) =~= chars@);
        while i > 0 && chars[i - 1] != '+'
            invariant
                i <= chars.len(),
                chars@ == self@.subtype,
                last_plus(chars@) == last_plus(chars@.subrange(0, i as int)),
            decreases i,
        {
            assert(chars@.subrange(0, i as int).drop_last() =~= chars@.subrange(0, i - 1));
            i = i - 1;
        }
        if i == 0 {
            assert(chars@.subrange(0, 0) =~= Seq::<char>::empty());
            None
        } else {
            Some(self.subtype.as_str().substring_char(i, chars.len()))
        }
    }

    /// Whether the media type has at least one parameter.
    pub fn has_params(&self) -> (r: bool)
        ensures
            r == (self@.params.len() > 0),
    {
        self.params.len() > 0
    }

    /// The value of the first parameter named `name` (compared without
    /// regard to ASCII case), with any quotes and escapes removed.
    pub fn param(&self, name: &str) -> (r: Option<&str>)
        ensures
            view_str_option(r) == lookup(self@.params, lower_seq(name@)),
    {
        let chars = crate::text::chars_of(name);
        let key = string_of_range(&chars, 0, chars.len(), true);
        assert(chars@.subrange(0, chars@.len() as int) =~= chars@);
        match find_param(&self.params, &key) {
            Some(j) => Some(self.params[j].value.as_str()),
            None => None,
        }
    }
}

/// Whether `a` and `b` are the same media type (see `same_media_type`).
pub fn media_type_eq(a: &MediaType, b: &MediaType) -> (r: bool)
    ensures
        r == same_media_type(a@, b@),
{
    a.ty == b.ty && a.subtype == b.subtype && names_agree(&a.params, &b.params) && names_agree(
        &b.params,
        &a.params,
    )
}

impl PartialEq for MediaType {
    fn eq(&self, other: &Self) -> (r: bool) {
        media_type_eq(self, other)
    }
}

impl vstd::std_specs::cmp::PartialEqSpecImpl for MediaType {
    open spec fn obeys_eq_spec() -> bool {
        true
    }

    open spec fn eq_spec(&self, other: &Self) -> bool {
        same_media_type(self@, other@)
    }
}

} // verus!
