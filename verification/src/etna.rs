//! The properties that the media type parser is checked against, each a
//! function of a few small indices that pick valid pieces from fixed pools.

use vstd::prelude::*;

use crate::laws::{
    essence_text, is_lower_token, law_empty_params_stripped, law_one_param, law_same_reflexive,
    law_subtype_keeps_suffix, lemma_lower_token_lowered, one_param_text,
};
use crate::media_type::MediaType;
use crate::text::{debug_form, debug_text, push_char, same_text};

verus! {

/// The outcome of checking one property on one input.
#[derive(Debug)]
pub enum PropertyResult {
    Pass,
    Fail(String),
    Discard,
}

/// Every entry of a pool is a lowercase token.
pub open spec fn valid_pool(pool: Seq<&str>) -> bool {
    pool.len() > 0 && forall|k: int| 0 <= k < pool.len() ==> is_lower_token(#[trigger] pool[k]@)
}

fn types() -> (r: [&'static str; 6])
    ensures
        valid_pool(r@),
{
    proof {
        reveal_strlit("text");
        reveal_strlit("application");
        reveal_strlit("image");
        reveal_strlit("audio");
        reveal_strlit("video");
        reveal_strlit("multipart");
    }
    let r = ["text", "application", "image", "audio", "video", "multipart"];
    assert(r@[0] == "text");
    assert(r@[1] == "application");
    assert(r@[2] == "image");
    assert(r@[3] == "audio");
    assert(r@[4] == "video");
    assert(r@[5] == "multipart");
    r
}

/// The entry of `pool` that index `i` picks, wrapping around.
fn pick<'a>(pool: &[&'a str], i: u8) -> (r: &'a str)
    requires
        pool@.len() > 0,
    ensures
        r == pool@[(i as int) % (pool@.len() as int)],
{
    pool[(i as usize) % pool.len()]
}

fn subtypes() -> (r: [&'static str; 8])
    ensures
        valid_pool(r@),
{
    proof {
        reveal_strlit("plain");
        reveal_strlit("html");
        reveal_strlit("json");
        reveal_strlit("css");
        reveal_strlit("javascript");
        reveal_strlit("event-stream");
        reveal_strlit("form-data");
        reveal_strlit("xhtml");
    }
    let r = ["plain", "html", "json", "css", "javascript", "event-stream", "form-data", "xhtml"];
    assert(r@[0] == "plain");
    assert(r@[1] == "html");
    assert(r@[2] == "json");
    assert(r@[3] == "css");
    assert(r@[4] == "javascript");
    assert(r@[5] == "event-stream");
    assert(r@[6] == "form-data");
    assert(r@[7] == "xhtml");
    r
}

/// No entry of a pool holds a `+`.
pub open spec fn plus_free_pool(pool: Seq<&str>) -> bool {
    forall|k: int, i: int| 0 <= k < pool.len() && 0 <= i < pool[k]@.len() ==> #[trigger] pool[k]@[i] != '+'
}

fn suffixes() -> (r: [&'static str; 4])
    ensures
        valid_pool(r@),
        plus_free_pool(r@),
{
    proof {
        reveal_strlit("xml");
        reveal_strlit("json");
        reveal_strlit("cbor");
        reveal_strlit("zip");
    }
    let r = ["xml", "json", "cbor", "zip"];
    assert(r@[0] == "xml");
    assert(r@[1] == "json");
    assert(r@[2] == "cbor");
    assert(r@[3] == "zip");
    r
}

fn param_names() -> (r: [&'static str; 4])
    ensures
        valid_pool(r@),
{
    proof {
        reveal_strlit("charset");
        reveal_strlit("boundary");
        reveal_strlit("profile");
        reveal_strlit("name");
    }
    let r = ["charset", "boundary", "profile", "name"];
    assert(r@[0] == "charset");
    assert(r@[1] == "boundary");
    assert(r@[2] == "profile");
    assert(r@[3] == "name");
    r
}

fn param_values() -> (r: [&'static str; 6])
    ensures
        valid_pool(r@),
{
    proof {
        reveal_strlit("foo");
        reveal_strlit("bar");
        reveal_strlit("abc123");
        reveal_strlit("hello");
        reveal_strlit("utf-8");
        reveal_strlit("test");
    }
    let r = ["foo", "bar", "abc123", "hello", "utf-8", "test"];
    assert(r@[0] == "foo");
    assert(r@[1] == "bar");
    assert(r@[2] == "abc123");
    assert(r@[3] == "hello");
    assert(r@[4] == "utf-8");
    assert(r@[5] == "test");
    r
}

/// The entry of `pool` that index `i` picks, wrapping around.
fn pick_valid<'a>(pool: &[&'a str], i: u8) -> (r: &'a str)
    requires
        valid_pool(pool@),
    ensures
        r == pool@[(i as int) % (pool@.len() as int)],
        is_lower_token(r@),
{
    let r = pick(pool, i);
    assert(is_lower_token(pool@[(i as int) % (pool@.len() as int)]@));
    r
}

/// `a` followed by `b`, as a new string.
fn concat(a: &str, b: &str) -> (r: String)
    ensures
        r@ == a@ + b@,
{
    let mut r = String::from_str(a);
    r.append(b);
    r
}

/// `{:?}` of an optional string: `Some("..")` or `None`.
fn debug_option(o: Option<&str>) -> (r: String)
    ensures
        r@ == match o {
            Some(v) => "Some("@ + debug_form(v@) + ")"@,
            None => "None"@,
        },
{
    match o {
        Some(v) => {
            let mut r = String::from_str("Some(");
            r.append(debug_text(v).as_str());
            r.append(")");
            r
        },
        None => String::from_str("None"),
    }
}

/// The subtype of `type/name+suffix` is all of `name+suffix`, and its
/// suffix is `suffix`.
///
/// The indices pick the type, subtype and suffix from fixed pools of valid
/// tokens, so the parse always succeeds; by `law_subtype_keeps_suffix` the
/// property holds for every choice.
pub fn property_subtype_with_plus(t_idx: u8, s_idx: u8, suf_idx: u8) -> (r: PropertyResult)
    ensures
        r == PropertyResult::Pass,
{
    let types = types();
    let subtypes = subtypes();
    let suffixes = suffixes();
    let t = pick_valid(types.as_slice(), t_idx);
    let s = pick_valid(subtypes.as_slice(), s_idx);
    let suf = pick_valid(suffixes.as_slice(), suf_idx);
    let mut input = concat(t, "/");
    input.append(s);
    input.append("+");
    input.append(suf);
    proof {
        reveal_strlit("/");
        reveal_strlit("+");
        let k = (suf_idx as int) % 4;
        assert(suf@ == suffixes@[k]@);
        assert forall|i: int| 0 <= i < suf@.len() implies #[trigger] suf@[i] != '+' by {
            assert(suffixes@[k]@[i] != '+');
        }
        law_subtype_keeps_suffix(t@, s@, suf@);
        assert(input@ =~= essence_text(t@, s@ + seq!['+'] + suf@));
        lemma_lower_token_lowered(s@);
        lemma_lower_token_lowered(suf@);
    }
    let mt = match MediaType::parse(input.as_str()) {
        Ok(m) => m,
        Err(_) => {
            return PropertyResult::Discard;
        },
    };
    let mut expected_subtype = concat(s, "+");
    expected_subtype.append(suf);
    let got_subtype = mt.subtype();
    assert(expected_subtype@ == s@ + seq!['+'] + suf@);
    assert(got_subtype@ == s@ + seq!['+'] + suf@);
    if !same_text(got_subtype, expected_subtype.as_str()) {
        let mut m = String::from_str("subtype(");
        m.append(debug_text(input.as_str()).as_str());
        m.append(") = ");
        m.append(debug_text(got_subtype).as_str());
        m.append(", expected ");
        m.append(debug_text(expected_subtype.as_str()).as_str());
        return PropertyResult::Fail(m);
    }
    let got_suffix = mt.suffix();
    let suffix_ok = match got_suffix {
        Some(g) => same_text(g, suf),
        None => false,
    };
    if !suffix_ok {
        let mut m = String::from_str("suffix(");
        m.append(debug_text(input.as_str()).as_str());
        m.append(") = ");
        m.append(debug_option(got_suffix).as_str());
        m.append(", expected Some(");
        m.append(debug_text(suf).as_str());
        m.append(")");
        return PropertyResult::Fail(m);
    }
    PropertyResult::Pass
}

/// A `;` followed only by whitespace is an empty parameter list: it is
/// dropped, so `type/subtype;` and `type/subtype; ` parse to a media type
/// with no parameters, subtype `subtype`, equal to `type/subtype`.
///
/// `ws_count % 5` spaces follow the `;`. By `law_empty_params_stripped` the
/// property holds for every choice.
pub fn property_strip_empty_params(t_idx: u8, s_idx: u8, ws_count: u8) -> (r: PropertyResult)
    ensures
        r == PropertyResult::Pass,
{
    let types = types();
    let subtypes = subtypes();
    let t = pick_valid(types.as_slice(), t_idx);
    let s = pick_valid(subtypes.as_slice(), s_idx);
    let ws = (ws_count % 5) as usize;
    let mut with_semi = concat(t, "/");
    with_semi.append(s);
    with_semi.append(";");
    let ghost base = with_semi@;
    let mut k: usize = 0;
    while k < ws
        invariant
            k <= ws,
            with_semi@ == base + Seq::new(k as nat, |_i: int| ' '),
        decreases ws - k,
    {
        push_char(&mut with_semi, ' ');
        assert(base + Seq::new((k + 1) as nat, |_i: int| ' ') =~= (base + Seq::new(
            k as nat,
            |_i: int| ' ',
        )).push(' '));
        k = k + 1;
    }
    let without_semi = concat(t, "/");
    let mut without_semi = without_semi;
    without_semi.append(s);
    proof {
        reveal_strlit("/");
        reveal_strlit(";");
        let spaces = Seq::new(ws as nat, |_i: int| ' ');
        let empty = Seq::<char>::empty();
        law_empty_params_stripped(t@, s@, empty, spaces);
        assert(with_semi@ =~= essence_text(t@, s@) + empty + seq![';'] + spaces);
        assert(without_semi@ =~= essence_text(t@, s@));
        lemma_lower_token_lowered(s@);
    }
    let mt_with = match MediaType::parse(with_semi.as_str()) {
        Ok(m) => m,
        Err(e) => {
            let mut m = String::from_str("parse(");
            m.append(debug_text(with_semi.as_str()).as_str());
            m.append(") failed: ");
            m.append(e.describe().as_str());
            return PropertyResult::Fail(m);
        },
    };
    let mt_without = match MediaType::parse(without_semi.as_str()) {
        Ok(m) => m,
        Err(_) => {
            return PropertyResult::Discard;
        },
    };
    if mt_with.has_params() {
        let mut m = String::from_str("parse(");
        m.append(debug_text(with_semi.as_str()).as_str());
        m.append(").has_params() = true, expected false");
        return PropertyResult::Fail(m);
    }
    if !same_text(mt_with.subtype(), s) {
        let mut m = String::from_str("parse(");
        m.append(debug_text(with_semi.as_str()).as_str());
        m.append(").subtype() = ");
        m.append(debug_text(mt_with.subtype()).as_str());
        m.append(", expected ");
        m.append(debug_text(s).as_str());
        return PropertyResult::Fail(m);
    }
    proof {
        law_same_reflexive(mt_with@);
    }
    if mt_with != mt_without {
        let mut m = String::from_str("parse(");
        m.append(debug_text(with_semi.as_str()).as_str());
        m.append(") != parse(");
        m.append(debug_text(without_semi.as_str()).as_str());
        m.append(")");
        return PropertyResult::Fail(m);
    }
    PropertyResult::Pass
}

/// Optional whitespace between the subtype and the `;` is accepted:
/// `type/subtype ;name=value` parses to the same media type as
/// `type/subtype;name=value`, whose parameter `name` is `value`.
///
/// By `law_one_param` the property holds for every choice.
#[verifier::rlimit(40)]
pub fn property_ows_before_semicolon(t_idx: u8, s_idx: u8, p_idx: u8, v_idx: u8) -> (r:
    PropertyResult)
    ensures
        r == PropertyResult::Pass,
{
    let types = types();
    let subtypes = subtypes();
    let names = param_names();
    let values = param_values();
    let t = pick_valid(types.as_slice(), t_idx);
    let s = pick_valid(subtypes.as_slice(), s_idx);
    let p = pick_valid(names.as_slice(), p_idx);
    let v = pick_valid(values.as_slice(), v_idx);
    let mut no_ws = concat(t, "/");
    no_ws.append(s);
    no_ws.append(";");
    no_ws.append(p);
    no_ws.append("=");
    no_ws.append(v);
    let mut with_ws = concat(t, "/");
    with_ws.append(s);
    with_ws.append(" ;");
    with_ws.append(p);
    with_ws.append("=");
    with_ws.append(v);
    proof {
        reveal_strlit("/");
        reveal_strlit(";");
        reveal_strlit(" ;");
        reveal_strlit("=");
        let empty = Seq::<char>::empty();
        law_one_param(t@, s@, empty, empty, p@, v@, false);
        law_one_param(t@, s@, seq![' '], empty, p@, v@, false);
        assert(no_ws@ =~= one_param_text(t@, s@, empty, empty, p@, v@, false));
        assert(with_ws@ =~= one_param_text(t@, s@, seq![' '], empty, p@, v@, false));
        lemma_lower_token_lowered(p@);
    }
    let mt_no = match MediaType::parse(no_ws.as_str()) {
        Ok(m) => m,
        Err(_) => {
            return PropertyResult::Discard;
        },
    };
    let mt_ws = match MediaType::parse(with_ws.as_str()) {
        Ok(m) => m,
        Err(e) => {
            let mut m = String::from_str("parse(");
            m.append(debug_text(with_ws.as_str()).as_str());
            m.append(") failed: ");
            m.append(e.describe().as_str());
            return PropertyResult::Fail(m);
        },
    };
    proof {
        law_same_reflexive(mt_ws@);
    }
    if mt_ws != mt_no {
        let mut m = String::from_str("parse(");
        m.append(debug_text(with_ws.as_str()).as_str());
        m.append(") != parse(");
        m.append(debug_text(no_ws.as_str()).as_str());
        m.append(")");
        return PropertyResult::Fail(m);
    }
    let got = mt_ws.param(p);
    let value_ok = match got {
        Some(x) => same_text(x, v),
        None => false,
    };
    if !value_ok {
        let mut m = String::from_str("parse(");
        m.append(debug_text(with_ws.as_str()).as_str());
        m.append(").param(");
        m.append(debug_text(p).as_str());
        m.append(") = ");
        m.append(debug_option(got).as_str());
        m.append(", expected Some(");
        m.append(debug_text(v).as_str());
        m.append(")");
        return PropertyResult::Fail(m);
    }
    PropertyResult::Pass
}

/// A quoted and an unquoted parameter value with the same content are the
/// same: `type/subtype; name=value` equals `type/subtype; name="value"`.
///
/// By `law_one_param` the property holds for every choice.
#[verifier::rlimit(40)]
pub fn property_quoted_vs_unquoted_param_eq(t_idx: u8, s_idx: u8, p_idx: u8, v_idx: u8) -> (r:
    PropertyResult)
    ensures
        r == PropertyResult::Pass,
{
    let types = types();
    let subtypes = subtypes();
    let names = param_names();
    let values = param_values();
    let t = pick_valid(types.as_slice(), t_idx);
    let s = pick_valid(subtypes.as_slice(), s_idx);
    let p = pick_valid(names.as_slice(), p_idx);
    let v = pick_valid(values.as_slice(), v_idx);
    let mut unquoted = concat(t, "/");
    unquoted.append(s);
    unquoted.append("; ");
    unquoted.append(p);
    unquoted.append("=");
    unquoted.append(v);
    let mut quoted = concat(t, "/");
    quoted.append(s);
    quoted.append("; ");
    quoted.append(p);
    quoted.append("=\"");
    quoted.append(v);
    quoted.append("\"");
    proof {
        reveal_strlit("/");
        reveal_strlit("; ");
        reveal_strlit("=");
        reveal_strlit("=\"");
        reveal_strlit("\"");
        let empty = Seq::<char>::empty();
        law_one_param(t@, s@, empty, seq![' '], p@, v@, false);
        law_one_param(t@, s@, empty, seq![' '], p@, v@, true);
        assert(unquoted@ =~= one_param_text(t@, s@, empty, seq![' '], p@, v@, false));
        assert(quoted@ =~= one_param_text(t@, s@, empty, seq![' '], p@, v@, true));
    }
    let mt_u = match MediaType::parse(unquoted.as_str()) {
        Ok(m) => m,
        Err(_) => {
            return PropertyResult::Discard;
        },
    };
    let mt_q = match MediaType::parse(quoted.as_str()) {
        Ok(m) => m,
        Err(e) => {
            let mut m = String::from_str("parse(");
            m.append(debug_text(quoted.as_str()).as_str());
            m.append(") failed: ");
            m.append(e.describe().as_str());
            return PropertyResult::Fail(m);
        },
    };
    proof {
        law_same_reflexive(mt_u@);
    }
    if mt_u != mt_q {
        let mut m = String::from_str("parse(");
        m.append(debug_text(unquoted.as_str()).as_str());
        m.append(") != parse(");
        m.append(debug_text(quoted.as_str()).as_str());
        m.append(")");
        return PropertyResult::Fail(m);
    }
    PropertyResult::Pass
}

} // verus!
