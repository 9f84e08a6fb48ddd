//! Witness tests: each property called with fixed inputs must pass.

use mime::etna::{
    property_ows_before_semicolon, property_quoted_vs_unquoted_param_eq,
    property_strip_empty_params, property_subtype_with_plus, PropertyResult,
};

fn assert_pass(r: PropertyResult, label: &str) {
    match r {
        PropertyResult::Pass => {}
        PropertyResult::Discard => panic!("witness {}: property returned Discard", label),
        PropertyResult::Fail(m) => panic!("witness {}: property failed: {}", label, m),
    }
}

// "text/xhtml+xml": subtype() must be "xhtml+xml", not "xhtml".

#[test]
fn witness_subtype_with_plus_case_xhtml_xml() {
    // TYPES[0]="text", SUBTYPES[7]="xhtml", SUFFIXES[0]="xml"
    assert_pass(
        property_subtype_with_plus(0, 7, 0),
        "subtype_with_plus_case_xhtml_xml",
    );
}

#[test]
fn witness_subtype_with_plus_case_app_json_cbor() {
    // TYPES[1]="application", SUBTYPES[2]="json", SUFFIXES[2]="cbor"
    assert_pass(
        property_subtype_with_plus(1, 2, 2),
        "subtype_with_plus_case_app_json_cbor",
    );
}

// "text/event-stream;" (and with trailing spaces) must lose its empty
// parameter list.

#[test]
fn witness_strip_empty_params_case_event_stream_semicolon() {
    // TYPES[0]="text", SUBTYPES[5]="event-stream", ws_count=0 -> "text/event-stream;"
    assert_pass(
        property_strip_empty_params(0, 5, 0),
        "strip_empty_params_case_event_stream_semicolon",
    );
}

#[test]
fn witness_strip_empty_params_case_json_trailing_ws() {
    // TYPES[1]="application", SUBTYPES[2]="json", ws_count=3 -> "application/json;   "
    assert_pass(
        property_strip_empty_params(1, 2, 3),
        "strip_empty_params_case_json_trailing_ws",
    );
}

// "text/plain ;charset=utf-8": whitespace before ';' is accepted.

#[test]
fn witness_ows_before_semicolon_case_text_plain_charset() {
    // TYPES[0]="text", SUBTYPES[0]="plain", PNAMES[0]="charset", PVALUES[4]="utf-8"
    assert_pass(
        property_ows_before_semicolon(0, 0, 0, 4),
        "ows_before_semicolon_case_text_plain_charset",
    );
}

#[test]
fn witness_ows_before_semicolon_case_html_name_foo() {
    // TYPES[0]="text", SUBTYPES[1]="html", PNAMES[3]="name", PVALUES[0]="foo"
    assert_pass(
        property_ows_before_semicolon(0, 1, 3, 0),
        "ows_before_semicolon_case_html_name_foo",
    );
}

// "text/plain; x=foo" equals "text/plain; x=\"foo\"".

#[test]
fn witness_quoted_vs_unquoted_param_eq_case_name_foo() {
    // TYPES[0]="text", SUBTYPES[0]="plain", PNAMES[3]="name", PVALUES[0]="foo"
    assert_pass(
        property_quoted_vs_unquoted_param_eq(0, 0, 3, 0),
        "quoted_vs_unquoted_param_eq_case_name_foo",
    );
}

#[test]
fn witness_quoted_vs_unquoted_param_eq_case_profile_bar() {
    // TYPES[1]="application", SUBTYPES[2]="json", PNAMES[2]="profile", PVALUES[1]="bar"
    assert_pass(
        property_quoted_vs_unquoted_param_eq(1, 2, 2, 1),
        "quoted_vs_unquoted_param_eq_case_profile_bar",
    );
}

#[test]
fn every_pool_choice_passes() {
    for a in 0..=255u8 {
        for b in [0u8, 1, 5, 7, 8, 200, 255] {
            assert!(matches!(property_subtype_with_plus(a, b, a.wrapping_mul(3)), PropertyResult::Pass));
            assert!(matches!(property_strip_empty_params(a, b, a), PropertyResult::Pass));
            assert!(matches!(property_ows_before_semicolon(a, b, a, b), PropertyResult::Pass));
            assert!(matches!(property_quoted_vs_unquoted_param_eq(b, a, b, a), PropertyResult::Pass));
        }
    }
}
