//! Scenarios of the runner's decisions and of its JSON report.

use mime::etna::PropertyResult;
use mime::runner::{
    all_properties, canonical_ows_before_semicolon, canonical_quoted_vs_unquoted,
    canonical_strip_empty_params, canonical_subtype_with_plus, check_property,
    hegel_failure, json_line, json_str, run_all, strip_prefix, to_err, to_opt, Metrics,
};
use mime::runner::{crabcheck_status, CrabcheckStatus};
use mime::text::decimal_string;

#[test]
fn to_opt_maps_each_result() {
    assert_eq!(to_opt(PropertyResult::Pass), Some(true));
    assert_eq!(to_opt(PropertyResult::Fail("x".to_string())), Some(false));
    assert_eq!(to_opt(PropertyResult::Discard), None);
}

#[test]
fn to_err_maps_each_result() {
    assert_eq!(to_err(PropertyResult::Pass), Ok(()));
    assert_eq!(to_err(PropertyResult::Discard), Ok(()));
    assert_eq!(to_err(PropertyResult::Fail("bad".to_string())), Err("bad".to_string()));
}

#[test]
fn metrics_combine_adds() {
    let a = Metrics { inputs: 3, elapsed_us: 10 };
    let b = Metrics { inputs: 4, elapsed_us: 5 };
    let c = a.combine(b);
    assert_eq!((c.inputs, c.elapsed_us), (7, 15));
    let d = Metrics::default();
    assert_eq!((d.inputs, d.elapsed_us), (0, 0));
}

#[test]
fn run_all_keeps_first_failure_and_sums() {
    let m = |i: u64| Metrics { inputs: i, elapsed_us: i as u128 * 2 };
    let (status, total) = run_all(vec![
        (Ok(()), m(1)),
        (Err("first".to_string()), m(2)),
        (Err("second".to_string()), m(3)),
        (Ok(()), m(4)),
    ]);
    assert_eq!(status, Err("first".to_string()));
    assert_eq!((total.inputs, total.elapsed_us), (10, 20));
    let (status, total) = run_all(vec![]);
    assert_eq!(status, Ok(()));
    assert_eq!(total.inputs, 0);
}

#[test]
fn canonical_inputs_and_replay() {
    assert_eq!(canonical_subtype_with_plus(), (0, 7, 0));
    assert_eq!(canonical_strip_empty_params(), (0, 5, 0));
    assert_eq!(canonical_ows_before_semicolon(), (0, 0, 0, 4));
    assert_eq!(canonical_quoted_vs_unquoted(), (0, 0, 3, 0));
    for p in all_properties() {
        assert_eq!(check_property(p), Ok(()));
    }
    assert_eq!(
        check_property("Nope"),
        Err("Unknown property for etna: Nope".to_string())
    );
}

#[test]
fn json_str_escapes() {
    assert_eq!(json_str("plain"), "\"plain\"");
    assert_eq!(json_str("a\"b\\c"), "\"a\\\"b\\\\c\"");
    assert_eq!(json_str("\n\r\t"), "\"\\n\\r\\t\"");
    assert_eq!(json_str("\u{1}\u{1f}"), "\"\\u0001\\u001f\"");
    assert_eq!(json_str("é"), "\"é\"");
}

#[test]
fn decimal_digits() {
    assert_eq!(decimal_string(0), "0");
    assert_eq!(decimal_string(7), "7");
    assert_eq!(decimal_string(10), "10");
    assert_eq!(decimal_string(1234567890), "1234567890");
    assert_eq!(decimal_string(u128::MAX), u128::MAX.to_string());
}

#[test]
fn json_report_line() {
    let line = json_line(
        "etna",
        "All",
        "failed",
        Metrics { inputs: 4, elapsed_us: 17 },
        Some("(0 7 0)"),
        None,
    );
    assert_eq!(
        line,
        "{\"status\":\"failed\",\"tests\":4,\"discards\":0,\"time\":\"17us\",\"counterexample\":\"(0 7 0)\",\"error\":null,\"tool\":\"etna\",\"property\":\"All\"}"
    );
}

#[test]
fn prefixes_and_hegel_messages() {
    assert_eq!(strip_prefix("abc", "ab"), Some("c".to_string()));
    assert_eq!(strip_prefix("abc", "b"), None);
    assert_eq!(strip_prefix("a", "abc"), None);
    assert_eq!(
        hegel_failure("__unknown_property:Foo"),
        (true, "Unknown property for hegel: Foo".to_string())
    );
    assert_eq!(
        hegel_failure("Property test failed: (t_idx=1)"),
        (false, "(t_idx=1)".to_string())
    );
    assert_eq!(hegel_failure("boom"), (false, "boom".to_string()));
}

#[test]
fn crabcheck_status_messages() {
    assert_eq!(crabcheck_status(CrabcheckStatus::Finished), Ok(()));
    assert_eq!(
        crabcheck_status(CrabcheckStatus::Failed { counterexample: "(1, 2, 3)".to_string() }),
        Err("(1, 2, 3)".to_string())
    );
    assert_eq!(
        crabcheck_status(CrabcheckStatus::TimedOut),
        Err("crabcheck timed out".to_string())
    );
    assert_eq!(
        crabcheck_status(CrabcheckStatus::GaveUp { passed: 12, discarded: 300 }),
        Err("crabcheck gave up: passed=12, discarded=300".to_string())
    );
    assert_eq!(
        crabcheck_status(CrabcheckStatus::Aborted { error: "boom".to_string() }),
        Err("crabcheck aborted: boom".to_string())
    );
}

#[test]
fn json_str_has_no_control_characters() {
    let input: String = (0u32..0x80).filter_map(char::from_u32).collect();
    let out = json_str(&input);
    assert!(out.starts_with('"') && out.ends_with('"'));
    assert!(out.chars().all(|c| (c as u32) >= 0x20));
}
