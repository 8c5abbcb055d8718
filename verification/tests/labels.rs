use falcon::decimal::{push_decimal, push_digit};
use falcon::labels::{format_elapsed, format_node, format_usage, mark_node};

#[test]
fn numerals() {
    let mut out = String::from("n=");
    push_decimal(&mut out, 0);
    push_digit(&mut out, 9);
    push_decimal(&mut out, u64::MAX);
    assert_eq!(out, "n=0918446744073709551615");
    for d in 0..10u64 {
        let mut digit = String::new();
        push_digit(&mut digit, d);
        assert_eq!(digit, d.to_string());
    }
}

#[test]
fn elapsed_times() {
    assert_eq!(format_elapsed(0), "0s");
    assert_eq!(format_elapsed(59), "59s");
    assert_eq!(format_elapsed(60), "1m 0s");
    assert_eq!(format_elapsed(61), "1m 1s");
    assert_eq!(format_elapsed(3725), "62m 5s");
}

#[test]
fn usage() {
    let percent = format!("{:.2}", (4096.0_f64 - 1024.0) / 4096.0 * 100.0);
    assert_eq!(format_usage(1024, 4096, &percent), "1.00 KB free of 4.00 KB (75.00% used)");
    assert_eq!(format_usage(0, 0, "NaN"), "0 B free of 0 B (NaN% used)");
}

#[test]
fn entries() {
    assert_eq!(format_node(true, "docs", 2048, false), "📁 docs   2.00 KB");
    assert_eq!(format_node(true, "docs", 0, true), "📁 docs   ...");
    assert_eq!(format_node(false, "a b", 12, false), "📄 a b   12 B");
}

#[test]
fn marks() {
    assert_eq!(mark_node(true, true), '▼');
    assert_eq!(mark_node(true, false), '▶');
    assert_eq!(mark_node(false, true), ' ');
    assert_eq!(mark_node(false, false), ' ');
}
