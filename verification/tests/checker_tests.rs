use where_in_pi::arith::int_from;
use where_in_pi::{check_precision_quick, pi_hex, windows_consistent};

#[test]
fn verifier_accepts_correct_extractor() {
    let report = check_precision_quick(0, 50, |d: i64, p: u8| pi_hex(d as u64, p));
    assert!(!report.is_empty());
    for (mid, ok) in &report {
        assert!(*mid >= 2);
        if *mid <= 16 {
            assert!(*ok, "probe at precision {mid} failed");
        }
    }
    // the search moves up after a passing probe, down after a failing one
    for pair in report.windows(2) {
        if pair[0].1 {
            assert!(pair[1].0 > pair[0].0);
        } else {
            assert!(pair[1].0 < pair[0].0);
        }
    }
}

#[test]
fn verifier_rejects_broken_extractor() {
    // an extractor that ignores the precision and returns the position
    let report = check_precision_quick(0, 40, |d: i64, _p: u8| int_from(d + 7));
    assert!(report.iter().any(|(_, ok)| !*ok));
}

#[test]
fn consistent_windows() {
    // with three nibbles per window, adjacent windows share two nibbles
    let vals = vec![int_from(0x1BC), int_from(0xBC4), int_from(0xC45)];
    assert!(windows_consistent(&vals, 3));
}

#[test]
fn inconsistent_windows() {
    let vals = vec![int_from(0x1BC), int_from(0xBC4), int_from(0x999)];
    assert!(!windows_consistent(&vals, 3));
}

#[test]
fn empty_windows_are_consistent() {
    let vals: Vec<where_in_pi::arith::BigInt> = Vec::new();
    assert!(windows_consistent(&vals, 5));
    let one = vec![int_from(42)];
    assert!(windows_consistent(&one, 5));
}
