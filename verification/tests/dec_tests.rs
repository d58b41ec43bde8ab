use std::sync::Arc;

use where_in_pi::arith::{int_add, int_eq_i64, int_from, int_mul, int_pow, int_shr, int_to_decimal};
use where_in_pi::dec::{
    binary_split, chudnovsky_float, chudnovsky_integer, clone_pqr, context_new, pack_split,
    pqr_eq, split_context, split_empty, split_indexed, split_v2, Context, VContext,
};

#[test]
fn base_case() {
    let (p, q, r) = binary_split(1, 2);
    assert!(int_eq_i64(&p, -5));
    assert!(int_eq_i64(&q, 10_939_058_860_032_000));
    assert!(int_eq_i64(&r, -2_793_657_715));
}

#[test]
fn split_point_independence() {
    let whole = binary_split(1, 9);
    for m in 2..9 {
        let left = binary_split(1, m);
        let right = binary_split(m, 9);
        let p = int_mul(&left.0, &right.0);
        let q = int_mul(&left.1, &right.1);
        let r = int_add(&int_mul(&right.1, &left.2), &int_mul(&left.0, &right.2));
        assert!(pqr_eq(&whole, &(p, q, r)));
    }
}

#[test]
fn dec_context() {
    let mut context = context_new();
    for n in 3..=100 {
        let control = binary_split(1, n);
        let test = split_context(1, n, &mut context);
        assert!(pqr_eq(&control, &test));
    }
}

#[test]
fn tests_context() {
    let mut context = Context::default();
    for n in 3..=100 {
        let control = binary_split(1, n);
        let test = split_context(1, n, &mut context);
        assert!(pqr_eq(&control, &test));
    }
    // the cache itself can be shared once filled
    let shared = Arc::new(context);
    assert!(shared.contains_key(&(1, 100)));
}

#[test]
fn context_index() {
    let mut context = context_new();
    for n in 3..=100 {
        let control = binary_split(1, n);
        split_indexed(1, n, &mut context);
        let entry = context.get(&(1, n)).unwrap();
        assert!(pqr_eq(&control, entry.value()));
    }
}

#[test]
fn packed_context() {
    let mut context = std::collections::HashMap::new();
    for n in [2u32, 7, 20, 33] {
        let control = binary_split(1, n);
        split_v2(1, n, &mut context);
        let test = context.get(&pack_split(1, n)).unwrap();
        assert!(pqr_eq(&control, test));
    }
}

#[test]
fn indexed_cache_round_trip() {
    let mut c = VContext::default();
    assert!(c.get(2, 5).is_none());
    let t = binary_split(2, 5);
    c.insert(2, 5, clone_pqr(&t));
    let got = c.get(2, 5).unwrap();
    assert!(pqr_eq(&t, got));
    assert!(c.get(1, 5).is_none());
    assert!(c.get(2, 4).is_none());
}

#[test]
fn indexed_cache_idempotent() {
    let mut c = VContext::default();
    let t = binary_split(3, 9);
    c.insert(3, 9, clone_pqr(&t));
    c.insert(3, 9, clone_pqr(&t));
    let got = c.get(3, 9).unwrap();
    assert!(pqr_eq(&t, got));
}

#[test]
fn cache_idempotent() {
    let mut context = context_new();
    let first = split_context(2, 6, &mut context);
    let second = split_context(2, 6, &mut context);
    assert!(pqr_eq(&first, &second));
    let third = binary_split(2, 6);
    assert!(pqr_eq(&first, &third));
}

#[test]
fn cache_hit_changes_nothing() {
    let mut context = context_new();
    split_indexed(1, 8, &mut context);
    let filled = context.len();
    split_indexed(1, 8, &mut context);
    let _ = split_context(1, 8, &mut context);
    assert_eq!(context.len(), filled);
}

#[test]
fn cold_cache_publishes_every_subrange() {
    let mut context = std::collections::HashMap::new();
    split_v2(1, 9, &mut context);
    for (a, b) in split_empty(1, 9) {
        assert!(context.contains_key(&pack_split(a, b)));
    }
    let mut dash = context_new();
    split_indexed(1, 9, &mut dash);
    for (a, b) in split_empty(1, 9) {
        assert!(dash.contains_key(&(a, b)));
    }
}

#[test]
fn split_empty_tree() {
    let splits = split_empty(1, 5);
    let expected = vec![(1, 5), (1, 3), (1, 2), (2, 3), (3, 5), (3, 4), (4, 5)];
    assert_eq!(splits, expected);
}

#[test]
fn integer_pi_digits() {
    let pi = chudnovsky_integer(2);
    let digits = int_to_decimal(&pi);
    assert!(digits.starts_with("31415926535897"));
    // pi scaled by 10^(14*2 + 1): one integer digit and 29 fractional ones
    assert_eq!(digits.len(), 30);
}

#[test]
fn term_counts_agree() {
    // different term counts must agree digit for digit on the shared
    // prefix; each count n is good for at least 14*(n-1) decimal digits
    let short = int_to_decimal(&chudnovsky_integer(3));
    let long = int_to_decimal(&chudnovsky_integer(9));
    assert!(long.starts_with(&short[..28]));
}

#[test]
fn float_pi_digits() {
    let pi = chudnovsky_float(2);
    assert_eq!(pi.exp, 2 * 14 * 4);
    let scaled = int_mul(&pi.mantissa, &int_pow(&int_from(10), 13));
    let digits = int_shr(&scaled, pi.exp);
    assert_eq!(int_to_decimal(&digits), "31415926535897");
}
