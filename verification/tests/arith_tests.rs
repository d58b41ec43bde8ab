use where_in_pi::arith::{
    int_add, int_div, int_eq, int_eq_i64, int_from, int_keep_bits, int_mul, int_pow, int_shl,
    int_shr, int_to_decimal,
};

#[test]
fn integer_basics() {
    let a = int_from(41);
    let b = int_add(&a, &int_from(1));
    assert!(int_eq_i64(&b, 42));
    assert!(int_eq(&int_mul(&b, &b), &int_from(1764)));
    assert!(int_eq_i64(&int_add(&a, &int_from(-43)), -2));
    assert_eq!(int_to_decimal(&int_from(-5)), "-5");
}

#[test]
fn division_truncates_toward_zero() {
    assert!(int_eq_i64(&int_div(&int_from(-5), &int_from(2)), -2));
    assert!(int_eq_i64(&int_div(&int_from(5), &int_from(-2)), -2));
    assert!(int_eq_i64(&int_div(&int_from(5), &int_from(2)), 2));
}

#[test]
fn shift_right_floors() {
    assert!(int_eq_i64(&int_shr(&int_from(-5), 1), -3));
    assert!(int_eq_i64(&int_shr(&int_from(5), 1), 2));
    assert!(int_eq_i64(&int_shl(&int_from(3), 4), 48));
}

#[test]
fn keep_bits_is_modulus() {
    assert!(int_eq_i64(&int_keep_bits(&int_from(-1), 8), 255));
    assert!(int_eq_i64(&int_keep_bits(&int_from(0x1BC), 8), 0xBC));
}

#[test]
fn integer_power() {
    assert!(int_eq_i64(&int_pow(&int_from(10), 6), 1_000_000));
    assert!(int_eq_i64(&int_pow(&int_from(2), 0), 1));
}
