use where_in_pi::arith::{int_eq, int_eq_i64, int_from, int_keep_bits, int_shr};
use where_in_pi::{check_overlap, pi_hex, series};

#[test]
fn hex_first_window() {
    // pi = 3.243F6A8885A308D3... in hexadecimal
    let w = pi_hex(0, 8);
    assert!(int_eq_i64(&w, 0x243F6A88));
}

#[test]
fn hex_second_window() {
    let w = pi_hex(1, 8);
    assert!(int_eq_i64(&w, 0x43F6A888));
}

#[test]
fn hex_deep_window() {
    // the window starting at position 8: 85A308D3
    let w = pi_hex(8, 8);
    assert!(int_eq_i64(&w, 0x85A308D3));
}

#[test]
fn hex_stability() {
    // a longer request agrees with a shorter one on the shared nibbles
    for d in [0u64, 3, 10, 50, 100] {
        for p in [8u8, 12, 16, 32, 64] {
            let shorter = pi_hex(d, p);
            let longer = pi_hex(d, p + 1);
            assert!(int_eq(&shorter, &int_shr(&longer, 4)));
        }
    }
}

#[test]
fn hex_overlap_law() {
    // adjacent windows share all but one nibble
    for d in [0u64, 1, 2, 7, 25, 99] {
        for p in [8u8, 16, 40] {
            let here = pi_hex(d, p);
            let next = pi_hex(d + 1, p);
            assert!(check_overlap(&here, &next, p));
            let bits = p as u32 * 4 - 4;
            assert!(int_eq(&int_keep_bits(&here, bits), &int_shr(&next, 4)));
        }
    }
}

#[test]
fn series_in_unit_range() {
    // each sub-series value lies in [0, 2) after the two fract steps
    for j in [1u8, 4, 5, 6] {
        let s = series(3, j, 80);
        assert_eq!(s.exp, 80);
        let top = int_shr(&s.mantissa, 81);
        assert!(int_eq_i64(&top, 0));
    }
}

#[test]
fn series_small_precision() {
    let s = series(0, 1, 8);
    assert_eq!(s.exp, 8);
    let clipped = int_keep_bits(&s.mantissa, 10);
    assert!(int_eq(&s.mantissa, &clipped));
}

#[test]
fn hex_single_nibble() {
    let w = pi_hex(0, 1);
    // the first nibble of pi's hex fraction: 2
    assert!(int_eq_i64(&w, 0x2));
    assert!(int_eq(&w, &int_keep_bits(&w, 4)));
}

#[test]
fn hex_agrees_with_decimal_route() {
    // the two independent algorithms must agree on the bits both get
    // right: the Chudnovsky fixed-point fraction of pi at 112 bits is
    // good for about 46 of them, the digit extractor for all it returns
    let pi = where_in_pi::dec::chudnovsky_float(2);
    assert_eq!(pi.exp, 112);
    let frac = int_keep_bits(&pi.mantissa, 112);
    let top40 = int_shr(&frac, 112 - 40);
    let window = pi_hex(0, 10);
    assert!(int_eq(&top40, &window));
}

#[test]
fn hex_prefix_of_known_expansion() {
    // 16 nibbles of the expansion 243F6A8885A308D3...
    let w = pi_hex(0, 16);
    let lo = int_keep_bits(&w, 32);
    let hi = int_shr(&w, 32);
    assert!(int_eq_i64(&hi, 0x243F6A88));
    assert!(int_eq_i64(&lo, 0x85A308D3));
}
