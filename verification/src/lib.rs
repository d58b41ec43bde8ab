//! Digits of pi by two independent arbitrary-precision routes: the
//! Chudnovsky binary-splitting series for decimal expansions, and the
//! Bailey-Borwein-Plouffe formula for individual hexadecimal digits,
//! together with a checker that probes how much precision a digit
//! extractor can be trusted for.

use vstd::prelude::*;

pub mod arith;
pub mod dec;

use crate::arith::{
    BigFloat, BigInt, int_add, int_div, int_eq, int_from, int_from_u64, int_keep_bits, int_lt,
    int_mul, int_pow_mod, int_shl, int_shr, int_sub,
};
use rand::seq::IteratorRandom;

verus! {

use vstd::arithmetic::power::pow;
use vstd::arithmetic::power2::pow2;
use vstd::arithmetic::power2::lemma_pow2_pos;
use vstd::arithmetic::power2::lemma_pow2_adds;
use vstd::arithmetic::power2::lemma2_to64;
use vstd::arithmetic::div_mod::lemma_fundamental_div_mod;
use vstd::arithmetic::div_mod::lemma_fundamental_div_mod_converse;

/// One head term of a BBP sub-series, scaled by `2^prec`: the exact modular
/// power `16^(d-k) mod (8k+j)` divided by `8k+j` in fixed point.
pub open spec fn head_term(d: int, j: int, prec: nat, k: int) -> int {
    let den = 8 * k + j;
    ((pow(16, (d - k) as nat) % den) * (pow2(prec) as int)) / den
}

/// The scaled head sum over series indices `[0, k)`.
pub open spec fn head_sum(d: int, j: int, prec: nat, k: int) -> int
    decreases k,
{
    if k <= 0 {
        0
    } else {
        head_sum(d, j, prec, k - 1) + head_term(d, j, prec, k - 1)
    }
}

/// One tail term, scaled by `2^prec`: `16^(d-k) / (8k+j)` in fixed point,
/// zero once the power falls below the precision budget.
pub open spec fn tail_term(d: int, j: int, prec: nat, k: int) -> int {
    let den = 8 * k + j;
    if 4 * (k - d) <= prec {
        (pow2((prec - 4 * (k - d)) as nat) as int) / den
    } else {
        0
    }
}

/// The scaled tail sum from index `k` on, accumulated in the one fixed
/// sequential order and cut off at the first term whose magnitude is not
/// above the truncation epsilon `2^-prec` (one unit in fixed point).
pub open spec fn tail_sum(d: int, j: int, prec: nat, k: int) -> int
    decreases d + 1 + prec - k,
{
    if k < d + 1 || k > d + 1 + prec {
        0
    } else {
        let t = tail_term(d, j, prec, k);
        if t <= 1 {
            0
        } else {
            t + tail_sum(d, j, prec, k + 1)
        }
    }
}

/// The scaled value of one BBP sub-series at `prec` fractional bits: both
/// partial sums are reduced to their fractional part before combination.
pub open spec fn series_mantissa(d: int, j: int, prec: nat) -> int {
    head_sum(d, j, prec, d + 1) % (pow2(prec) as int) + tail_sum(d, j, prec, d + 1) % (pow2(
        prec,
    ) as int)
}

/// A component of calculating a digit of pi: the sub-series for selector
/// `j` at digit position `d`, computed at `prec_float` fractional bits.
/// The head is an exact modular-exponentiation sum; the tail is summed in
/// one fixed sequential order until a term falls below `2^-prec_float`.
pub fn series(d: u64, j: u8, prec_float: u32) -> (r: BigFloat)
    requires
        1 <= j,
        d <= 0x0800000000000000u64,
    ensures
        r.exp == prec_float,
        r.mantissa@ == series_mantissa(d as int, j as int, prec_float as nat),
{
    let mut head = int_from(0);
    let mut k: u64 = 0;
    while k <= d
        invariant
            k <= d + 1,
            1 <= j,
            d <= 0x0800000000000000u64,
            head@ == head_sum(d as int, j as int, prec_float as nat, k as int),
        decreases d + 1 - k,
    {
        let den: u64 = 8 * k + (j as u64);
        let numer = int_pow_mod(&int_from(16), &int_from_u64(d - k), &int_from_u64(den));
        let term = int_div(&int_shl(&numer, prec_float), &int_from_u64(den));
        proof {
            let deni = den as int;
            let p2 = pow2(prec_float as nat) as int;
            lemma_pow2_pos(prec_float as nat);
            assert(0 <= numer@ * p2) by (nonlinear_arith)
                requires
                    numer@ >= 0,
                    p2 > 0,
            ;
            assert(term@ == head_term(d as int, j as int, prec_float as nat, k as int));
        }
        head = int_add(&head, &term);
        k = k + 1;
    }
    let head_f = int_keep_bits(&head, prec_float);
    let mut tail = int_from(0);
    let mut k2: u64 = d + 1;
    let kmax: u64 = d + 1 + (prec_float as u64);
    while k2 <= kmax
        invariant
            d + 1 <= k2 <= kmax + 1,
            kmax == d + 1 + prec_float,
            1 <= j,
            d <= 0x0800000000000000u64,
            tail@ + tail_sum(d as int, j as int, prec_float as nat, k2 as int) == tail_sum(
                d as int,
                j as int,
                prec_float as nat,
                d + 1,
            ),
        ensures
            tail@ == tail_sum(d as int, j as int, prec_float as nat, d + 1),
        decreases kmax + 1 - k2,
    {
        let shift: u64 = 4 * (k2 - d);
        let den: u64 = 8 * k2 + (j as u64);
        let term = if shift <= prec_float as u64 {
            int_div(&int_shl(&int_from(1), prec_float - (shift as u32)), &int_from_u64(den))
        } else {
            int_from(0)
        };
        proof {
            let deni = den as int;
            if 4 * (k2 - d) <= prec_float {
                lemma_pow2_pos((prec_float - 4 * (k2 - d)) as nat);
                assert((pow2((prec_float - 4 * (k2 - d)) as nat) as int) / deni >= 0)
                    by (nonlinear_arith)
                    requires
                        (pow2((prec_float - 4 * (k2 - d)) as nat) as int) > 0,
                        deni > 0,
                ;
            }
            assert(term@ == tail_term(d as int, j as int, prec_float as nat, k2 as int));
        }
        if !int_lt(&int_from(1), &term) {
            break ;
        }
        tail = int_add(&tail, &term);
        k2 = k2 + 1;
    }
    let tail_f = int_keep_bits(&tail, prec_float);
    BigFloat { mantissa: int_add(&head_f, &tail_f), exp: prec_float }
}

/// The working precision for a requested nibble count: generous slack over
/// the requested width keeps truncation noise away from the output bits.
pub open spec fn bbp_prec(precision: u8) -> nat {
    if precision < 8 {
        80
    } else {
        (precision * 10) as nat
    }
}

/// The four sub-series combined with the canonical BBP coefficients
/// `{(1,+4), (4,-2), (5,-1), (6,-1)}`, in the fixed order sorted by `j`.
pub open spec fn bbp_combined(d: int, prec: nat) -> int {
    4 * series_mantissa(d, 1, prec) - 2 * series_mantissa(d, 4, prec) - series_mantissa(d, 5, prec)
        - series_mantissa(d, 6, prec)
}

/// Normalisation of the combined sum into `[0, 1)` in fixed point: add one
/// if negative, take the fractional part if one or above.
pub open spec fn bbp_normalized(m: int, prec: nat) -> int {
    let p2 = pow2(prec) as int;
    if m < 0 {
        (p2 - ((-m) % p2)) % p2
    } else if p2 <= m {
        m % p2
    } else {
        m
    }
}

/// The `precision` leading hex nibbles of the fixed-point fraction
/// `x / 2^prec`, assembled most-significant first into one integer.
pub open spec fn hex_digits_of(x: int, prec: nat, precision: nat) -> int {
    (x * (pow2(4 * precision) as int)) / (pow2(prec) as int)
}

/// Calculates what is needed to calculate pi: `precision` hex nibbles of
/// the BBP combination for digit position `d`, extracted by repeated
/// multiply-by-16, floor and fractional-part steps.
pub fn pi_hex(d: u64, precision: u8) -> (r: BigInt)
    requires
        1 <= precision,
        d <= 0x0800000000000000u64,
    ensures
        r@ == hex_digits_of(
            bbp_normalized(bbp_combined(d as int, bbp_prec(precision)), bbp_prec(precision)),
            bbp_prec(precision),
            precision as nat,
        ),
        0 <= r@ < pow2((4 * precision) as nat),
{
    let prec_float: u32 = if precision < 8 {
        80
    } else {
        precision as u32 * 10
    };
    proof {
        assert(prec_float as nat == bbp_prec(precision));
        lemma_pow2_pos(prec_float as nat);
    }
    let s1 = series(d, 1, prec_float);
    let s4 = series(d, 4, prec_float);
    let s5 = series(d, 5, prec_float);
    let s6 = series(d, 6, prec_float);
    let combined = int_sub(
        &int_sub(
            &int_sub(&int_mul(&int_from(4), &s1.mantissa), &int_mul(&int_from(2), &s4.mantissa)),
            &s5.mantissa,
        ),
        &s6.mantissa,
    );
    let p2 = int_shl(&int_from(1), prec_float);
    let ghost pi2: int = pow2(prec_float as nat) as int;
    let x = if int_lt(&combined, &int_from(0)) {
        let neg = int_sub(&int_from(0), &combined);
        let red = int_keep_bits(&neg, prec_float);
        proof {
            assert(0 <= neg@ % pi2 < pi2) by (nonlinear_arith)
                requires
                    pi2 > 0,
            ;
        }
        let lifted = int_sub(&p2, &red);
        proof {
            assert(0 <= lifted@ % pi2 < pi2) by (nonlinear_arith)
                requires
                    pi2 > 0,
            ;
        }
        int_keep_bits(&lifted, prec_float)
    } else if !int_lt(&combined, &p2) {
        proof {
            assert(0 <= combined@ % pi2 < pi2) by (nonlinear_arith)
                requires
                    pi2 > 0,
            ;
        }
        int_keep_bits(&combined, prec_float)
    } else {
        combined
    };
    proof {
        assert(x@ == bbp_normalized(
            bbp_combined(d as int, bbp_prec(precision)),
            bbp_prec(precision),
        ));
        assert(0 <= x@ < pi2);
    }
    let ghost xg: int = x@;
    let mut acc = int_from(0);
    let mut frac = x;
    let mut i: u32 = 0;
    let ghost mut h: int = 0;
    proof {
        assert(pow2(0) == 1) by {
            lemma2_to64();
        }
        assert(xg * (pow2(0) as int) == xg) by (nonlinear_arith)
            requires
                pow2(0) == 1,
        ;
    }
    while i < precision as u32
        invariant
            i <= precision,
            1 <= precision,
            pi2 == pow2(prec_float as nat) as int,
            pi2 > 0,
            0 <= frac@ < pi2,
            h >= 0,
            xg * (pow2((4 * i) as nat) as int) == h * pi2 + frac@,
            0 <= xg < pi2,
            acc@ == h * (pow2((4 * (precision - i)) as nat) as int),
        decreases precision - i,
    {
        let x16 = int_shl(&frac, 4);
        let nib = int_shr(&x16, prec_float);
        let sh: u32 = 4 * (precision as u32 - i - 1);
        let acc2 = int_add(&acc, &int_shl(&nib, sh));
        let frac2 = int_keep_bits(&x16, prec_float);
        proof {
            lemma2_to64();
            assert(x16@ == 16 * frac@);
            assert(0 <= x16@ % pi2 < pi2) by (nonlinear_arith)
                requires
                    pi2 > 0,
            ;
            assert(x16@ / pi2 >= 0) by (nonlinear_arith)
                requires
                    x16@ >= 0,
                    pi2 > 0,
            ;
            lemma_fundamental_div_mod(x16@, pi2);
            assert(x16@ == pi2 * nib@ + frac2@);
            let h2 = 16 * h + nib@;
            // xg * 2^(4(i+1)) == h2 * pi2 + frac2
            lemma_pow2_adds((4 * i) as nat, 4);
            assert(xg * (pow2((4 * (i + 1)) as nat) as int) == 16 * (xg * (pow2(
                (4 * i) as nat,
            ) as int))) by (nonlinear_arith)
                requires
                    pow2((4 * (i + 1)) as nat) == pow2((4 * i) as nat) * 16,
            ;
            assert(16 * (h * pi2 + frac@) == (16 * h) * pi2 + 16 * frac@) by (nonlinear_arith);
            assert((16 * h) * pi2 + (pi2 * nib@ + frac2@) == h2 * pi2 + frac2@) by (nonlinear_arith)
                requires
                    h2 == 16 * h + nib@,
            ;
            assert(xg * (pow2((4 * (i + 1)) as nat) as int) == h2 * pi2 + frac2@);
            // acc2 == h2 * 2^(4*(precision - i - 1))
            lemma_pow2_adds((4 * (precision - i - 1)) as nat, 4);
            let z = pow2((4 * (precision - i - 1)) as nat) as int;
            assert(pow2((4 * (precision - i)) as nat) == pow2((4 * (precision - i - 1)) as nat)
                * 16);
            assert(acc2@ == acc@ + nib@ * z);
            assert(h * (z * 16) + nib@ * z == h2 * z) by (nonlinear_arith)
                requires
                    h2 == 16 * h + nib@,
            ;
            assert(acc2@ == h2 * z);
            h = h2;
        }
        acc = acc2;
        frac = frac2;
        i = i + 1;
    }
    proof {
        lemma2_to64();
        lemma_pow2_pos((4 * precision) as nat);
        assert((4 * (precision - i)) as nat == 0);
        assert(pow2((4 * (precision - i)) as nat) == 1);
        assert(acc@ == h * 1int);
        assert(acc@ == h);
        assert(xg * (pow2((4 * precision) as nat) as int) == h * pi2 + frac@);
        lemma_fundamental_div_mod_converse(xg * (pow2((4 * precision) as nat) as int), pi2, h, frac@);
        assert(h < pow2((4 * precision) as nat)) by (nonlinear_arith)
            requires
                xg < pi2,
                pi2 > 0,
                pow2((4 * precision) as nat) > 0,
                h * pi2 + frac@ == xg * (pow2((4 * precision) as nat) as int),
                frac@ >= 0,
                h >= 0,
        ;
    }
    acc
}

/// Two digit windows at adjacent positions overlap: the low `4*mid - 4`
/// bits of the earlier window equal the later window shifted right by one
/// nibble.
pub open spec fn windows_overlap(p: int, np: int, mid: nat) -> bool
    recommends
        mid >= 1,
{
    p % (pow2((4 * mid - 4) as nat) as int) == np / 16
}

/// Decides the overlap of two adjacent digit windows exactly.
pub fn check_overlap(p: &BigInt, np: &BigInt, mid: u8) -> (r: bool)
    requires
        1 <= mid,
    ensures
        r == windows_overlap(p@, np@, mid as nat),
{
    let p_trun = int_keep_bits(p, mid as u32 * 4 - 4);
    let np_trun = int_shr(np, 4);
    proof {
        lemma2_to64();
    }
    int_eq(&p_trun, &np_trun)
}

/// Whether every adjacent pair in a sequence of digit windows overlaps;
/// this is the local consistency condition the precision verifier probes.
pub fn windows_consistent(vals: &Vec<BigInt>, mid: u8) -> (r: bool)
    requires
        1 <= mid,
    ensures
        r == (forall|s: int|
            0 <= s < vals@.len() - 1 ==> windows_overlap((#[trigger] vals@[s])@, vals@[s + 1]@, mid as nat)),
{
    if vals.len() == 0 {
        return true;
    }
    let mut t: usize = 0;
    let mut r = true;
    while t < vals.len() - 1
        invariant
            1 <= mid,
            vals@.len() >= 1,
            t <= vals@.len() - 1,
            r == (forall|s: int|
                0 <= s < t ==> windows_overlap((#[trigger] vals@[s])@, vals@[s + 1]@, mid as nat)),
        decreases vals@.len() - t,
    {
        let here = check_overlap(&vals[t], &vals[t + 1], mid);
        r = r && here;
        t = t + 1;
    }
    r
}

/// The consistency of one sampled position against both neighbours, as the
/// verifier's three-way local check states it.
pub fn check_triple(prev: &BigInt, curr: &BigInt, next: &BigInt, mid: u8) -> (r: bool)
    requires
        1 <= mid,
    ensures
        r == (windows_overlap(prev@, curr@, mid as nat) && windows_overlap(
            curr@,
            next@,
            mid as nat,
        )),
{
    let a = check_overlap(prev, curr, mid);
    let b = check_overlap(curr, next, mid);
    a && b
}

/// The floor base-two logarithm of a positive count, used to size the
/// random sample.
fn ilog2_i64(n: i64) -> (k: u32)
    requires
        n >= 1,
    ensures
        pow2(k as nat) <= n < pow2((k + 1) as nat),
{
    let mut k: u32 = 0;
    let mut v: i64 = n;
    proof {
        lemma2_to64();
    }
    while v >= 2
        invariant
            1 <= v,
            n >= 1,
            k <= 62,
            v == n as int / (pow2(k as nat) as int),
        decreases v,
    {
        proof {
            let p = pow2(k as nat) as int;
            lemma_pow2_pos(k as nat);
            lemma_pow2_adds(k as nat, 1);
            lemma2_to64();
            lemma_fundamental_div_mod(n as int, p);
            assert(n as int % p >= 0) by (nonlinear_arith)
                requires
                    p > 0,
            ;
            assert(n as int >= 2 * p) by (nonlinear_arith)
                requires
                    n as int == p * (n as int / p) + n as int % p,
                    n as int / p >= 2,
                    n as int % p >= 0,
                    p > 0,
            ;
            if k >= 62 {
                vstd::arithmetic::power2::lemma2_to64_rest();
                assert(pow2(63) == 0x8000000000000000);
                assert(false);
            }
            vstd::arithmetic::div_mod::lemma_div_denominator(n as int, p, 2);
        }
        v = v / 2;
        k = k + 1;
    }
    proof {
        lemma_pow2_pos(k as nat);
        lemma_fundamental_div_mod(n as int, pow2(k as nat) as int);
        lemma_pow2_adds(k as nat, 1);
        lemma2_to64();
    }
    k
}

/// Relies on rand's `IteratorRandom::sample` over a range iterator: at
/// most `amount` positions sampled without replacement from `[lo, hi)`.
/// Of the random outcome only membership in the range and the count are
/// stated.
#[verifier::external_body]
fn sample_positions(lo: i64, hi: i64, amount: usize) -> (r: Vec<i64>)
    requires
        lo <= hi,
    ensures
        forall|t: int| 0 <= t < r@.len() ==> lo <= #[trigger] r@[t] < hi,
        r@.len() <= amount,
{
    (lo..hi).sample(&mut rand::rng(), amount)
}

/// One digit window per position of the probe range, each a possible
/// output of the supplied extractor at the probed precision.
pub open spec fn gathered_outputs<F: Fn(i64, u8) -> BigInt>(
    pi: F,
    start: int,
    end: int,
    mid: u8,
    vals: Seq<BigInt>,
) -> bool {
    &&& vals.len() == end - start
    &&& forall|i: int|
        0 <= i < vals.len() ==> call_ensures(pi, ((start + i) as i64, mid), #[trigger] vals[i])
}

/// Whether every adjacent pair in a sequence of digit windows overlaps.
pub open spec fn windows_all_overlap(vals: Seq<BigInt>, mid: u8) -> bool {
    forall|s: int|
        0 <= s < vals.len() - 1 ==> windows_overlap((#[trigger] vals[s])@, vals[s + 1]@, mid as nat)
}

/// One sampled probe: every sampled position lies strictly inside the
/// probe range, each has three extractor outputs (left neighbour, the
/// position itself, right neighbour), and the verdict is exactly whether
/// every sampled position passed the three-way overlap check.
pub open spec fn sampled_verdict<F: Fn(i64, u8) -> BigInt>(
    pi: F,
    start: int,
    end: int,
    mid: u8,
    ds: Seq<i64>,
    outs: Seq<(BigInt, BigInt, BigInt)>,
    ok: bool,
) -> bool {
    &&& outs.len() == ds.len()
    &&& forall|i: int| 0 <= i < ds.len() ==> start < #[trigger] ds[i] < end
    &&& forall|i: int|
        0 <= i < ds.len() ==> call_ensures(pi, (((#[trigger] ds[i]) - 1) as i64, mid), outs[i].0)
            && call_ensures(pi, (ds[i], mid), outs[i].1) && call_ensures(
            pi,
            ((ds[i] + 1) as i64, mid),
            outs[i].2,
        )
    &&& ok == (forall|i: int|
        0 <= i < outs.len() ==> windows_overlap((#[trigger] outs[i]).0@, outs[i].1@, mid as nat)
            && windows_overlap(outs[i].1@, outs[i].2@, mid as nat))
}

/// Every probe verdict in the report is the three-way consistency of the
/// matching sampled positions and the extractor's own outputs at them.
pub open spec fn sampled_probes_reflect<F: Fn(i64, u8) -> BigInt>(
    pi: F,
    start: int,
    end: int,
    report: Seq<(u8, bool)>,
    dss: Seq<Seq<i64>>,
    outss: Seq<Seq<(BigInt, BigInt, BigInt)>>,
) -> bool {
    &&& dss.len() == report.len()
    &&& outss.len() == report.len()
    &&& forall|t: int|
        0 <= t < report.len() ==> sampled_verdict(pi, start, end, (#[trigger] report[t]).0, dss[t],
        outss[t], report[t].1)
}

/// Every probe verdict in the report is the consistency of the matching
/// sequence of the extractor's own outputs over the probe range.
pub open spec fn probes_reflect_outputs<F: Fn(i64, u8) -> BigInt>(
    pi: F,
    start: int,
    end: int,
    report: Seq<(u8, bool)>,
    wits: Seq<Seq<BigInt>>,
) -> bool {
    &&& wits.len() == report.len()
    &&& forall|t: int|
        0 <= t < report.len() ==> gathered_outputs(pi, start, end, (#[trigger] report[t]).0, wits[t])
            && report[t].1 == windows_all_overlap(wits[t], report[t].0)
}

/// Binary-searches the maximum precision at which a supplied digit
/// extractor is internally consistent, probing candidate precisions over
/// `[2, 255]`.  Small probe ranges check every consecutive pair of
/// positions; larger ranges check a random sample of positions against
/// both neighbours.  Returns the probe log: each candidate precision tried
/// together with whether the overlap checks passed for the values the
/// supplied function returned.  For small ranges each probe verdict is
/// exactly the consistency of one full sequence of the extractor's
/// outputs over the range.
pub fn check_precision_quick<F: Fn(i64, u8) -> BigInt>(
    check_start: i64,
    check_end: i64,
    pi: F,
) -> (report: Vec<(u8, bool)>)
    requires
        0 <= check_start < check_end,
        forall|dd: i64, pp: u8|
            0 <= dd <= check_end && 2 <= pp ==> #[trigger] call_requires(pi, (dd, pp)),
    ensures
        report@.len() >= 1,
        forall|t: int| 0 <= t < report@.len() ==> 2 <= (#[trigger] report@[t]).0,
        forall|t: int|
            0 <= t < report@.len() - 1 ==> ((#[trigger] report@[t]).1 ==> report@[t + 1].0
                > report@[t].0) && (!report@[t].1 ==> report@[t + 1].0 < report@[t].0),
        check_end <= 1000 ==> exists|wits: Seq<Seq<BigInt>>|
            probes_reflect_outputs(pi, check_start as int, check_end as int, report@, wits),
        check_end > 1000 ==> exists|dss: Seq<Seq<i64>>, outss: Seq<Seq<(BigInt, BigInt, BigInt)>>|
            sampled_probes_reflect(pi, check_start as int, check_end as int, report@, dss, outss),
{
    let mut report: Vec<(u8, bool)> = Vec::new();
    let ghost mut wits: Seq<Seq<BigInt>> = Seq::empty();
    let ghost mut dss: Seq<Seq<i64>> = Seq::empty();
    let ghost mut outss: Seq<Seq<(BigInt, BigInt, BigInt)>> = Seq::empty();
    let mut size: u8 = 255;
    let mut left: u8 = 0;
    let mut right: u8 = size;
    while left < right
        invariant
            left <= right <= 255,
            size == right - left,
            0 <= check_start < check_end,
            forall|dd: i64, pp: u8|
                0 <= dd <= check_end && 2 <= pp ==> #[trigger] call_requires(pi, (dd, pp)),
            forall|t: int| 0 <= t < report@.len() ==> 2 <= (#[trigger] report@[t]).0,
            report@.len() >= 1 || (left == 0 && right == 255),
            forall|t: int|
                0 <= t < report@.len() - 1 ==> ((#[trigger] report@[t]).1 ==> report@[t + 1].0
                    > report@[t].0) && (!report@[t].1 ==> report@[t + 1].0 < report@[t].0),
            report@.len() >= 1 ==> ((report@[report@.len() - 1].1 ==> left > report@[report@.len()
                - 1].0) && (!report@[report@.len() - 1].1 ==> right <= report@[report@.len()
                - 1].0)),
            check_end <= 1000 ==> probes_reflect_outputs(
                pi,
                check_start as int,
                check_end as int,
                report@,
                wits,
            ),
            check_end > 1000 ==> sampled_probes_reflect(
                pi,
                check_start as int,
                check_end as int,
                report@,
                dss,
                outss,
            ),
        decreases right - left,
    {
        let mid: u8 = left + size / 2;
        if mid < 2 {
            return report;
        }
        let ghost mut wit: Seq<BigInt> = Seq::empty();
        let ghost mut ds_w: Seq<i64> = Seq::empty();
        let ghost mut outs_w: Seq<(BigInt, BigInt, BigInt)> = Seq::empty();
        let ok: bool = if check_end <= 1000 {
            let mut vals: Vec<BigInt> = Vec::new();
            let mut dd: i64 = check_start;
            while dd < check_end
                invariant
                    check_start <= dd <= check_end,
                    0 <= check_start,
                    2 <= mid,
                    vals@.len() == dd - check_start,
                    forall|i: int|
                        0 <= i < vals@.len() ==> call_ensures(
                            pi,
                            ((check_start + i) as i64, mid),
                            #[trigger] vals@[i],
                        ),
                    forall|dd2: i64, pp: u8|
                        0 <= dd2 <= check_end && 2 <= pp ==> #[trigger] call_requires(
                            pi,
                            (dd2, pp),
                        ),
                decreases check_end - dd,
            {
                let w = pi(dd, mid);
                vals.push(w);
                dd = dd + 1;
            }
            let consistent = windows_consistent(&vals, mid);
            proof {
                wit = vals@;
                assert(gathered_outputs(
                    pi,
                    check_start as int,
                    check_end as int,
                    mid,
                    wit,
                ));
                assert(consistent == windows_all_overlap(wit, mid));
            }
            consistent
        } else {
            let amount = ilog2_i64(check_end - check_start);
            let ds = sample_positions(check_start + 1, check_end, amount as usize);
            let mut ok2 = true;
            let mut t: usize = 0;
            while t < ds.len()
                invariant
                    t <= ds@.len(),
                    0 <= check_start < check_end,
                    2 <= mid,
                    forall|s: int| 0 <= s < ds@.len() ==> check_start + 1 <= #[trigger] ds@[s]
                        < check_end,
                    forall|dd2: i64, pp: u8|
                        0 <= dd2 <= check_end && 2 <= pp ==> #[trigger] call_requires(
                            pi,
                            (dd2, pp),
                        ),
                    outs_w.len() == t,
                    forall|i: int|
                        0 <= i < t ==> call_ensures(pi, ((ds@[i] - 1) as i64, mid), (
                        #[trigger] outs_w[i]).0) && call_ensures(pi, (ds@[i], mid), outs_w[i].1)
                            && call_ensures(pi, ((ds@[i] + 1) as i64, mid), outs_w[i].2),
                    ok2 == (forall|i: int|
                        0 <= i < t ==> windows_overlap((#[trigger] outs_w[i]).0@, outs_w[i].1@,
                        mid as nat) && windows_overlap(outs_w[i].1@, outs_w[i].2@, mid as nat)),
                decreases ds@.len() - t,
            {
                let ghost outs_pre = outs_w;
                let dd = ds[t];
                let prev = pi(dd - 1, mid);
                let curr = pi(dd, mid);
                let next = pi(dd + 1, mid);
                let good = check_triple(&prev, &curr, &next, mid);
                proof {
                    outs_w = outs_w.push((prev, curr, next));
                    assert(outs_w[t as int] == (prev, curr, next));
                    assert(forall|i: int| 0 <= i < t ==> outs_w[i] == outs_pre[i]);
                }
                ok2 = ok2 && good;
                t = t + 1;
            }
            proof {
                ds_w = ds@;
                assert(sampled_verdict(
                    pi,
                    check_start as int,
                    check_end as int,
                    mid,
                    ds_w,
                    outs_w,
                    ok2,
                ));
            }
            ok2
        };
        let ghost rep_pre = report@;
        report.push((mid, ok));
        proof {
            assert(report@[report@.len() - 1] == (mid, ok));
            let ghost wits_pre = wits;
            let ghost dss_pre = dss;
            let ghost outss_pre = outss;
            wits = wits.push(wit);
            dss = dss.push(ds_w);
            outss = outss.push(outs_w);
            if check_end <= 1000 {
                assert forall|t: int| 0 <= t < report@.len() implies gathered_outputs(
                    pi,
                    check_start as int,
                    check_end as int,
                    (#[trigger] report@[t]).0,
                    wits[t],
                ) && report@[t].1 == windows_all_overlap(wits[t], report@[t].0) by {
                    if t < rep_pre.len() {
                        assert(report@[t] == rep_pre[t]);
                        assert(wits[t] == wits_pre[t]);
                    } else {
                        assert(report@[t] == (mid, ok));
                        assert(wits[t] == wit);
                    }
                }
            } else {
                assert forall|t: int| 0 <= t < report@.len() implies sampled_verdict(
                    pi,
                    check_start as int,
                    check_end as int,
                    (#[trigger] report@[t]).0,
                    dss[t],
                    outss[t],
                    report@[t].1,
                ) by {
                    if t < rep_pre.len() {
                        assert(report@[t] == rep_pre[t]);
                        assert(dss[t] == dss_pre[t]);
                        assert(outss[t] == outss_pre[t]);
                    } else {
                        assert(report@[t] == (mid, ok));
                        assert(dss[t] == ds_w);
                        assert(outss[t] == outs_w);
                    }
                }
            }
            // the search moves up after a passing probe, down after a
            // failing one
            assert forall|t: int| 0 <= t < report@.len() - 1 implies ((
            #[trigger] report@[t]).1 ==> report@[t + 1].0 > report@[t].0) && (!report@[t].1
                ==> report@[t + 1].0 < report@[t].0) by {
                if t < rep_pre.len() - 1 {
                    assert(report@[t] == rep_pre[t]);
                    assert(report@[t + 1] == rep_pre[t + 1]);
                } else {
                    assert(report@[t] == rep_pre[rep_pre.len() - 1]);
                    assert(report@[t + 1] == (mid, ok));
                }
            }
        }
        if ok {
            left = mid + 1;
        } else {
            right = mid;
        }
        size = right - left;
    }
    report
}

} // verus!
