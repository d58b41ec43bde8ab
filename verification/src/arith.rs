//! Arbitrary-precision integers, provided by the `rug` crate and modelled
//! in specifications by a mathematical integer.
//!
//! `BigInt` pairs a `rug::Integer` with a ghost `int` holding its value;
//! every operation goes through a trusted wrapper whose contract states the
//! exact arithmetic that `rug` documents.

use vstd::prelude::*;

verus! {

use vstd::arithmetic::power::pow;
use vstd::arithmetic::power2::pow2;

#[verifier::external_type_specification]
#[verifier::external_body]
pub struct ExInteger(rug::Integer);

/// An arbitrary-precision integer whose specification-level value is an `int`.
pub struct BigInt {
    inner: rug::Integer,
    val: Ghost<int>,
}

impl View for BigInt {
    type V = int;

    closed spec fn view(&self) -> int {
        self.val@
    }
}

/// Quotient truncated toward zero, as arbitrary-precision division computes it.
pub open spec fn div_trunc(a: int, b: int) -> int {
    if (0 <= a) == (0 <= b) {
        abs_of(a) / abs_of(b)
    } else {
        -(abs_of(a) / abs_of(b))
    }
}

/// Absolute value.
pub open spec fn abs_of(a: int) -> int {
    if a >= 0 {
        a
    } else {
        -a
    }
}

/// Relies on `rug::Integer`'s `From<i64>`: constructs an integer with exactly that value.
#[verifier::external_body]
pub fn int_from(x: i64) -> (r: BigInt)
    ensures
        r@ == x as int,
{
    BigInt { inner: rug::Integer::from(x), val: Ghost(0) }
}

/// Relies on `rug::Integer`'s `From<i128>`: constructs an integer with exactly that value.
#[verifier::external_body]
pub(crate) fn int_from_i128(x: i128) -> (r: BigInt)
    ensures
        r@ == x as int,
{
    BigInt { inner: rug::Integer::from(x), val: Ghost(0) }
}

/// Relies on `Clone` for `rug::Integer`: the copy holds the same value.
#[verifier::external_body]
pub(crate) fn int_clone(a: &BigInt) -> (r: BigInt)
    ensures
        r@ == a@,
{
    BigInt { inner: a.inner.clone(), val: Ghost(0) }
}

/// Relies on `Add` for `&rug::Integer`: exact integer addition.
#[verifier::external_body]
pub fn int_add(a: &BigInt, b: &BigInt) -> (r: BigInt)
    ensures
        r@ == a@ + b@,
{
    BigInt { inner: rug::Integer::from(&a.inner + &b.inner), val: Ghost(0) }
}

/// Relies on `Sub` for `&rug::Integer`: exact integer subtraction.
#[verifier::external_body]
pub(crate) fn int_sub(a: &BigInt, b: &BigInt) -> (r: BigInt)
    ensures
        r@ == a@ - b@,
{
    BigInt { inner: rug::Integer::from(&a.inner - &b.inner), val: Ghost(0) }
}

/// Relies on `Mul` for `&rug::Integer`: exact integer multiplication.
#[verifier::external_body]
pub fn int_mul(a: &BigInt, b: &BigInt) -> (r: BigInt)
    ensures
        r@ == a@ * b@,
{
    BigInt { inner: rug::Integer::from(&a.inner * &b.inner), val: Ghost(0) }
}

/// Relies on `Div` for `&rug::Integer`: quotient truncated toward zero.
/// Division by zero panics in `rug`, so a zero divisor is excluded.
#[verifier::external_body]
pub fn int_div(a: &BigInt, b: &BigInt) -> (r: BigInt)
    requires
        b@ != 0,
    ensures
        r@ == div_trunc(a@, b@),
{
    BigInt { inner: rug::Integer::from(&a.inner / &b.inner), val: Ghost(0) }
}

/// Relies on `Shl<u32>` for `&rug::Integer`: exact multiplication by a power of two.
#[verifier::external_body]
pub fn int_shl(a: &BigInt, k: u32) -> (r: BigInt)
    ensures
        r@ == a@ * pow2(k as nat),
{
    BigInt { inner: rug::Integer::from(&a.inner << k), val: Ghost(0) }
}

/// Relies on `Shr<u32>` for `&rug::Integer`: floor division by a power of two
/// (`rug` implements it with `mpz_fdiv_q_2exp`).
#[verifier::external_body]
pub fn int_shr(a: &BigInt, k: u32) -> (r: BigInt)
    ensures
        r@ == a@ / (pow2(k as nat) as int),
{
    BigInt { inner: rug::Integer::from(&a.inner >> k), val: Ghost(0) }
}

/// Relies on `rug::Integer::keep_bits`: keeps the `n` least significant bits,
/// that is, reduces modulo `2^n` to a non-negative result.
#[verifier::external_body]
pub fn int_keep_bits(a: &BigInt, n: u32) -> (r: BigInt)
    ensures
        r@ == a@ % (pow2(n as nat) as int),
{
    BigInt { inner: rug::Integer::from(&a.inner).keep_bits(n), val: Ghost(0) }
}

/// Relies on `rug::Integer::sqrt`: the square root truncated to an integer.
/// It panics on negative values, which are excluded here.
#[verifier::external_body]
pub(crate) fn int_sqrt(a: &BigInt) -> (r: BigInt)
    requires
        a@ >= 0,
    ensures
        r@ >= 0,
        r@ * r@ <= a@,
        a@ < (r@ + 1) * (r@ + 1),
{
    BigInt { inner: rug::Integer::from(&a.inner).sqrt(), val: Ghost(0) }
}

/// Relies on `Pow<u32>` for `&rug::Integer`: exact integer exponentiation.
#[verifier::external_body]
pub fn int_pow(a: &BigInt, e: u32) -> (r: BigInt)
    ensures
        r@ == pow(a@, e as nat),
{
    BigInt {
        inner: rug::Integer::from(rug::ops::Pow::pow(&a.inner, e)),
        val: Ghost(0),
    }
}

/// Relies on `rug::Integer::pow_mod`: modular exponentiation. For a
/// non-negative exponent and a positive modulus an answer always exists and
/// is the power reduced to `[0, m)`.
#[verifier::external_body]
pub(crate) fn int_pow_mod(base: &BigInt, e: &BigInt, m: &BigInt) -> (r: BigInt)
    requires
        e@ >= 0,
        m@ >= 1,
    ensures
        r@ == pow(base@, e@ as nat) % m@,
{
    let p = rug::Integer::from(&base.inner).pow_mod(&e.inner, &m.inner).unwrap_or_default();
    BigInt { inner: p, val: Ghost(0) }
}

/// Relies on `rug::Integer`'s `From<u64>`: constructs an integer with exactly that value.
#[verifier::external_body]
pub(crate) fn int_from_u64(x: u64) -> (r: BigInt)
    ensures
        r@ == x as int,
{
    BigInt { inner: rug::Integer::from(x), val: Ghost(0) }
}

/// Relies on `PartialOrd` for `rug::Integer`: order of the stored values.
#[verifier::external_body]
pub(crate) fn int_lt(a: &BigInt, b: &BigInt) -> (r: bool)
    ensures
        r == (a@ < b@),
{
    a.inner < b.inner
}

/// Relies on `PartialEq` for `rug::Integer`: equality of the stored values.
#[verifier::external_body]
pub fn int_eq(a: &BigInt, b: &BigInt) -> (r: bool)
    ensures
        r == (a@ == b@),
{
    a.inner == b.inner
}

/// Relies on `PartialEq<i64>` for `rug::Integer`: equality with a primitive value.
#[verifier::external_body]
pub fn int_eq_i64(a: &BigInt, x: i64) -> (r: bool)
    ensures
        r == (a@ == x as int),
{
    a.inner == x
}

/// Relies on `Display` for `rug::Integer`: the decimal rendering of the value,
/// at least one digit long.
#[verifier::external_body]
pub fn int_to_decimal(a: &BigInt) -> (r: String)
    ensures
        r@.len() >= 1,
{
    format!("{}", a.inner)
}

/// A bounded-precision binary fraction: the value `mantissa / 2^exp`.
///
/// This is the library's explicit-precision float: the working bit-width
/// `exp` is chosen once per top-level computation from the requested digit
/// count, and every operation on the mantissa is exact integer arithmetic,
/// so contracts pin results down to the bit.
pub struct BigFloat {
    /// The scaled value.
    pub mantissa: BigInt,
    /// The precision budget: the number of fractional bits.
    pub exp: u32,
}

} // verus!
