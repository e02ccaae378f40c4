//! Opaque complex scalars and the trusted arithmetic the library builds on.
//!
//! Every numeric value in this crate is a `num_complex::Complex64`. The
//! verifier treats such a value as opaque: nothing is known of what it holds.
//! Each arithmetic operation is a call into `num_complex` (or `approx`),
//! declared below with a contract that names its result as an uninterpreted
//! function of the arguments. Contracts elsewhere in the crate speak of those
//! names, so every stated equality is exact at the level of the operations
//! performed, while nothing is assumed of floating-point algebra itself.

use vstd::prelude::*;
use num_complex::Complex64;

verus! {

/// Declares `num_complex::Complex` to the verifier. A value of it is
/// opaque: every fact about one comes from the contracts below.
#[verifier::external_type_specification]
#[verifier::external_body]
#[verifier::reject_recursive_types(T)]
pub struct ExComplex<T>(num_complex::Complex<T>);

/// The complex number a constructor call yields from integer parts.
pub uninterp spec fn c_of(re: int, im: int) -> Complex64;

/// The sum of two complex numbers.
pub uninterp spec fn add_of(a: Complex64, b: Complex64) -> Complex64;

/// The difference of two complex numbers.
pub uninterp spec fn sub_of(a: Complex64, b: Complex64) -> Complex64;

/// The product of two complex numbers.
pub uninterp spec fn mul_of(a: Complex64, b: Complex64) -> Complex64;

/// The quotient of two complex numbers.
pub uninterp spec fn div_of(a: Complex64, b: Complex64) -> Complex64;

/// The negation of a complex number.
pub uninterp spec fn neg_of(a: Complex64) -> Complex64;

/// The complex conjugate of a complex number.
pub uninterp spec fn conj_of(a: Complex64) -> Complex64;

/// The principal square root of a complex number.
pub uninterp spec fn sqrt_of(a: Complex64) -> Complex64;

/// The principal arc cosine of a complex number.
pub uninterp spec fn acos_of(a: Complex64) -> Complex64;

/// The exponential of a complex number.
pub uninterp spec fn exp_of(a: Complex64) -> Complex64;

/// The modulus of a complex number, carried as a complex value with zero
/// imaginary part.
pub uninterp spec fn norm_of(a: Complex64) -> Complex64;

/// Whether two complex numbers differ by more than `eps` (real part of the
/// third argument) in the real or the imaginary component.
pub uninterp spec fn abs_diff_ne_of(a: Complex64, b: Complex64, eps: Complex64) -> bool;

/// Relies on `num_complex::Complex64::new`: builds the complex number with
/// the given integer real and imaginary parts, each converted exactly.
#[verifier::external_body]
pub fn c_from_int(re: i32, im: i32) -> (r: Complex64)
    ensures
        r == c_of(re as int, im as int),
{
    Complex64::new(re.into(), im.into())
}

/// Relies on `core::ops::Add` for `Complex64`: componentwise addition.
#[verifier::external_body]
pub fn c_add(a: &Complex64, b: &Complex64) -> (r: Complex64)
    ensures
        r == add_of(*a, *b),
{
    *a + *b
}

/// Relies on `core::ops::Sub` for `Complex64`: componentwise subtraction.
#[verifier::external_body]
pub fn c_sub(a: &Complex64, b: &Complex64) -> (r: Complex64)
    ensures
        r == sub_of(*a, *b),
{
    *a - *b
}

/// Relies on `core::ops::Mul` for `Complex64`: complex multiplication.
#[verifier::external_body]
pub fn c_mul(a: &Complex64, b: &Complex64) -> (r: Complex64)
    ensures
        r == mul_of(*a, *b),
{
    *a * *b
}

/// Relies on `core::ops::Div` for `Complex64`: complex division. A zero
/// divisor yields non-finite components and does not panic.
#[verifier::external_body]
pub fn c_div(a: &Complex64, b: &Complex64) -> (r: Complex64)
    ensures
        r == div_of(*a, *b),
{
    *a / *b
}

/// Relies on `core::ops::Neg` for `Complex64`: componentwise negation.
#[verifier::external_body]
pub fn c_neg(a: &Complex64) -> (r: Complex64)
    ensures
        r == neg_of(*a),
{
    -*a
}

/// Relies on `num_complex::Complex64::conj`: negates the imaginary part.
#[verifier::external_body]
pub fn c_conj(a: &Complex64) -> (r: Complex64)
    ensures
        r == conj_of(*a),
{
    a.conj()
}

/// Relies on `num_complex::Complex64::sqrt`: the principal square root,
/// a function of the argument alone.
#[verifier::external_body]
pub fn c_sqrt(a: &Complex64) -> (r: Complex64)
    ensures
        r == sqrt_of(*a),
{
    a.sqrt()
}

/// Relies on `num_complex::Complex64::acos`: the principal arc cosine,
/// a function of the argument alone.
#[verifier::external_body]
pub fn c_acos(a: &Complex64) -> (r: Complex64)
    ensures
        r == acos_of(*a),
{
    a.acos()
}

/// Relies on `num_complex::Complex64::exp`: the complex exponential,
/// a function of the argument alone.
#[verifier::external_body]
pub fn c_exp(a: &Complex64) -> (r: Complex64)
    ensures
        r == exp_of(*a),
{
    a.exp()
}

/// Relies on `approx::AbsDiffEq::abs_diff_ne` for `Complex64`: true when the
/// real parts or the imaginary parts differ by more than the tolerance, which
/// is read from the real part of `eps`.
#[verifier::external_body]
pub fn c_abs_diff_ne(a: &Complex64, b: &Complex64, eps: &Complex64) -> (r: bool)
    ensures
        r == abs_diff_ne_of(*a, *b, *eps),
{
    approx::AbsDiffEq::abs_diff_ne(a, b, eps.re)
}

/// Relies on `num_complex::Complex64::norm`: the modulus, a function of the
/// argument alone; `From` converts the real result back to a complex value.
#[verifier::external_body]
pub fn c_norm(a: &Complex64) -> (r: Complex64)
    ensures
        r == norm_of(*a),
{
    Complex64::from(a.norm())
}

/// A value counts as numerically present when it differs from zero by more
/// than the tolerance in either component.
pub open spec fn significant(v: Complex64, tol: Complex64) -> bool {
    abs_diff_ne_of(v, c_of(0, 0), tol)
}

/// A value's modulus exceeds the tolerance: the magnitude form of the
/// significance test, used by the bracket reconstructions.
pub open spec fn norm_significant(v: Complex64, tol: Complex64) -> bool {
    abs_diff_ne_of(norm_of(v), c_of(0, 0), tol)
}

/// One half, as the library computes it: 1 divided by 2.
pub open spec fn half_val() -> Complex64 {
    div_of(c_of(1, 0), c_of(2, 0))
}

/// The default numeric tolerance: 1 divided by 10^8.
pub open spec fn default_tol_val() -> Complex64 {
    div_of(c_of(1, 0), c_of(100000000, 0))
}

/// Builds the default tolerance used throughout the crate.
pub fn default_tolerance() -> (r: Complex64)
    ensures
        r == default_tol_val(),
{
    let one = c_from_int(1, 0);
    let base = c_from_int(100000000, 0);
    c_div(&one, &base)
}

} // verus!
