//! Ladder and spin operators for a single spin quantum number.
//!
//! A spin j is a non-negative half-integer; it is carried as `two_j`, the
//! exact integer 2j, so the representation dimension is `two_j + 1` and every
//! ladder coefficient is the square root of a product of integers.

use vstd::prelude::*;
use num_complex::Complex64;
use crate::complex::{add_of, c_div, c_from_int, c_of, c_sqrt, div_of, half_val, mul_of, sqrt_of, sub_of};
use crate::matrix::{Matrix, MAX_DIM};

verus! {

/// The raising-operator entry: `sqrt((j - m)(j + m + 1))` on the
/// super-diagonal, written over `two_j` as `sqrt((r + 1)(2j - r))`.
pub open spec fn jp_entry(tj: int, r: int, c: int) -> Complex64 {
    if c == r + 1 {
        sqrt_of(c_of((r + 1) * (tj - r), 0))
    } else {
        c_of(0, 0)
    }
}

/// The lowering-operator entry: `sqrt((j + m)(j - m + 1))` on the
/// sub-diagonal, written over `two_j` as `sqrt(r (2j - r + 1))`.
pub open spec fn jm_entry(tj: int, r: int, c: int) -> Complex64 {
    if c == r - 1 {
        sqrt_of(c_of(r * (tj - r + 1), 0))
    } else {
        c_of(0, 0)
    }
}

/// The diagonal observable: `j, j - 1, ..., -j`, each value the exact
/// half `(2j - 2r) / 2`.
pub open spec fn sz_entry(tj: int, r: int, c: int) -> Complex64 {
    if r == c {
        div_of(c_of(tj - 2 * r, 0), c_of(2, 0))
    } else {
        c_of(0, 0)
    }
}

/// The symmetric combination `(j_p + j_m) / 2`.
pub open spec fn sx_entry(tj: int, r: int, c: int) -> Complex64 {
    mul_of(half_val(), add_of(jp_entry(tj, r, c), jm_entry(tj, r, c)))
}

/// The antisymmetric combination `(j_p - j_m) / 2`, as its real-valued
/// representative.
pub open spec fn sy_entry(tj: int, r: int, c: int) -> Complex64 {
    mul_of(half_val(), sub_of(jp_entry(tj, r, c), jm_entry(tj, r, c)))
}

/// The raising matrix for spin `two_j / 2`.
pub fn j_p(two_j: usize) -> (r: Matrix)
    requires
        two_j < MAX_DIM,
    ensures
        r.wf(),
        r.dim() == two_j + 1,
        forall|p: int, q: int|
            0 <= p < two_j + 1 && 0 <= q < two_j + 1 ==> r.at(p, q) == jp_entry(two_j as int, p, q),
{
    let n = two_j + 1;
    let mut m = Matrix::zeros(n);
    let mut i: usize = 0;
    while i + 1 < n
        invariant
            m.wf(),
            m.dim() == n,
            n == two_j + 1,
            n <= MAX_DIM,
            i < n,
            forall|a: int| 0 <= a < i ==> #[trigger] m.at(a, a + 1) == jp_entry(two_j as int, a, a + 1),
            forall|a: int, b: int|
                0 <= a < n && 0 <= b < n && !(b == a + 1 && a < i) ==> m.at(a, b) == c_of(0, 0),
        decreases n - i,
    {
        proof {
            assert((i + 1) * (two_j - i) <= 2147395600) by (nonlinear_arith)
                requires i + 1 <= two_j, two_j <= 46340;
        }
        let coeff: usize = (i + 1) * (two_j - i);
        m.set(i, i + 1, c_sqrt(&c_from_int(coeff as i32, 0)));
        i = i + 1;
    }
    m
}

/// The lowering matrix for spin `two_j / 2`.
pub fn j_m(two_j: usize) -> (r: Matrix)
    requires
        two_j < MAX_DIM,
    ensures
        r.wf(),
        r.dim() == two_j + 1,
        forall|p: int, q: int|
            0 <= p < two_j + 1 && 0 <= q < two_j + 1 ==> r.at(p, q) == jm_entry(two_j as int, p, q),
{
    let n = two_j + 1;
    let mut m = Matrix::zeros(n);
    let mut i: usize = 1;
    while i < n
        invariant
            m.wf(),
            m.dim() == n,
            n == two_j + 1,
            n <= MAX_DIM,
            1 <= i <= n,
            forall|a: int| 1 <= a < i ==> #[trigger] m.at(a, a - 1) == jm_entry(two_j as int, a, a - 1),
            forall|a: int, b: int|
                0 <= a < n && 0 <= b < n && !(b == a - 1 && a < i) ==> m.at(a, b) == c_of(0, 0),
        decreases n - i,
    {
        proof {
            assert(i * (two_j - i + 1) <= 2147395600) by (nonlinear_arith)
                requires 1 <= i <= two_j, two_j <= 46340;
        }
        let coeff: usize = i * (two_j - i + 1);
        m.set(i, i - 1, c_sqrt(&c_from_int(coeff as i32, 0)));
        i = i + 1;
    }
    m
}

/// The diagonal observable for spin `two_j / 2`.
pub fn s_z(two_j: usize) -> (r: Matrix)
    requires
        two_j < MAX_DIM,
    ensures
        r.wf(),
        r.dim() == two_j + 1,
        forall|p: int, q: int|
            0 <= p < two_j + 1 && 0 <= q < two_j + 1 ==> r.at(p, q) == sz_entry(two_j as int, p, q),
{
    let n = two_j + 1;
    let mut m = Matrix::zeros(n);
    let two = c_from_int(2, 0);
    let mut i: usize = 0;
    while i < n
        invariant
            m.wf(),
            m.dim() == n,
            n == two_j + 1,
            n <= MAX_DIM,
            i <= n,
            two == c_of(2, 0),
            forall|a: int| 0 <= a < i ==> m.at(a, a) == sz_entry(two_j as int, a, a),
            forall|a: int, b: int|
                0 <= a < n && 0 <= b < n && !(b == a && a < i) ==> m.at(a, b) == c_of(0, 0),
        decreases n - i,
    {
        let num = c_from_int((two_j as i32) - 2 * (i as i32), 0);
        m.set(i, i, c_div(&num, &two));
        i = i + 1;
    }
    m
}

/// The x-observable `(j_p + j_m) / 2` for spin `two_j / 2`.
pub fn s_x(two_j: usize) -> (r: Matrix)
    requires
        two_j < MAX_DIM,
    ensures
        r.wf(),
        r.dim() == two_j + 1,
        forall|p: int, q: int|
            0 <= p < two_j + 1 && 0 <= q < two_j + 1 ==> r.at(p, q) == sx_entry(two_j as int, p, q),
{
    let half = c_div(&c_from_int(1, 0), &c_from_int(2, 0));
    j_p(two_j).add(&j_m(two_j)).scale(&half)
}

/// The real representative of the y-observable `(j_p - j_m) / 2` for spin
/// `two_j / 2`.
pub fn s_y(two_j: usize) -> (r: Matrix)
    requires
        two_j < MAX_DIM,
    ensures
        r.wf(),
        r.dim() == two_j + 1,
        forall|p: int, q: int|
            0 <= p < two_j + 1 && 0 <= q < two_j + 1 ==> r.at(p, q) == sy_entry(two_j as int, p, q),
{
    let half = c_div(&c_from_int(1, 0), &c_from_int(2, 0));
    j_p(two_j).sub(&j_m(two_j)).scale(&half)
}

/// The three su(2) observables `[s_z, s_x, s_y]` for spin `two_j / 2`.
pub fn gen_su2(two_j: usize) -> (r: Vec<Matrix>)
    requires
        two_j < MAX_DIM,
    ensures
        r@.len() == 3,
        forall|t: int| 0 <= t < 3 ==> (#[trigger] r@[t]).wf() && r@[t].dim() == two_j + 1,
        forall|p: int, q: int|
            0 <= p < two_j + 1 && 0 <= q < two_j + 1 ==> {
                &&& #[trigger] r@[0].at(p, q) == sz_entry(two_j as int, p, q)
                &&& r@[1].at(p, q) == sx_entry(two_j as int, p, q)
                &&& r@[2].at(p, q) == sy_entry(two_j as int, p, q)
            },
{
    let mut v: Vec<Matrix> = Vec::new();
    v.push(s_z(two_j));
    v.push(s_x(two_j));
    v.push(s_y(two_j));
    v
}

/// The sl(2) triplet `[s_z, j_p, j_m]` for spin `two_j / 2`: the diagonal
/// observable with the raising and lowering operators.
pub fn gen_sl2(two_j: usize) -> (r: Vec<Matrix>)
    requires
        two_j < MAX_DIM,
    ensures
        r@.len() == 3,
        forall|t: int| 0 <= t < 3 ==> (#[trigger] r@[t]).wf() && r@[t].dim() == two_j + 1,
        forall|p: int, q: int|
            0 <= p < two_j + 1 && 0 <= q < two_j + 1 ==> {
                &&& #[trigger] r@[0].at(p, q) == sz_entry(two_j as int, p, q)
                &&& r@[1].at(p, q) == jp_entry(two_j as int, p, q)
                &&& r@[2].at(p, q) == jm_entry(two_j as int, p, q)
            },
{
    let mut v: Vec<Matrix> = Vec::new();
    v.push(s_z(two_j));
    v.push(j_p(two_j));
    v.push(j_m(two_j));
    v
}

} // verus!
