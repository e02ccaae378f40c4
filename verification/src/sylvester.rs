//! The clock-and-shift (Sylvester) basis for su(d).
//!
//! The diagonal clock matrix carries the powers of the primitive d-th root
//! of unity; the shift matrix permutes the levels cyclically. The products
//! `clock^a shift^b` over all pairs `(a, b)` other than `(0, 0)` form a
//! discrete Weyl basis of d^2 - 1 matrices spanning the same algebra as the
//! Gell-Mann construction.

use vstd::prelude::*;
use num_complex::Complex64;
use crate::complex::{
    acos_of, add_of, c_acos, c_div, c_exp, c_from_int, c_mul, c_of, div_of, exp_of, mul_of,
};
use crate::matrix::{mm_acc, Matrix, MAX_DIM};
use crate::lie_algebra::LieError;

verus! {

/// The primitive d-th root of unity the clock matrix is built from:
/// `exp(2 pi i / d)`, with pi obtained as the arc cosine of -1.
pub open spec fn omega_val(d: int) -> Complex64 {
    exp_of(div_of(mul_of(c_of(0, 2), acos_of(c_of(-1, 0))), c_of(d, 0)))
}

/// The `k`-th power of the root of unity, by repeated multiplication.
pub open spec fn omega_pow(d: int, k: int) -> Complex64
    decreases k,
{
    if k <= 0 {
        c_of(1, 0)
    } else {
        mul_of(omega_pow(d, k - 1), omega_val(d))
    }
}

/// The identity entry.
pub open spec fn id_entry(p: int, q: int) -> Complex64 {
    if p == q {
        c_of(1, 0)
    } else {
        c_of(0, 0)
    }
}

/// The clock entry: a power of the root of unity on the diagonal.
pub open spec fn clock_entry(d: int, p: int, q: int) -> Complex64 {
    if p == q {
        omega_pow(d, p)
    } else {
        c_of(0, 0)
    }
}

/// The shift entry: one on the cyclic subdiagonal.
pub open spec fn shift_entry(d: int, p: int, q: int) -> Complex64 {
    if p == (q + 1) % d {
        c_of(1, 0)
    } else {
        c_of(0, 0)
    }
}

/// Partial row-by-column sum of the `(a-1)`-th clock power against the
/// clock: the first `k` terms.
pub open spec fn cpow_prod_acc(d: int, a: int, p: int, q: int, k: int) -> Complex64
    decreases a, 0int, k,
{
    if a < 1 || k <= 0 {
        c_of(0, 0)
    } else {
        add_of(
            cpow_prod_acc(d, a, p, q, k - 1),
            mul_of(cpow_entry(d, a - 1, p, k - 1), clock_entry(d, k - 1, q)),
        )
    }
}

/// The entry of the `a`-th clock power.
pub open spec fn cpow_entry(d: int, a: int, p: int, q: int) -> Complex64
    decreases a, 1int, 0int,
{
    if a <= 0 {
        id_entry(p, q)
    } else {
        cpow_prod_acc(d, a, p, q, d)
    }
}

/// Partial row-by-column sum of `clock^a shift^(b-1)` against the shift:
/// the first `k` terms.
pub open spec fn cs_prod_acc(d: int, a: int, b: int, p: int, q: int, k: int) -> Complex64
    decreases b, 0int, k,
{
    if b < 1 || k <= 0 {
        c_of(0, 0)
    } else {
        add_of(
            cs_prod_acc(d, a, b, p, q, k - 1),
            mul_of(cs_entry(d, a, b - 1, p, k - 1), shift_entry(d, k - 1, q)),
        )
    }
}

/// The entry of the basis element `clock^a shift^b`.
pub open spec fn cs_entry(d: int, a: int, b: int, p: int, q: int) -> Complex64
    decreases b, 1int, 0int,
{
    if b <= 0 {
        cpow_entry(d, a, p, q)
    } else {
        cs_prod_acc(d, a, b, p, q, d)
    }
}

/// A product against the clock matches the entrywise power sum.
proof fn lemma_mm_matches_clock(x: &Matrix, cl: &Matrix, d: int, a: int, p: int, q: int, k: int)
    requires
        x.wf(),
        cl.wf(),
        x.dim() == d,
        cl.dim() == d,
        forall|s: int, t: int|
            0 <= s < d && 0 <= t < d ==> #[trigger] x.at(s, t) == cpow_entry(d, a - 1, s, t),
        forall|s: int, t: int|
            0 <= s < d && 0 <= t < d ==> #[trigger] cl.at(s, t) == clock_entry(d, s, t),
        1 <= a,
        0 <= p < d,
        0 <= q < d,
        0 <= k <= d,
    ensures
        mm_acc(x, cl, p, q, k) == cpow_prod_acc(d, a, p, q, k),
    decreases k,
{
    if k > 0 {
        lemma_mm_matches_clock(x, cl, d, a, p, q, k - 1);
    }
}

/// A product against the shift matches the entrywise product sum.
proof fn lemma_mm_matches_shift(
    x: &Matrix,
    sh: &Matrix,
    d: int,
    a: int,
    b: int,
    p: int,
    q: int,
    k: int,
)
    requires
        x.wf(),
        sh.wf(),
        x.dim() == d,
        sh.dim() == d,
        forall|s: int, t: int|
            0 <= s < d && 0 <= t < d ==> #[trigger] x.at(s, t) == cs_entry(d, a, b - 1, s, t),
        forall|s: int, t: int|
            0 <= s < d && 0 <= t < d ==> #[trigger] sh.at(s, t) == shift_entry(d, s, t),
        1 <= b,
        0 <= p < d,
        0 <= q < d,
        0 <= k <= d,
    ensures
        mm_acc(x, sh, p, q, k) == cs_prod_acc(d, a, b, p, q, k),
    decreases k,
{
    if k > 0 {
        lemma_mm_matches_shift(x, sh, d, a, b, p, q, k - 1);
    }
}

fn omega(d: usize) -> (r: Complex64)
    requires
        1 <= d <= MAX_DIM,
    ensures
        r == omega_val(d as int),
{
    let pi = c_acos(&c_from_int(-1, 0));
    let two_i = c_from_int(0, 2);
    c_exp(&c_div(&c_mul(&two_i, &pi), &c_from_int(d as i32, 0)))
}

/// The diagonal clock matrix: entry `(t, t)` is the `t`-th power of the
/// root of unity.
fn clock_matrix(d: usize) -> (m: Matrix)
    requires
        1 <= d <= MAX_DIM,
    ensures
        m.wf(),
        m.dim() == d,
        forall|p: int, q: int|
            0 <= p < d && 0 <= q < d ==> m.at(p, q) == if p == q {
                omega_pow(d as int, p)
            } else {
                c_of(0, 0)
            },
{
    let om = omega(d);
    let mut m = Matrix::zeros(d);
    let mut pw = c_from_int(1, 0);
    let mut t: usize = 0;
    while t < d
        invariant
            m.wf(),
            m.dim() == d,
            1 <= d <= MAX_DIM,
            t <= d,
            om == omega_val(d as int),
            pw == omega_pow(d as int, t as int),
            forall|a: int| 0 <= a < t ==> m.at(a, a) == omega_pow(d as int, a),
            forall|a: int, b: int| 0 <= a < d && 0 <= b < d && a != b ==> m.at(a, b) == c_of(0, 0),
        decreases d - t,
    {
        m.set(t, t, pw);
        pw = c_mul(&pw, &om);
        t = t + 1;
    }
    m
}

/// The cyclic shift matrix: entry `((t + 1) mod d, t)` is one, every other
/// entry zero.
fn shift_matrix(d: usize) -> (m: Matrix)
    requires
        1 <= d <= MAX_DIM,
    ensures
        m.wf(),
        m.dim() == d,
        forall|p: int, q: int|
            0 <= p < d && 0 <= q < d ==> m.at(p, q) == if p == (q + 1) % (d as int) {
                c_of(1, 0)
            } else {
                c_of(0, 0)
            },
{
    let mut m = Matrix::zeros(d);
    let mut t: usize = 0;
    while t < d
        invariant
            m.wf(),
            m.dim() == d,
            1 <= d <= MAX_DIM,
            t <= d,
            forall|p: int, q: int|
                0 <= p < d && 0 <= q < t ==> m.at(p, q) == if p == (q + 1) % (d as int) {
                    c_of(1, 0)
                } else {
                    c_of(0, 0)
                },
            forall|p: int, q: int|
                0 <= p < d && t <= q < d ==> m.at(p, q) == c_of(0, 0),
        decreases d - t,
    {
        let row = (t + 1) % d;
        m.set(row, t, c_from_int(1, 0));
        t = t + 1;
    }
    m
}

/// Returns the clock-and-shift basis of su(d): the products
/// `clock^a shift^b` for every pair `(a, b)` in `0..d` except `(0, 0)`,
/// in row-major pair order, so d^2 - 1 matrices of dimension d.
pub fn gen_sylvester(d: usize) -> (r: Result<Vec<Matrix>, LieError>)
    requires
        d <= MAX_DIM,
    ensures
        match r {
            Ok(v) => {
                &&& d >= 1
                &&& v@.len() == d * d - 1
                &&& forall|t: int| 0 <= t < v@.len() ==> (#[trigger] v@[t]).wf() && v@[t].dim() == d
                &&& forall|aa: int, bb: int, p: int, q: int|
                    0 <= aa < d && 0 <= bb < d && !(aa == 0 && bb == 0) && 0 <= p < d && 0 <= q < d
                        ==> #[trigger] v@[aa * d + bb - 1].at(p, q) == cs_entry(
                        d as int,
                        aa,
                        bb,
                        p,
                        q,
                    )
            },
            Err(e) => e == LieError::InvalidParameter && d == 0,
        },
{
    if d == 0 {
        return Err(LieError::InvalidParameter);
    }
    proof {
        assert(1 <= d * d && d * d <= 2147395600) by (nonlinear_arith)
            requires 1 <= d <= 46340;
    }
    let clock = clock_matrix(d);
    let shift = shift_matrix(d);
    let mut v: Vec<Matrix> = Vec::new();
    let mut ca = Matrix::identity(d);
    let mut a: usize = 0;
    while a < d
        invariant
            1 <= d <= MAX_DIM,
            clock.wf(),
            clock.dim() == d,
            forall|s: int, t: int|
                0 <= s < d && 0 <= t < d ==> #[trigger] clock.at(s, t) == clock_entry(d as int, s, t),
            shift.wf(),
            shift.dim() == d,
            forall|s: int, t: int|
                0 <= s < d && 0 <= t < d ==> #[trigger] shift.at(s, t) == shift_entry(d as int, s, t),
            ca.wf(),
            ca.dim() == d,
            forall|s: int, t: int|
                0 <= s < d && 0 <= t < d ==> #[trigger] ca.at(s, t) == cpow_entry(d as int, a as int, s, t),
            a <= d,
            a == 0 ==> v@.len() == 0,
            a >= 1 ==> v@.len() == a * d - 1,
            forall|t: int| 0 <= t < v@.len() ==> (#[trigger] v@[t]).wf() && v@[t].dim() == d,
            forall|aa: int, bb: int, p: int, q: int|
                0 <= aa < a && 0 <= bb < d && !(aa == 0 && bb == 0) && 0 <= p < d && 0 <= q < d
                    ==> #[trigger] v@[aa * d + bb - 1].at(p, q) == cs_entry(d as int, aa, bb, p, q),
        decreases d - a,
    {
        let mut cab = ca.duplicate();
        let mut b: usize = 0;
        while b < d
            invariant
                1 <= d <= MAX_DIM,
                shift.wf(),
                shift.dim() == d,
                forall|s: int, t: int|
                    0 <= s < d && 0 <= t < d ==> #[trigger] shift.at(s, t) == shift_entry(
                        d as int,
                        s,
                        t,
                    ),
                cab.wf(),
                cab.dim() == d,
                forall|s: int, t: int|
                    0 <= s < d && 0 <= t < d ==> #[trigger] cab.at(s, t) == cs_entry(
                        d as int,
                        a as int,
                        b as int,
                        s,
                        t,
                    ),
                a < d,
                b <= d,
                a == 0 ==> v@.len() == (if b == 0 { 0int } else { b - 1 }),
                a >= 1 ==> v@.len() == a * d + b - 1,
                forall|t: int| 0 <= t < v@.len() ==> (#[trigger] v@[t]).wf() && v@[t].dim() == d,
                forall|aa: int, bb: int, p: int, q: int|
                    0 <= aa < a && 0 <= bb < d && !(aa == 0 && bb == 0) && 0 <= p < d && 0 <= q < d
                        ==> #[trigger] v@[aa * d + bb - 1].at(p, q) == cs_entry(
                        d as int,
                        aa,
                        bb,
                        p,
                        q,
                    ),
                forall|bb: int, p: int, q: int|
                    0 <= bb < b && !(a == 0 && bb == 0) && 0 <= p < d && 0 <= q < d
                        ==> #[trigger] v@[a * d + bb - 1].at(p, q) == cs_entry(
                        d as int,
                        a as int,
                        bb,
                        p,
                        q,
                    ),
            decreases d - b,
        {
            if a != 0 || b != 0 {
                let ghost vbefore = v@;
                v.push(cab.duplicate());
                proof {
                    assert forall|aa: int, bb: int, p: int, q: int|
                        0 <= aa < a && 0 <= bb < d && !(aa == 0 && bb == 0) && 0 <= p < d && 0 <= q
                            < d implies #[trigger] v@[aa * d + bb - 1].at(p, q) == cs_entry(
                        d as int,
                        aa,
                        bb,
                        p,
                        q,
                    ) by {
                        assert(0 <= aa * d + bb - 1 && aa * d + bb - 1 < a * d + b - 1 && a * d + b
                            - 1 < a * d + d) by (nonlinear_arith)
                            requires 0 <= aa < a, 0 <= bb < d, !(aa == 0 && bb == 0), 0 <= b < d,
                            1 <= d;
                        assert(v@[aa * d + bb - 1] == vbefore[aa * d + bb - 1]);
                    }
                    assert forall|bb: int, p: int, q: int|
                        0 <= bb < b + 1 && !(a == 0 && bb == 0) && 0 <= p < d && 0 <= q < d
                            implies #[trigger] v@[a * d + bb - 1].at(p, q) == cs_entry(
                        d as int,
                        a as int,
                        bb,
                        p,
                        q,
                    ) by {
                        assert(0 <= a * d + bb - 1 && a * d + bb - 1 <= a * d + b - 1)
                            by (nonlinear_arith)
                            requires 0 <= a, 0 <= bb <= b, !(a == 0 && bb == 0), 1 <= d;
                        if bb < b {
                            assert(v@[a * d + bb - 1] == vbefore[a * d + bb - 1]);
                        } else {
                            assert(v@[a * d + bb - 1].at(p, q) == cab.at(p, q));
                        }
                    }
                }
            }
            let next = cab.matmul(&shift);
            proof {
                assert forall|s: int, t: int|
                    0 <= s < d && 0 <= t < d implies #[trigger] next.at(s, t) == cs_entry(
                    d as int,
                    a as int,
                    b as int + 1,
                    s,
                    t,
                ) by {
                    lemma_mm_matches_shift(
                        &cab,
                        &shift,
                        d as int,
                        a as int,
                        b as int + 1,
                        s,
                        t,
                        d as int,
                    );
                }
            }
            cab = next;
            b = b + 1;
        }
        proof {
            assert((a + 1) * d == a * d + d) by (nonlinear_arith);
            assert(a >= 1 ==> a * d >= d) by (nonlinear_arith);
        }
        let next_ca = ca.matmul(&clock);
        proof {
            assert forall|s: int, t: int|
                0 <= s < d && 0 <= t < d implies #[trigger] next_ca.at(s, t) == cpow_entry(
                d as int,
                a as int + 1,
                s,
                t,
            ) by {
                lemma_mm_matches_clock(&ca, &clock, d as int, a as int + 1, s, t, d as int);
            }
        }
        ca = next_ca;
        a = a + 1;
    }
    Ok(v)
}

} // verus!
