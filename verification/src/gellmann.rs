//! Generalized Gell-Mann matrices: a basis for su(d).

use vstd::prelude::*;
use num_complex::Complex64;
use crate::complex::{c_div, c_from_int, c_mul, c_neg, c_of, c_sqrt, div_of, mul_of, neg_of, sqrt_of};
use crate::matrix::{Matrix, MAX_DIM};
use crate::lie_algebra::LieError;

verus! {

/// The normalization of the diagonal Gell-Mann element for index `j`:
/// the square root of `2 / (j (j + 1))`.
pub open spec fn gm_norm_val(j: int) -> Complex64 {
    sqrt_of(div_of(c_of(2, 0), c_of(j * (j + 1), 0)))
}

/// The unnormalized diagonal of the Gell-Mann element for index `j`:
/// ones in the first `j` slots, `-j` in slot `j`, zero beyond.
pub open spec fn gm_diag_val(j: int, p: int) -> Complex64 {
    if p < j {
        c_of(1, 0)
    } else if p == j {
        c_of(-j, 0)
    } else {
        c_of(0, 0)
    }
}

/// The entry of the Gell-Mann element for ordered index pair `(j, k)` in a
/// d-dimensional representation, at row `r`, column `c` (all entries of the
/// symmetric, antisymmetric and diagonal families; identity when `j == k == d`).
pub open spec fn gm_entry(j: int, k: int, d: int, r: int, c: int) -> Complex64 {
    if j > k {
        if (r == j - 1 && c == k - 1) || (r == k - 1 && c == j - 1) {
            c_of(1, 0)
        } else {
            c_of(0, 0)
        }
    } else if k > j {
        if r == j - 1 && c == k - 1 {
            neg_of(c_of(0, 1))
        } else if r == k - 1 && c == j - 1 {
            c_of(0, 1)
        } else {
            c_of(0, 0)
        }
    } else if j < d {
        if r == c {
            mul_of(gm_norm_val(j), gm_diag_val(j, r))
        } else {
            c_of(0, 0)
        }
    } else {
        if r == c {
            c_of(1, 0)
        } else {
            c_of(0, 0)
        }
    }
}

/// Constructs one generalized Gell-Mann matrix for the ordered pair `(j, k)`,
/// with `1 <= j, k <= d`: symmetric for `j > k`, antisymmetric for `j < k`,
/// normalized diagonal for `j == k < d`, identity for `j == k == d`.
pub fn gellmann(j: usize, k: usize, d: usize) -> (r: Matrix)
    requires
        1 <= j <= d,
        1 <= k <= d,
        d <= MAX_DIM,
    ensures
        r.wf(),
        r.dim() == d,
        forall|p: int, q: int|
            0 <= p < d && 0 <= q < d ==> r.at(p, q) == gm_entry(j as int, k as int, d as int, p, q),
{
    let mut m = Matrix::zeros(d);
    if j > k {
        m.set(j - 1, k - 1, c_from_int(1, 0));
        m.set(k - 1, j - 1, c_from_int(1, 0));
        m
    } else if k > j {
        let i1 = c_from_int(0, 1);
        m.set(j - 1, k - 1, c_neg(&i1));
        m.set(k - 1, j - 1, c_from_int(0, 1));
        m
    } else if j < d {
        proof {
            assert(j * (j + 1) <= 2147395600 + 46340) by (nonlinear_arith)
                requires j <= 46340;
        }
        let prod: usize = j * (j + 1);
        let norm = c_sqrt(&c_div(&c_from_int(2, 0), &c_from_int(prod as i32, 0)));
        let mut p: usize = 0;
        while p < d
            invariant
                m.wf(),
                m.dim() == d,
                d <= MAX_DIM,
                1 <= j < d,
                p <= d,
                norm == gm_norm_val(j as int),
                forall|a: int| 0 <= a < p ==> m.at(a, a) == mul_of(gm_norm_val(j as int), gm_diag_val(j as int, a)),
                forall|a: int, b: int| 0 <= a < d && 0 <= b < d && a != b ==> m.at(a, b) == c_of(0, 0),
            decreases d - p,
        {
            let dv = if p < j {
                c_from_int(1, 0)
            } else if p == j {
                c_from_int(0 - (j as i32), 0)
            } else {
                c_from_int(0, 0)
            };
            m.set(p, p, c_mul(&norm, &dv));
            p = p + 1;
        }
        m
    } else {
        let mut p: usize = 0;
        while p < d
            invariant
                m.wf(),
                m.dim() == d,
                d <= MAX_DIM,
                p <= d,
                forall|a: int| 0 <= a < p ==> m.at(a, a) == c_of(1, 0),
                forall|a: int, b: int| 0 <= a < d && 0 <= b < d && a != b ==> m.at(a, b) == c_of(0, 0),
            decreases d - p,
        {
            m.set(p, p, c_from_int(1, 0));
            p = p + 1;
        }
        m
    }
}

/// The entry of the `idx`-th element of the Gell-Mann basis: the imaginary
/// unit times the Gell-Mann matrix for the pair the index encodes row-major.
pub open spec fn gg_el_entry(idx: int, d: int, r: int, c: int) -> Complex64 {
    mul_of(c_of(0, 1), gm_entry(idx / d + 1, idx % d + 1, d, r, c))
}

/// Returns the basis of su(d) given by the d^2 - 1 generalized Gell-Mann
/// matrices, each multiplied by the imaginary unit (so the basis is
/// anti-Hermitian); the identity element is excluded.
pub fn gen_gellmann(d: usize) -> (r: Result<Vec<Matrix>, LieError>)
    requires
        d <= MAX_DIM,
    ensures
        match r {
            Ok(v) => {
                &&& d >= 1
                &&& v@.len() == d * d - 1
                &&& forall|t: int| 0 <= t < v@.len() ==> (#[trigger] v@[t]).wf() && v@[t].dim() == d
                &&& forall|t: int, p: int, q: int|
                    0 <= t < v@.len() && 0 <= p < d && 0 <= q < d
                        ==> #[trigger] v@[t].at(p, q) == gg_el_entry(t, d as int, p, q)
            },
            Err(e) => e == LieError::InvalidParameter && d == 0,
        },
{
    if d == 0 {
        return Err(LieError::InvalidParameter);
    }
    proof {
        assert(1 <= d * d && d * d <= 2147395600) by (nonlinear_arith)
            requires 1 <= d <= 46340;
    }
    let total: usize = d * d - 1;
    let mut v: Vec<Matrix> = Vec::new();
    let mut idx: usize = 0;
    while idx < total
        invariant
            1 <= d <= MAX_DIM,
            total == d * d - 1,
            idx <= total,
            v@.len() == idx,
            forall|t: int| 0 <= t < idx ==> (#[trigger] v@[t]).wf() && v@[t].dim() == d,
            forall|t: int, p: int, q: int|
                0 <= t < idx && 0 <= p < d && 0 <= q < d
                    ==> #[trigger] v@[t].at(p, q) == gg_el_entry(t, d as int, p, q),
        decreases total - idx,
    {
        proof {
            assert(idx / d < d && idx % d < d) by (nonlinear_arith)
                requires 0 <= idx, idx < d * d, d >= 1;
        }
        let j: usize = idx / d + 1;
        let k: usize = idx % d + 1;
        // The identity pair (d, d) is the excluded last index and never reached.
        let el = gellmann(j, k, d).scale(&c_from_int(0, 1));
        v.push(el);
        idx = idx + 1;
    }
    Ok(v)
}

} // verus!
