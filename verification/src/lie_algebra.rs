//! Structure-constant recovery and the bracket algebra over a basis.
//!
//! Given an ordered basis of n-by-n matrices, the solver flattens the basis
//! into the columns of a design matrix and, for every ordered pair of basis
//! indices, decomposes the commutator (or anticommutator) of the pair over
//! the basis by least squares, via the normal equations of the design matrix.
//! Entries whose coefficient is numerically significant go into the sparse
//! coefficient table; a pair with more than one significant coefficient is
//! recorded as a degenerate decomposition and reported alongside the table.
//!
//! The bracket algebra reconstructs commutator and anticommutator products of
//! coordinate vectors from the table, either as an explicit matrix over the
//! basis or directly in coordinate space.

use vstd::prelude::*;
use num_complex::Complex64;
use crate::complex::{
    add_of, c_abs_diff_ne, c_add, c_conj, c_div, c_from_int, c_mul, c_norm, c_of, c_sub, conj_of,
    default_tol_val, default_tolerance, div_of, mul_of, norm_significant, significant, sub_of,
};
use crate::matrix::{lemma_index_in_range, mm_entry, Matrix, MAX_DIM};
use crate::table::{lemma_lookup_bounds, CoefficientTable, TableEntry};

verus! {

/// The error kinds of the crate, detected eagerly at the API boundary.
#[derive(Clone, Copy, PartialEq, Eq, Structural, Debug)]
pub enum LieError {
    /// A non-positive dimension or an otherwise meaningless parameter.
    InvalidParameter,
    /// Basis elements of differing size, or a coordinate vector whose length
    /// does not match the basis length.
    DimensionMismatch,
    /// The decomposition could not be carried out at all: the factorization
    /// of the basis Gram matrix met a pivot below the tolerance, so the
    /// supplied basis is not linearly independent to within it. A single
    /// pair whose own decomposition has more than one significant
    /// coefficient is not this error: such pairs are reported in
    /// `SolveOutcome::degenerate_pairs` beside a best-effort table.
    DegenerateDecomposition,
}

/// An empty basis, or one of zero-dimensional elements.
pub open spec fn invalid_basis(s: Seq<Matrix>) -> bool {
    s.len() == 0 || s[0].dim() == 0
}

/// Some element's size differs from the first element's.
pub open spec fn mismatched_basis(s: Seq<Matrix>) -> bool {
    exists|t: int| 0 <= t < s.len() && (#[trigger] s[t].dim()) != s[0].dim()
}

/// Every element is a well-formed matrix.
pub open spec fn basis_wf(s: Seq<Matrix>) -> bool {
    forall|t: int| 0 <= t < s.len() ==> (#[trigger] s[t]).wf()
}

/// The result of a solver run: the best-effort coefficient table, and the
/// ordered pairs whose decomposition had more than one significant
/// coefficient (the basis then lacks the single-generator closure the sparse
/// table shape assumes).
#[derive(Debug)]
pub struct SolveOutcome {
    pub table: CoefficientTable,
    pub degenerate_pairs: Vec<(usize, usize)>,
}

fn check_basis(basis: &Vec<Matrix>) -> (r: Result<usize, LieError>)
    requires
        basis_wf(basis@),
    ensures
        match r {
            Ok(n) => {
                &&& !invalid_basis(basis@)
                &&& !mismatched_basis(basis@)
                &&& basis@.len() >= 1
                &&& n == basis@[0].dim()
                &&& 1 <= n <= MAX_DIM
            },
            Err(e) => {
                ||| (e == LieError::InvalidParameter && invalid_basis(basis@))
                ||| (e == LieError::DimensionMismatch && !invalid_basis(basis@) && mismatched_basis(
                    basis@,
                ))
            },
        },
{
    if basis.len() == 0 {
        return Err(LieError::InvalidParameter);
    }
    let n = basis[0].size();
    if n == 0 {
        return Err(LieError::InvalidParameter);
    }
    let mut t: usize = 1;
    while t < basis.len()
        invariant
            basis_wf(basis@),
            1 <= t <= basis@.len(),
            n == basis@[0].dim(),
            n >= 1,
            forall|a: int| 0 <= a < t ==> (#[trigger] basis@[a].dim()) == n,
        decreases basis@.len() - t,
    {
        if basis[t].size() != n {
            return Err(LieError::DimensionMismatch);
        }
        t = t + 1;
    }
    Ok(n)
}

/// Scans a least-squares solution vector for significant coefficients:
/// returns the first one, if any, together with whether a second one exists
/// (the degenerate case).
pub fn classify_solution(x: &Vec<Complex64>, tol: &Complex64) -> (r: (
    Option<(usize, Complex64)>,
    bool,
))
    ensures
        match r.0 {
            Some(p) => {
                &&& p.0 < x@.len()
                &&& significant(x@[p.0 as int], *tol)
                &&& x@[p.0 as int] == p.1
                &&& forall|t: int| 0 <= t < p.0 ==> !significant(x@[t], *tol)
            },
            None => forall|t: int| 0 <= t < x@.len() ==> !significant(x@[t], *tol),
        },
        r.1 == exists|t1: int, t2: int|
            0 <= t1 < t2 < x@.len() && significant(x@[t1], *tol) && significant(x@[t2], *tol),
{
    let zero = c_from_int(0, 0);
    let mut first: Option<(usize, Complex64)> = None;
    let mut degen: bool = false;
    let mut t: usize = 0;
    while t < x.len()
        invariant
            t <= x@.len(),
            zero == c_of(0, 0),
            match first {
                Some(p) => {
                    &&& p.0 < t
                    &&& significant(x@[p.0 as int], *tol)
                    &&& x@[p.0 as int] == p.1
                    &&& forall|a: int| 0 <= a < p.0 ==> !significant(x@[a], *tol)
                    &&& (degen <==> exists|a: int|
                        p.0 < a < t && significant(x@[a], *tol))
                },
                None => !degen && forall|a: int| 0 <= a < t ==> !significant(x@[a], *tol),
            },
        decreases x@.len() - t,
    {
        if c_abs_diff_ne(&x[t], &zero, tol) {
            match first {
                None => {
                    first = Some((t, x[t]));
                },
                Some(_) => {
                    degen = true;
                },
            }
        }
        t = t + 1;
    }
    proof {
        if first is Some {
            let pair = first->0;
            let p0 = pair.0 as int;
            if degen {
                let a = choose|a: int| p0 < a < x@.len() && significant(x@[a], *tol);
                assert(significant(x@[p0], *tol) && significant(x@[a], *tol) && 0 <= p0 < a
                    < x@.len());
            } else {
                assert forall|t1: int, t2: int|
                    0 <= t1 < t2 < x@.len() && significant(x@[t1], *tol) implies !significant(
                    x@[t2],
                    *tol,
                ) by {}
            }
        }
    }
    (first, degen)
}

/// Partial inner product of two flattened basis columns: the first `t`
/// terms of the conjugated column `r` against column `c` of the design
/// matrix.
pub open spec fn gram_acc(basis: Seq<Matrix>, r: int, c: int, t: int) -> Complex64
    decreases t,
{
    if t <= 0 {
        c_of(0, 0)
    } else {
        add_of(
            gram_acc(basis, r, c, t - 1),
            mul_of(conj_of(basis[r].entries()[t - 1]), basis[c].entries()[t - 1]),
        )
    }
}

/// The Gram matrix of the design matrix whose columns are the flattened
/// basis elements, as a flat row-major sequence.
pub open spec fn gram_seq(basis: Seq<Matrix>, n: int, m: int) -> Seq<Complex64> {
    Seq::new((m * m) as nat, |idx: int| gram_acc(basis, idx / m, idx % m, n * n))
}

/// Partial inner product of conjugated flattened basis column `c` with a
/// target vector: the first `t` terms.
pub open spec fn rhs_acc(basis: Seq<Matrix>, b: Seq<Complex64>, c: int, t: int) -> Complex64
    decreases t,
{
    if t <= 0 {
        c_of(0, 0)
    } else {
        add_of(rhs_acc(basis, b, c, t - 1), mul_of(conj_of(basis[c].entries()[t - 1]), b[t - 1]))
    }
}

/// The flattened commutator (anticommutator when `anti`) of basis pair
/// `(i, j)`.
pub open spec fn target_seq(basis: Seq<Matrix>, n: int, i: int, j: int, anti: bool) -> Seq<
    Complex64,
> {
    Seq::new(
        (n * n) as nat,
        |t: int|
            if anti {
                add_of(
                    mm_entry(&basis[i], &basis[j], t / n, t % n),
                    mm_entry(&basis[j], &basis[i], t / n, t % n),
                )
            } else {
                sub_of(
                    mm_entry(&basis[i], &basis[j], t / n, t % n),
                    mm_entry(&basis[j], &basis[i], t / n, t % n),
                )
            },
    )
}

/// The normal-equations right-hand side for pair `(i, j)`.
pub open spec fn rhs_seq(basis: Seq<Matrix>, n: int, m: int, i: int, j: int, anti: bool) -> Seq<
    Complex64,
> {
    Seq::new(m as nat, |c: int| rhs_acc(basis, target_seq(basis, n, i, j, anti), c, n * n))
}

/// One partial Doolittle sum: entry `(r, c)` of the matrix minus its first
/// `t` elimination products.
pub open spec fn lu_sum(g: Seq<Complex64>, m: int, r: int, c: int, t: int) -> Complex64
    decreases r + c, 0int, t,
{
    if r < 0 || c < 0 || t <= 0 {
        g[r * m + c]
    } else if t - 1 >= r || t - 1 >= c {
        lu_sum(g, m, r, c, t - 1)
    } else {
        sub_of(lu_sum(g, m, r, c, t - 1), mul_of(lu_val(g, m, r, t - 1), lu_val(g, m, t - 1, c)))
    }
}

/// The Doolittle factorization of a matrix, cell by cell: on and above the
/// diagonal the eliminated entry, below it the multiplier. These are the
/// values in-place Gaussian elimination computes, operation for operation.
pub open spec fn lu_val(g: Seq<Complex64>, m: int, r: int, c: int) -> Complex64
    decreases r + c, 1int, 0int,
{
    if r < 0 || c < 0 {
        c_of(0, 0)
    } else if r <= c {
        lu_sum(g, m, r, c, r)
    } else {
        div_of(lu_sum(g, m, r, c, c), lu_val(g, m, c, c))
    }
}

/// Forward substitution through the unit lower triangle, partially:
/// `y[r]` minus the first `c` products.
pub open spec fn fwd_part(lu: Seq<Complex64>, m: int, y: Seq<Complex64>, r: int, c: int) -> Complex64
    decreases r, c,
{
    if r < 0 || c <= 0 {
        y[r]
    } else if c > r {
        fwd_part(lu, m, y, r, c - 1)
    } else {
        sub_of(
            fwd_part(lu, m, y, r, c - 1),
            mul_of(lu[r * m + (c - 1)], fwd_part(lu, m, y, c - 1, c - 1)),
        )
    }
}

/// Back substitution, partially: the forward value of row `r` minus the
/// products for columns `r + 1` up to `c`.
pub open spec fn back_part(lu: Seq<Complex64>, m: int, y: Seq<Complex64>, r: int, c: int) -> Complex64
    decreases m - r, 0int, c,
{
    if r < 0 || r >= m || c <= r + 1 {
        fwd_part(lu, m, y, r, r)
    } else if c > m {
        back_part(lu, m, y, r, c - 1)
    } else {
        sub_of(back_part(lu, m, y, r, c - 1), mul_of(lu[r * m + (c - 1)], back_val(lu, m, y, c - 1)))
    }
}

/// The solution of the factored system at coordinate `r`.
pub open spec fn back_val(lu: Seq<Complex64>, m: int, y: Seq<Complex64>, r: int) -> Complex64
    decreases m - r, 1int, 0int,
{
    div_of(back_part(lu, m, y, r, m), lu[r * m + r])
}

/// The least-squares coefficient of basis element `k` in the decomposition
/// of the bracket of pair `(i, j)`: the flattened bracket is decomposed
/// over the design matrix by the normal equations, factored and solved.
pub open spec fn pair_coeff(basis: Seq<Matrix>, anti: bool, i: int, j: int, k: int) -> Complex64 {
    let n = basis[0].dim();
    let m = basis.len() as int;
    let lu = Seq::new((m * m) as nat, |idx: int| lu_val(gram_seq(basis, n, m), m, idx / m, idx % m));
    back_val(lu, m, rhs_seq(basis, n, m, i, j, anti), k)
}

/// Whether the factorization of the basis Gram matrix meets a pivot below
/// the tolerance, so that no decomposition can be solved at all.
pub open spec fn gram_degenerate(basis: Seq<Matrix>, tol: Complex64) -> bool {
    exists|k: int|
        0 <= k < basis.len() && !significant(
            lu_val(gram_seq(basis, basis[0].dim(), basis.len() as int), basis.len() as int, k, k),
            tol,
        )
}

/// What the solver records for one ordered pair: the first significant
/// least-squares coefficient of the pair when one exists and nothing
/// otherwise, and the pair listed as degenerate exactly when a second
/// significant coefficient exists.
pub open spec fn pair_recorded(
    tab: &CoefficientTable,
    degs: Seq<(usize, usize)>,
    basis: Seq<Matrix>,
    anti: bool,
    tol: Complex64,
    i: usize,
    j: usize,
) -> bool {
    &&& match tab.spec_get(i as int, j as int) {
        Some(kf) => {
            &&& 0 <= kf.0 < basis.len()
            &&& kf.1 == pair_coeff(basis, anti, i as int, j as int, kf.0)
            &&& significant(kf.1, tol)
            &&& forall|k2: int|
                0 <= k2 < kf.0 ==> !significant(pair_coeff(basis, anti, i as int, j as int, k2), tol)
        },
        None => forall|k2: int|
            0 <= k2 < basis.len() ==> !significant(
                pair_coeff(basis, anti, i as int, j as int, k2),
                tol,
            ),
    }
    &&& (degs.contains((i, j)) <==> exists|k1: int, k2: int|
        0 <= k1 < k2 < basis.len() && significant(pair_coeff(basis, anti, i as int, j as int, k1), tol)
            && significant(pair_coeff(basis, anti, i as int, j as int, k2), tol))
}

/// Pushing onto a sequence adds exactly one member.
proof fn lemma_push_contains(s: Seq<(usize, usize)>, p: (usize, usize), x: (usize, usize))
    ensures
        s.push(p).contains(x) <==> (s.contains(x) || x == p),
{
    if s.push(p).contains(x) {
        let idx = choose|idx: int| 0 <= idx < s.push(p).len() && s.push(p)[idx] == x;
        if idx < s.len() {
            assert(s[idx] == x);
        }
    }
    if s.contains(x) {
        let idx = choose|idx: int| 0 <= idx < s.len() && s[idx] == x;
        assert(s.push(p)[idx] == x);
    }
    if x == p {
        assert(s.push(p)[s.len() as int] == x);
    }
}

fn build_gram(basis: &Vec<Matrix>, n: usize, m: usize) -> (g: Vec<Complex64>)
    requires
        basis_wf(basis@),
        m == basis@.len(),
        1 <= m <= MAX_DIM,
        1 <= n <= MAX_DIM,
        forall|t: int| 0 <= t < basis@.len() ==> (#[trigger] basis@[t].dim()) == n,
    ensures
        g@ == gram_seq(basis@, n as int, m as int),
{
    proof {
        lemma_index_in_range(0, 0, m as int);
        lemma_index_in_range(0, 0, n as int);
    }
    let nn: usize = n * n;
    let mut g: Vec<Complex64> = Vec::new();
    let mut r: usize = 0;
    while r < m
        invariant
            basis_wf(basis@),
            m == basis@.len(),
            1 <= m <= MAX_DIM,
            1 <= n <= MAX_DIM,
            nn == n * n,
            forall|t: int| 0 <= t < basis@.len() ==> (#[trigger] basis@[t].dim()) == n,
            r <= m,
            g@.len() == r * m,
            forall|rr: int, cc: int|
                0 <= rr < r && 0 <= cc < m ==> #[trigger] g@[rr * m + cc] == gram_acc(
                    basis@,
                    rr,
                    cc,
                    (n * n) as int,
                ),
        decreases m - r,
    {
        let mut c: usize = 0;
        while c < m
            invariant
                basis_wf(basis@),
                m == basis@.len(),
                1 <= m <= MAX_DIM,
                1 <= n <= MAX_DIM,
                nn == n * n,
                forall|t: int| 0 <= t < basis@.len() ==> (#[trigger] basis@[t].dim()) == n,
                r < m,
                c <= m,
                g@.len() == r * m + c,
                forall|rr: int, cc: int|
                    0 <= rr < r && 0 <= cc < m ==> #[trigger] g@[rr * m + cc] == gram_acc(
                        basis@,
                        rr,
                        cc,
                        (n * n) as int,
                    ),
                forall|cc: int|
                    0 <= cc < c ==> #[trigger] g@[r * m + cc] == gram_acc(basis@, r as int, cc, (n * n) as int),
            decreases m - c,
        {
            let col_r = basis[r].entries_vec();
            let col_c = basis[c].entries_vec();
            let mut acc = c_from_int(0, 0);
            let mut t: usize = 0;
            while t < nn
                invariant
                    col_r@.len() == nn,
                    col_c@.len() == nn,
                    col_r@ == basis@[r as int].entries(),
                    col_c@ == basis@[c as int].entries(),
                    t <= nn,
                    acc == gram_acc(basis@, r as int, c as int, t as int),
                decreases nn - t,
            {
                acc = c_add(&acc, &c_mul(&c_conj(&col_r[t]), &col_c[t]));
                t = t + 1;
            }
            let ghost gbefore = g@;
            g.push(acc);
            c = c + 1;
            proof {
                assert forall|rr: int, cc: int|
                    0 <= rr < r && 0 <= cc < m implies #[trigger] g@[rr * m + cc] == gram_acc(
                    basis@,
                    rr,
                    cc,
                    (n * n) as int,
                ) by {
                    assert(0 <= rr * m + cc && rr * m + cc < r * m) by (nonlinear_arith)
                        requires 0 <= rr < r, 0 <= cc < m;
                    assert(g@[rr * m + cc] == gbefore[rr * m + cc]);
                }
                assert forall|cc: int|
                    0 <= cc < c implies #[trigger] g@[r * m + cc] == gram_acc(
                    basis@,
                    r as int,
                    cc,
                    (n * n) as int,
                ) by {
                    if cc < c - 1 {
                        assert(g@[r * m + cc] == gbefore[r * m + cc]);
                    }
                }
            }
        }
        proof {
            assert((r + 1) * m == r * m + m) by (nonlinear_arith);
        }
        r = r + 1;
    }
    proof {
        assert forall|idx: int| 0 <= idx < m * m implies g@[idx] == gram_seq(
            basis@,
            n as int,
            m as int,
        )[idx] by {
            let rr = idx / (m as int);
            let cc = idx % (m as int);
            assert(0 <= rr < m && 0 <= cc < m) by (nonlinear_arith)
                requires 0 <= idx < m * m, 1 <= m, rr == idx / (m as int), cc == idx % (m as int);
            vstd::arithmetic::div_mod::lemma_fundamental_div_mod(idx, m as int);
            assert(rr * m + cc == idx);
            assert(g@[rr * m + cc] == gram_acc(basis@, rr, cc, (n * n) as int));
        }
        assert(g@ =~= gram_seq(basis@, n as int, m as int));
    }
    g
}

fn rhs_for(basis: &Vec<Matrix>, target: &Matrix, n: usize, m: usize) -> (y: Vec<Complex64>)
    requires
        basis_wf(basis@),
        m == basis@.len(),
        1 <= m <= MAX_DIM,
        1 <= n <= MAX_DIM,
        forall|t: int| 0 <= t < basis@.len() ==> (#[trigger] basis@[t].dim()) == n,
        target.wf(),
        target.dim() == n,
    ensures
        y@.len() == m,
        forall|c: int|
            0 <= c < m ==> y@[c] == rhs_acc(basis@, target.entries(), c, (n * n) as int),
{
    proof {
        lemma_index_in_range(0, 0, n as int);
    }
    let nn: usize = n * n;
    let b = target.entries_vec();
    let mut y: Vec<Complex64> = Vec::new();
    let mut c: usize = 0;
    while c < m
        invariant
            basis_wf(basis@),
            m == basis@.len(),
            1 <= n <= MAX_DIM,
            nn == n * n,
            forall|t: int| 0 <= t < basis@.len() ==> (#[trigger] basis@[t].dim()) == n,
            b@.len() == nn,
            b@ == target.entries(),
            c <= m,
            y@.len() == c,
            forall|cc: int|
                0 <= cc < c ==> y@[cc] == rhs_acc(basis@, target.entries(), cc, (n * n) as int),
        decreases m - c,
    {
        let col_c = basis[c].entries_vec();
        let mut acc = c_from_int(0, 0);
        let mut t: usize = 0;
        while t < nn
            invariant
                col_c@.len() == nn,
                col_c@ == basis@[c as int].entries(),
                b@.len() == nn,
                b@ == target.entries(),
                t <= nn,
                acc == rhs_acc(basis@, target.entries(), c as int, t as int),
            decreases nn - t,
        {
            acc = c_add(&acc, &c_mul(&c_conj(&col_c[t]), &b[t]));
            t = t + 1;
        }
        y.push(acc);
        c = c + 1;
    }
    y
}

fn lu_factor(g: &Vec<Complex64>, m: usize, tol: &Complex64) -> (res: Option<Vec<Complex64>>)
    requires
        g@.len() == m * m,
        1 <= m <= MAX_DIM,
    ensures
        match res {
            Some(lu) => {
                &&& lu@.len() == m * m
                &&& forall|r: int, c: int|
                    0 <= r < m && 0 <= c < m ==> #[trigger] lu@[r * m + c] == lu_val(g@, m as int, r, c)
                &&& forall|k: int| 0 <= k < m ==> significant(lu_val(g@, m as int, k, k), *tol)
            },
            None => exists|k: int| 0 <= k < m && !significant(lu_val(g@, m as int, k, k), *tol),
        },
{
    let zero = c_from_int(0, 0);
    let mut lu: Vec<Complex64> = Vec::new();
    let mut r: usize = 0;
    while r < m
        invariant
            g@.len() == m * m,
            1 <= m <= MAX_DIM,
            zero == c_of(0, 0),
            r <= m,
            lu@.len() == r * m,
            forall|rr: int, cc: int|
                0 <= rr < r && 0 <= cc < m ==> #[trigger] lu@[rr * m + cc] == lu_val(g@, m as int, rr, cc),
            forall|k: int| 0 <= k < r ==> significant(lu_val(g@, m as int, k, k), *tol),
        decreases m - r,
    {
        let mut c: usize = 0;
        while c < m
            invariant
                g@.len() == m * m,
                1 <= m <= MAX_DIM,
                r < m,
                c <= m,
                lu@.len() == r * m + c,
                forall|rr: int, cc: int|
                    0 <= rr < r && 0 <= cc < m ==> #[trigger] lu@[rr * m + cc] == lu_val(g@, m as int, rr, cc),
                forall|cc: int|
                    0 <= cc < c ==> #[trigger] lu@[r * m + cc] == lu_val(g@, m as int, r as int, cc),
            decreases m - c,
        {
            proof {
                lemma_index_in_range(r as int, c as int, m as int);
            }
            let bound: usize = if r < c {
                r
            } else {
                c
            };
            let mut acc = g[r * m + c];
            let mut t: usize = 0;
            while t < bound
                invariant
                    g@.len() == m * m,
                    1 <= m <= MAX_DIM,
                    r < m,
                    c < m,
                    bound == if r < c { r as int } else { c as int },
                    lu@.len() == r * m + c,
                    forall|rr: int, cc: int|
                        0 <= rr < r && 0 <= cc < m ==> #[trigger] lu@[rr * m + cc] == lu_val(
                            g@,
                            m as int,
                            rr,
                            cc,
                        ),
                    forall|cc: int|
                        0 <= cc < c ==> #[trigger] lu@[r * m + cc] == lu_val(g@, m as int, r as int, cc),
                    t <= bound,
                    acc == lu_sum(g@, m as int, r as int, c as int, t as int),
                decreases bound - t,
            {
                proof {
                    lemma_index_in_range(r as int, t as int, m as int);
                    lemma_index_in_range(t as int, c as int, m as int);
                    assert(t * m < r * m) by (nonlinear_arith)
                        requires 0 <= t < r, 1 <= m;
                }
                let term = c_mul(&lu[r * m + t], &lu[t * m + c]);
                acc = c_sub(&acc, &term);
                t = t + 1;
            }
            let cell = if r > c {
                proof {
                    lemma_index_in_range(c as int, c as int, m as int);
                    assert(c * m < r * m) by (nonlinear_arith)
                        requires 0 <= c < r, 1 <= m;
                }
                c_div(&acc, &lu[c * m + c])
            } else {
                acc
            };
            let ghost lubefore = lu@;
            lu.push(cell);
            c = c + 1;
            proof {
                assert forall|rr: int, cc: int|
                    0 <= rr < r && 0 <= cc < m implies #[trigger] lu@[rr * m + cc] == lu_val(
                    g@,
                    m as int,
                    rr,
                    cc,
                ) by {
                    assert(0 <= rr * m + cc && rr * m + cc < r * m) by (nonlinear_arith)
                        requires 0 <= rr < r, 0 <= cc < m;
                    assert(lu@[rr * m + cc] == lubefore[rr * m + cc]);
                }
                assert forall|cc: int|
                    0 <= cc < c implies #[trigger] lu@[r * m + cc] == lu_val(
                    g@,
                    m as int,
                    r as int,
                    cc,
                ) by {
                    if cc < c - 1 {
                        assert(lu@[r * m + cc] == lubefore[r * m + cc]);
                    }
                }
            }
        }
        proof {
            lemma_index_in_range(r as int, r as int, m as int);
            assert((r + 1) * m == r * m + m) by (nonlinear_arith);
        }
        if !c_abs_diff_ne(&lu[r * m + r], &zero, tol) {
            return None;
        }
        r = r + 1;
    }
    Some(lu)
}

fn lu_solve(lu: &Vec<Complex64>, m: usize, y: &Vec<Complex64>) -> (x: Vec<Complex64>)
    requires
        lu@.len() == m * m,
        y@.len() == m,
        1 <= m <= MAX_DIM,
    ensures
        x@.len() == m,
        forall|r: int| 0 <= r < m ==> x@[r] == back_val(lu@, m as int, y@, r),
{
    let mut z: Vec<Complex64> = Vec::new();
    let mut t: usize = 0;
    while t < m
        invariant
            y@.len() == m,
            t <= m,
            z@.len() == t,
            forall|a: int| 0 <= a < t ==> z@[a] == y@[a],
        decreases m - t,
    {
        z.push(y[t]);
        t = t + 1;
    }
    // Forward substitution through the unit lower triangle.
    let mut r: usize = 0;
    while r < m
        invariant
            lu@.len() == m * m,
            y@.len() == m,
            1 <= m <= MAX_DIM,
            z@.len() == m,
            r <= m,
            forall|a: int| 0 <= a < r ==> z@[a] == fwd_part(lu@, m as int, y@, a, a),
            forall|a: int| r <= a < m ==> z@[a] == y@[a],
        decreases m - r,
    {
        let mut acc = z[r];
        let mut c: usize = 0;
        while c < r
            invariant
                lu@.len() == m * m,
                y@.len() == m,
                1 <= m <= MAX_DIM,
                z@.len() == m,
                r < m,
                c <= r,
                forall|a: int| 0 <= a < r ==> z@[a] == fwd_part(lu@, m as int, y@, a, a),
                forall|a: int| r <= a < m ==> z@[a] == y@[a],
                acc == fwd_part(lu@, m as int, y@, r as int, c as int),
            decreases r - c,
        {
            proof {
                lemma_index_in_range(r as int, c as int, m as int);
            }
            acc = c_sub(&acc, &c_mul(&lu[r * m + c], &z[c]));
            c = c + 1;
        }
        z.set(r, acc);
        r = r + 1;
    }
    // Back substitution through the upper triangle.
    let mut r2: usize = m;
    while r2 > 0
        invariant
            lu@.len() == m * m,
            y@.len() == m,
            1 <= m <= MAX_DIM,
            z@.len() == m,
            r2 <= m,
            forall|a: int| 0 <= a < r2 ==> z@[a] == fwd_part(lu@, m as int, y@, a, a),
            forall|a: int| r2 <= a < m ==> z@[a] == back_val(lu@, m as int, y@, a),
        decreases r2,
    {
        r2 = r2 - 1;
        let mut acc = z[r2];
        let mut c: usize = r2 + 1;
        while c < m
            invariant
                lu@.len() == m * m,
                y@.len() == m,
                1 <= m <= MAX_DIM,
                z@.len() == m,
                r2 < m,
                r2 + 1 <= c <= m,
                forall|a: int| 0 <= a < r2 + 1 ==> z@[a] == fwd_part(lu@, m as int, y@, a, a),
                forall|a: int| r2 + 1 <= a < m ==> z@[a] == back_val(lu@, m as int, y@, a),
                acc == back_part(lu@, m as int, y@, r2 as int, c as int),
            decreases m - c,
        {
            proof {
                lemma_index_in_range(r2 as int, c as int, m as int);
            }
            acc = c_sub(&acc, &c_mul(&lu[r2 * m + c], &z[c]));
            c = c + 1;
        }
        proof {
            lemma_index_in_range(r2 as int, r2 as int, m as int);
        }
        z.set(r2, c_div(&acc, &lu[r2 * m + r2]));
    }
    z
}

fn solve_with(basis: &Vec<Matrix>, anti: bool, tol: &Complex64) -> (r: Result<
    (CoefficientTable, Vec<(usize, usize)>),
    LieError,
>)
    requires
        basis_wf(basis@),
        basis@.len() <= MAX_DIM,
    ensures
        match r {
            Ok(out) => {
                &&& !invalid_basis(basis@)
                &&& !mismatched_basis(basis@)
                &&& !gram_degenerate(basis@, *tol)
                &&& out.0.wf()
                &&& out.0.basis_len() == basis@.len()
                &&& (!anti ==> forall|i: int, j: int| i == j ==> out.0.spec_get(i, j) is None)
                &&& forall|a: int, b: int|
                    #[trigger] out.0.spec_contains(a, b) ==> 0 <= a < basis@.len() && 0 <= b
                        < basis@.len()
                &&& forall|t: int|
                    0 <= t < out.0.entries_seq().len() ==> significant(
                        (#[trigger] out.0.entries_seq()[t]).f,
                        *tol,
                    )
                &&& forall|t: int|
                    0 <= t < out.1@.len()
                        ==> (#[trigger] out.1@[t]).0 < basis@.len() && out.1@[t].1 < basis@.len()
                &&& forall|i: usize, j: usize|
                    i < basis@.len() && j < basis@.len() && (anti || i != j)
                        ==> #[trigger] pair_recorded(&out.0, out.1@, basis@, anti, *tol, i, j)
            },
            Err(e) => match e {
                LieError::InvalidParameter => invalid_basis(basis@),
                LieError::DimensionMismatch => !invalid_basis(basis@) && mismatched_basis(basis@),
                LieError::DegenerateDecomposition => {
                    &&& !invalid_basis(basis@)
                    &&& !mismatched_basis(basis@)
                    &&& gram_degenerate(basis@, *tol)
                },
            },
        },
{
    let n = match check_basis(basis) {
        Ok(n) => n,
        Err(e) => {
            return Err(e);
        },
    };
    let m = basis.len();
    proof {
        assert forall|t: int| 0 <= t < basis@.len() implies (#[trigger] basis@[t].dim()) == n by {}
    }
    let g = build_gram(basis, n, m);
    let lu = match lu_factor(&g, m, tol) {
        Some(lu) => lu,
        None => {
            return Err(LieError::DegenerateDecomposition);
        },
    };
    let ghost luspec = Seq::new(
        ((m as int) * (m as int)) as nat,
        |idx: int|
            lu_val(gram_seq(basis@, n as int, m as int), m as int, idx / (m as int), idx % (m as int)),
    );
    proof {
        assert forall|idx: int| 0 <= idx < m * m implies lu@[idx] == luspec[idx] by {
            let rr = idx / (m as int);
            let cc = idx % (m as int);
            assert(0 <= rr < m && 0 <= cc < m) by (nonlinear_arith)
                requires 0 <= idx < m * m, 1 <= m, rr == idx / (m as int), cc == idx % (m as int);
            vstd::arithmetic::div_mod::lemma_fundamental_div_mod(idx, m as int);
            assert(rr * m + cc == idx);
            assert(lu@[rr * m + cc] == lu_val(g@, m as int, rr, cc));
        }
        assert(lu@ =~= luspec);
        assert forall|k: int| 0 <= k < m implies significant(
            lu_val(gram_seq(basis@, n as int, m as int), m as int, k, k),
            *tol,
        ) by {}
        assert(!gram_degenerate(basis@, *tol));
    }
    let mut table = CoefficientTable::new(m);
    let mut degs: Vec<(usize, usize)> = Vec::new();
    let mut i: usize = 0;
    while i < m
        invariant
            basis_wf(basis@),
            m == basis@.len(),
            1 <= m <= MAX_DIM,
            1 <= n <= MAX_DIM,
            n == basis@[0].dim(),
            forall|t: int| 0 <= t < basis@.len() ==> (#[trigger] basis@[t].dim()) == n,
            g@ == gram_seq(basis@, n as int, m as int),
            lu@ == luspec,
            luspec == Seq::new(
                ((m as int) * (m as int)) as nat,
                |idx: int|
                    lu_val(
                        gram_seq(basis@, n as int, m as int),
                        m as int,
                        idx / (m as int),
                        idx % (m as int),
                    ),
            ),
            lu@.len() == m * m,
            i <= m,
            table.wf(),
            table.basis_len() == m,
            forall|a: int, b: int|
                #[trigger] table.spec_contains(a, b) ==> 0 <= a < i && 0 <= b < m,
            !anti ==> forall|a: int, b: int| a == b ==> table.spec_get(a, b) is None,
            forall|t: int|
                0 <= t < table.entries_seq().len() ==> significant(
                    (#[trigger] table.entries_seq()[t]).f,
                    *tol,
                ),
            forall|t: int|
                0 <= t < degs@.len() ==> (#[trigger] degs@[t]).0 < m && degs@[t].1 < m,
            forall|a: usize, b: usize|
                a < m && b < m && (anti || a != b) && a < i
                    ==> #[trigger] pair_recorded(&table, degs@, basis@, anti, *tol, a, b),
            forall|a: usize, b: usize|
                a >= i ==> !(#[trigger] degs@.contains((a, b))),
        decreases m - i,
    {
        let mut j: usize = 0;
        while j < m
            invariant
                basis_wf(basis@),
                m == basis@.len(),
                1 <= m <= MAX_DIM,
                1 <= n <= MAX_DIM,
                n == basis@[0].dim(),
                forall|t: int| 0 <= t < basis@.len() ==> (#[trigger] basis@[t].dim()) == n,
                g@ == gram_seq(basis@, n as int, m as int),
                lu@ == luspec,
                luspec == Seq::new(
                    ((m as int) * (m as int)) as nat,
                    |idx: int|
                        lu_val(
                            gram_seq(basis@, n as int, m as int),
                            m as int,
                            idx / (m as int),
                            idx % (m as int),
                        ),
                ),
                lu@.len() == m * m,
                i < m,
                j <= m,
                table.wf(),
                table.basis_len() == m,
                forall|a: int, b: int|
                    #[trigger] table.spec_contains(a, b) ==> 0 <= a < m && 0 <= b < m && (a < i || (
                    a == i && b < j)),
                !anti ==> forall|a: int, b: int| a == b ==> table.spec_get(a, b) is None,
                forall|t: int|
                    0 <= t < table.entries_seq().len() ==> significant(
                        (#[trigger] table.entries_seq()[t]).f,
                        *tol,
                    ),
                forall|t: int|
                    0 <= t < degs@.len() ==> (#[trigger] degs@[t]).0 < m && degs@[t].1 < m,
                forall|a: usize, b: usize|
                    a < m && b < m && (anti || a != b) && ((a as int) < i || (a == i && (b as int)
                        < j)) ==> #[trigger] pair_recorded(&table, degs@, basis@, anti, *tol, a, b),
                forall|a: usize, b: usize|
                    (a as int) > i || (a == i && (b as int) >= j) ==> !(#[trigger] degs@.contains(
                        (a, b),
                    )),
            decreases m - j,
        {
            if anti || i != j {
                let prod_ij = basis[i].matmul(&basis[j]);
                let prod_ji = basis[j].matmul(&basis[i]);
                let target = if anti {
                    prod_ij.add(&prod_ji)
                } else {
                    prod_ij.sub(&prod_ji)
                };
                proof {
                    assert forall|t: int| 0 <= t < n * n implies target.entries()[t] == target_seq(
                        basis@,
                        n as int,
                        i as int,
                        j as int,
                        anti,
                    )[t] by {
                        let rr = t / (n as int);
                        let cc = t % (n as int);
                        assert(0 <= rr < n && 0 <= cc < n) by (nonlinear_arith)
                            requires 0 <= t < n * n, 1 <= n, rr == t / (n as int), cc == t % (
                            n as int);
                        vstd::arithmetic::div_mod::lemma_fundamental_div_mod(t, n as int);
                        assert(rr * n + cc == t);
                        if anti {
                            assert(target.at(rr, cc) == add_of(
                                mm_entry(&basis@[i as int], &basis@[j as int], rr, cc),
                                mm_entry(&basis@[j as int], &basis@[i as int], rr, cc),
                            ));
                        } else {
                            assert(target.at(rr, cc) == sub_of(
                                mm_entry(&basis@[i as int], &basis@[j as int], rr, cc),
                                mm_entry(&basis@[j as int], &basis@[i as int], rr, cc),
                            ));
                        }
                        assert(target.entries()[t] == target.at(rr, cc));
                    }
                    assert(target.entries() =~= target_seq(
                        basis@,
                        n as int,
                        i as int,
                        j as int,
                        anti,
                    ));
                }
                let y = rhs_for(basis, &target, n, m);
                proof {
                    assert forall|cc: int| 0 <= cc < m implies y@[cc] == rhs_seq(
                        basis@,
                        n as int,
                        m as int,
                        i as int,
                        j as int,
                        anti,
                    )[cc] by {}
                    assert(y@ =~= rhs_seq(basis@, n as int, m as int, i as int, j as int, anti));
                }
                let x = lu_solve(&lu, m, &y);
                proof {
                    assert forall|k: int| 0 <= k < m implies x@[k] == pair_coeff(
                        basis@,
                        anti,
                        i as int,
                        j as int,
                        k,
                    ) by {
                        assert(x@[k] == back_val(lu@, m as int, y@, k));
                        assert(lu@ == luspec);
                        assert(y@ == rhs_seq(
                            basis@,
                            n as int,
                            m as int,
                            i as int,
                            j as int,
                            anti,
                        ));
                        assert(basis@[0].dim() == n as int && basis@.len() == m);
                        let lupair = Seq::new(
                            ((basis@.len() as int) * (basis@.len() as int)) as nat,
                            |idx: int|
                                lu_val(
                                    gram_seq(basis@, basis@[0].dim(), basis@.len() as int),
                                    basis@.len() as int,
                                    idx / (basis@.len() as int),
                                    idx % (basis@.len() as int),
                                ),
                        );
                        assert(pair_coeff(basis@, anti, i as int, j as int, k) == back_val(
                            lupair,
                            basis@.len() as int,
                            rhs_seq(
                                basis@,
                                basis@[0].dim(),
                                basis@.len() as int,
                                i as int,
                                j as int,
                                anti,
                            ),
                            k,
                        ));
                        assert(basis@.len() as int == m as int);
                        assert(lupair.len() == luspec.len());
                        assert forall|idx: int| 0 <= idx < lupair.len() implies lupair[idx]
                            == luspec[idx] by {
                            assert(lupair[idx] == lu_val(
                                gram_seq(basis@, basis@[0].dim(), basis@.len() as int),
                                basis@.len() as int,
                                idx / (basis@.len() as int),
                                idx % (basis@.len() as int),
                            ));
                            assert(luspec[idx] == lu_val(
                                gram_seq(basis@, n as int, m as int),
                                m as int,
                                idx / (m as int),
                                idx % (m as int),
                            ));
                        }
                        assert(lupair =~= luspec);
                    }
                }
                let (first, degen) = classify_solution(&x, tol);
                let ghost degs_before = degs@;
                let ghost tbefore = table;
                if degen {
                    degs.push((i, j));
                }
                match first {
                    Some(kf) => {
                        let new_entry = TableEntry { i, j, k: kf.0, f: kf.1 };
                        let ghost ge = new_entry;
                        table.push_entry(new_entry);
                        proof {
                            assert forall|t: int|
                                0 <= t < table.entries_seq().len() implies significant(
                                (#[trigger] table.entries_seq()[t]).f,
                                *tol,
                            ) by {
                                if t < tbefore.entries_seq().len() {
                                    assert(table.entries_seq()[t] == tbefore.entries_seq()[t]);
                                } else {
                                    assert(table.entries_seq()[t] == ge);
                                }
                            }
                            assert forall|a: int, b: int| #[trigger] table.spec_contains(a, b)
                                implies 0 <= a < m && 0 <= b < m && (a < i || (a == i && b < j
                                + 1)) by {
                                if !(a == i as int && b == j as int) {
                                    assert(table.spec_get(a, b) == tbefore.spec_get(a, b));
                                    assert(tbefore.spec_contains(a, b));
                                }
                            }
                            if !anti {
                                assert forall|a: int, b: int| a == b implies table.spec_get(a, b)
                                    is None by {
                                    assert(table.spec_get(a, b) == tbefore.spec_get(a, b));
                                }
                            }
                        }
                    },
                    None => {},
                }
                proof {
                    if degen {
                        assert(degs@ == degs_before.push((i, j)));
                        lemma_push_contains(degs_before, (i, j), (i, j));
                    } else {
                        assert(!degs@.contains((i, j)));
                    }
                    // The pair just processed is recorded as its solution demands.
                    match first {
                        Some(kf) => {
                            assert(table.spec_get(i as int, j as int) == Some((
                                kf.0 as int,
                                kf.1,
                            )));
                            assert(x@[kf.0 as int] == pair_coeff(
                                basis@,
                                anti,
                                i as int,
                                j as int,
                                kf.0 as int,
                            ));
                            assert forall|k2: int| 0 <= k2 < kf.0 implies !significant(
                                pair_coeff(basis@, anti, i as int, j as int, k2),
                                *tol,
                            ) by {
                                assert(x@[k2] == pair_coeff(basis@, anti, i as int, j as int, k2));
                            }
                        },
                        None => {
                            assert(!table.spec_contains(i as int, j as int));
                            assert forall|k2: int| 0 <= k2 < m implies !significant(
                                pair_coeff(basis@, anti, i as int, j as int, k2),
                                *tol,
                            ) by {
                                assert(x@[k2] == pair_coeff(basis@, anti, i as int, j as int, k2));
                            }
                        },
                    }
                    // The degenerate listing matches a second significant coefficient.
                    if degen {
                        let (t1, t2) = choose|t1: int, t2: int|
                            0 <= t1 < t2 < x@.len() && significant(x@[t1], *tol) && significant(
                                x@[t2],
                                *tol,
                            );
                        assert(x@[t1] == pair_coeff(basis@, anti, i as int, j as int, t1));
                        assert(x@[t2] == pair_coeff(basis@, anti, i as int, j as int, t2));
                        assert(significant(pair_coeff(basis@, anti, i as int, j as int, t1), *tol)
                            && significant(
                            pair_coeff(basis@, anti, i as int, j as int, t2),
                            *tol,
                        ));
                    } else {
                        assert forall|k1: int, k2: int| 0 <= k1 < k2 < m implies !(significant(
                            pair_coeff(basis@, anti, i as int, j as int, k1),
                            *tol,
                        ) && significant(pair_coeff(basis@, anti, i as int, j as int, k2), *tol))
                            by {
                            assert(x@[k1] == pair_coeff(basis@, anti, i as int, j as int, k1));
                            assert(x@[k2] == pair_coeff(basis@, anti, i as int, j as int, k2));
                        }
                    }
                    assert(pair_recorded(&table, degs@, basis@, anti, *tol, i, j));
                    // Earlier pairs keep their records.
                    assert forall|a: usize, b: usize|
                        a < m && b < m && (anti || a != b) && ((a as int) < i || (a == i && (
                        b as int) < j)) implies #[trigger] pair_recorded(
                        &table,
                        degs@,
                        basis@,
                        anti,
                        *tol,
                        a,
                        b,
                    ) by {
                        assert(pair_recorded(&tbefore, degs_before, basis@, anti, *tol, a, b));
                        assert(table.spec_get(a as int, b as int) == tbefore.spec_get(
                            a as int,
                            b as int,
                        ));
                        if degen {
                            lemma_push_contains(degs_before, (i, j), (a, b));
                        }
                    }
                    // Later pairs are still unlisted.
                    assert forall|a: usize, b: usize|
                        (a as int) > i || (a == i && (b as int) >= j + 1) implies !(
                        #[trigger] degs@.contains((a, b))) by {
                        if degen {
                            lemma_push_contains(degs_before, (i, j), (a, b));
                        }
                    }
                }
            }
            j = j + 1;
        }
        i = i + 1;
    }
    Ok((table, degs))
}

/// Solves for the structure constants of the basis: for every ordered pair
/// `(i, j)` with `i != j`, the commutator `[T_i, T_j]` is decomposed over the
/// basis by least squares, and the single significant coefficient, when one
/// exists, is recorded under key `(i, j)`. Diagonal pairs are skipped, so the
/// table never holds a key `(i, i)`. Pairs with more than one significant
/// coefficient are reported in `degenerate_pairs`. Uses the default
/// tolerance.
pub fn find_structure_constants(basis: &Vec<Matrix>) -> (r: Result<SolveOutcome, LieError>)
    requires
        basis_wf(basis@),
        basis@.len() <= MAX_DIM,
    ensures
        match r {
            Ok(out) => {
                &&& !invalid_basis(basis@)
                &&& !mismatched_basis(basis@)
                &&& out.table.wf()
                &&& out.table.basis_len() == basis@.len()
                &&& forall|i: int, j: int| i == j ==> out.table.spec_get(i, j) is None
                &&& forall|a: int, b: int|
                    #[trigger] out.table.spec_contains(a, b) ==> 0 <= a < basis@.len() && 0 <= b
                        < basis@.len()
                &&& forall|t: int|
                    0 <= t < out.table.entries_seq().len() ==> significant(
                        (#[trigger] out.table.entries_seq()[t]).f,
                        default_tol_val(),
                    )
                &&& !gram_degenerate(basis@, default_tol_val())
                &&& forall|i: usize, j: usize|
                    i < basis@.len() && j < basis@.len() && (false || i != j)
                        ==> #[trigger] pair_recorded(
                        &out.table,
                        out.degenerate_pairs@,
                        basis@,
                        false,
                        default_tol_val(),
                        i,
                        j,
                    )
            },
            Err(e) => match e {
                LieError::InvalidParameter => invalid_basis(basis@),
                LieError::DimensionMismatch => !invalid_basis(basis@) && mismatched_basis(basis@),
                LieError::DegenerateDecomposition => {
                    &&& !invalid_basis(basis@)
                    &&& !mismatched_basis(basis@)
                    &&& gram_degenerate(basis@, default_tol_val())
                },
            },
        },
{
    let tol = default_tolerance();
    find_structure_constants_with_tol(basis, &tol)
}

/// As `find_structure_constants`, with a caller-chosen tolerance.
pub fn find_structure_constants_with_tol(basis: &Vec<Matrix>, tol: &Complex64) -> (r: Result<
    SolveOutcome,
    LieError,
>)
    requires
        basis_wf(basis@),
        basis@.len() <= MAX_DIM,
    ensures
        match r {
            Ok(out) => {
                &&& !invalid_basis(basis@)
                &&& !mismatched_basis(basis@)
                &&& out.table.wf()
                &&& out.table.basis_len() == basis@.len()
                &&& forall|i: int, j: int| i == j ==> out.table.spec_get(i, j) is None
                &&& forall|a: int, b: int|
                    #[trigger] out.table.spec_contains(a, b) ==> 0 <= a < basis@.len() && 0 <= b
                        < basis@.len()
                &&& forall|t: int|
                    0 <= t < out.table.entries_seq().len() ==> significant(
                        (#[trigger] out.table.entries_seq()[t]).f,
                        *tol,
                    )
                &&& !gram_degenerate(basis@, *tol)
                &&& forall|i: usize, j: usize|
                    i < basis@.len() && j < basis@.len() && (false || i != j)
                        ==> #[trigger] pair_recorded(
                        &out.table,
                        out.degenerate_pairs@,
                        basis@,
                        false,
                        *tol,
                        i,
                        j,
                    )
            },
            Err(e) => match e {
                LieError::InvalidParameter => invalid_basis(basis@),
                LieError::DimensionMismatch => !invalid_basis(basis@) && mismatched_basis(basis@),
                LieError::DegenerateDecomposition => {
                    &&& !invalid_basis(basis@)
                    &&& !mismatched_basis(basis@)
                    &&& gram_degenerate(basis@, *tol)
                },
            },
        },
{
    match solve_with(basis, false, tol) {
        Ok(out) => Ok(SolveOutcome { table: out.0, degenerate_pairs: out.1 }),
        Err(e) => Err(e),
    }
}

/// Solves for the d-coefficients of the basis: as the structure constants,
/// but decomposing the anticommutator `{T_i, T_j}`, and including the
/// diagonal pairs `(i, i)`, whose self-anticommutator is generally nonzero.
/// Uses the default tolerance.
pub fn find_d_coefficients(basis: &Vec<Matrix>) -> (r: Result<SolveOutcome, LieError>)
    requires
        basis_wf(basis@),
        basis@.len() <= MAX_DIM,
    ensures
        match r {
            Ok(out) => {
                &&& !invalid_basis(basis@)
                &&& !mismatched_basis(basis@)
                &&& out.table.wf()
                &&& out.table.basis_len() == basis@.len()
                &&& forall|a: int, b: int|
                    #[trigger] out.table.spec_contains(a, b) ==> 0 <= a < basis@.len() && 0 <= b
                        < basis@.len()
                &&& forall|t: int|
                    0 <= t < out.table.entries_seq().len() ==> significant(
                        (#[trigger] out.table.entries_seq()[t]).f,
                        default_tol_val(),
                    )
                &&& !gram_degenerate(basis@, default_tol_val())
                &&& forall|i: usize, j: usize|
                    i < basis@.len() && j < basis@.len() && (true || i != j)
                        ==> #[trigger] pair_recorded(
                        &out.table,
                        out.degenerate_pairs@,
                        basis@,
                        true,
                        default_tol_val(),
                        i,
                        j,
                    )
            },
            Err(e) => match e {
                LieError::InvalidParameter => invalid_basis(basis@),
                LieError::DimensionMismatch => !invalid_basis(basis@) && mismatched_basis(basis@),
                LieError::DegenerateDecomposition => {
                    &&& !invalid_basis(basis@)
                    &&& !mismatched_basis(basis@)
                    &&& gram_degenerate(basis@, default_tol_val())
                },
            },
        },
{
    let tol = default_tolerance();
    find_d_coefficients_with_tol(basis, &tol)
}

/// As `find_d_coefficients`, with a caller-chosen tolerance.
pub fn find_d_coefficients_with_tol(basis: &Vec<Matrix>, tol: &Complex64) -> (r: Result<
    SolveOutcome,
    LieError,
>)
    requires
        basis_wf(basis@),
        basis@.len() <= MAX_DIM,
    ensures
        match r {
            Ok(out) => {
                &&& !invalid_basis(basis@)
                &&& !mismatched_basis(basis@)
                &&& out.table.wf()
                &&& out.table.basis_len() == basis@.len()
                &&& forall|a: int, b: int|
                    #[trigger] out.table.spec_contains(a, b) ==> 0 <= a < basis@.len() && 0 <= b
                        < basis@.len()
                &&& forall|t: int|
                    0 <= t < out.table.entries_seq().len() ==> significant(
                        (#[trigger] out.table.entries_seq()[t]).f,
                        *tol,
                    )
                &&& !gram_degenerate(basis@, *tol)
                &&& forall|i: usize, j: usize|
                    i < basis@.len() && j < basis@.len() && (true || i != j)
                        ==> #[trigger] pair_recorded(
                        &out.table,
                        out.degenerate_pairs@,
                        basis@,
                        true,
                        *tol,
                        i,
                        j,
                    )
            },
            Err(e) => match e {
                LieError::InvalidParameter => invalid_basis(basis@),
                LieError::DimensionMismatch => !invalid_basis(basis@) && mismatched_basis(basis@),
                LieError::DegenerateDecomposition => {
                    &&& !invalid_basis(basis@)
                    &&& !mismatched_basis(basis@)
                    &&& gram_degenerate(basis@, *tol)
                },
            },
        },
{
    match solve_with(basis, true, tol) {
        Ok(out) => Ok(SolveOutcome { table: out.0, degenerate_pairs: out.1 }),
        Err(e) => Err(e),
    }
}

/// The running value of one entry of a reconstructed bracket product, after
/// the first `p` ordered coordinate pairs (taken row-major over the two
/// coordinate vectors) have been folded in: a pair `(i, j)` with a table
/// record `(k, f)` and a coefficient `l_a[i] l_b[j] f` of significant
/// magnitude contributes that coefficient times the entry of basis
/// element `k`.
pub open spec fn br_acc(
    la: Seq<Complex64>,
    lb: Seq<Complex64>,
    tab: &CoefficientTable,
    basis: Seq<Matrix>,
    tol: Complex64,
    rr: int,
    cc: int,
    p: int,
) -> Complex64
    decreases p,
{
    if p <= 0 || lb.len() == 0 {
        c_of(0, 0)
    } else {
        let prev = br_acc(la, lb, tab, basis, tol, rr, cc, p - 1);
        let i = (p - 1) / (lb.len() as int);
        let j = (p - 1) % (lb.len() as int);
        match tab.spec_get(i, j) {
            Option::None => prev,
            Option::Some(kf) => {
                let coeff = mul_of(mul_of(la[i], lb[j]), kf.1);
                if norm_significant(coeff, tol) {
                    add_of(prev, mul_of(coeff, basis[kf.0].at(rr, cc)))
                } else {
                    prev
                }
            },
        }
    }
}

fn bracket_with_table(
    l_a: &Vec<Complex64>,
    l_b: &Vec<Complex64>,
    tab: &CoefficientTable,
    basis: &Vec<Matrix>,
    tol: &Complex64,
) -> (r: Result<Matrix, LieError>)
    requires
        basis_wf(basis@),
        tab.wf(),
    ensures
        match r {
            Ok(mat) => {
                &&& !invalid_basis(basis@)
                &&& !mismatched_basis(basis@)
                &&& l_a@.len() == basis@.len()
                &&& l_b@.len() == basis@.len()
                &&& tab.basis_len() == basis@.len()
                &&& mat.wf()
                &&& mat.dim() == basis@[0].dim()
                &&& forall|rr: int, cc: int|
                    0 <= rr < mat.dim() && 0 <= cc < mat.dim() ==> #[trigger] mat.at(rr, cc)
                        == br_acc(
                        l_a@,
                        l_b@,
                        tab,
                        basis@,
                        *tol,
                        rr,
                        cc,
                        basis@.len() * basis@.len() as int,
                    )
            },
            Err(e) => match e {
                LieError::InvalidParameter => invalid_basis(basis@),
                LieError::DimensionMismatch => {
                    &&& !invalid_basis(basis@)
                    &&& (mismatched_basis(basis@) || l_a@.len() != basis@.len() || l_b@.len()
                        != basis@.len() || tab.basis_len() != basis@.len())
                },
                LieError::DegenerateDecomposition => false,
            },
        },
{
    let n = match check_basis(basis) {
        Ok(n) => n,
        Err(e) => {
            return Err(e);
        },
    };
    let m = basis.len();
    if l_a.len() != m || l_b.len() != m || tab.n_basis() != m {
        return Err(LieError::DimensionMismatch);
    }
    proof {
        assert forall|t: int| 0 <= t < basis@.len() implies (#[trigger] basis@[t].dim()) == n by {}
    }
    let zero = c_from_int(0, 0);
    let mut res = Matrix::zeros(n);
    let mut i: usize = 0;
    while i < m
        invariant
            basis_wf(basis@),
            tab.wf(),
            m == basis@.len(),
            m >= 1,
            l_a@.len() == m,
            l_b@.len() == m,
            tab.basis_len() == m,
            1 <= n <= MAX_DIM,
            forall|t: int| 0 <= t < basis@.len() ==> (#[trigger] basis@[t].dim()) == n,
            zero == c_of(0, 0),
            res.wf(),
            res.dim() == n,
            i <= m,
            forall|rr: int, cc: int|
                0 <= rr < n && 0 <= cc < n ==> #[trigger] res.at(rr, cc) == br_acc(
                    l_a@,
                    l_b@,
                    tab,
                    basis@,
                    *tol,
                    rr,
                    cc,
                    i * m,
                ),
        decreases m - i,
    {
        let mut j: usize = 0;
        while j < m
            invariant
                basis_wf(basis@),
                tab.wf(),
                m == basis@.len(),
                m >= 1,
                l_a@.len() == m,
                l_b@.len() == m,
                tab.basis_len() == m,
                1 <= n <= MAX_DIM,
                forall|t: int| 0 <= t < basis@.len() ==> (#[trigger] basis@[t].dim()) == n,
                zero == c_of(0, 0),
                res.wf(),
                res.dim() == n,
                i < m,
                j <= m,
                forall|rr: int, cc: int|
                    0 <= rr < n && 0 <= cc < n ==> #[trigger] res.at(rr, cc) == br_acc(
                        l_a@,
                        l_b@,
                        tab,
                        basis@,
                        *tol,
                        rr,
                        cc,
                        i * m + j,
                    ),
            decreases m - j,
        {
            proof {
                vstd::arithmetic::div_mod::lemma_fundamental_div_mod_converse(
                    i * m + j,
                    m as int,
                    i as int,
                    j as int,
                );
            }
            match tab.get(i, j) {
                None => {},
                Some(kf) => {
                    proof {
                        lemma_lookup_bounds(tab, i as int, j as int);
                    }
                    let coeff = c_mul(&c_mul(&l_a[i], &l_b[j]), &kf.1);
                    if c_abs_diff_ne(&c_norm(&coeff), &zero, tol) {
                        let prod = basis[kf.0].scale(&coeff);
                        res = res.add(&prod);
                    }
                },
            }
            j = j + 1;
        }
        proof {
            assert((i + 1) * m == i * m + m) by (nonlinear_arith);
        }
        i = i + 1;
    }
    Ok(res)
}

/// Reconstructs the commutator of two algebra elements given by coordinate
/// vectors over the basis: every coordinate pair with a structure-constant
/// record and a significant product accumulates its multiple of the recorded
/// basis element into an explicit matrix. Uses the default tolerance.
pub fn su_commutator(
    l_a: &Vec<Complex64>,
    l_b: &Vec<Complex64>,
    f_ijk: &CoefficientTable,
    basis: &Vec<Matrix>,
) -> (r: Result<Matrix, LieError>)
    requires
        basis_wf(basis@),
        f_ijk.wf(),
    ensures
        match r {
            Ok(mat) => {
                &&& !invalid_basis(basis@)
                &&& !mismatched_basis(basis@)
                &&& l_a@.len() == basis@.len()
                &&& l_b@.len() == basis@.len()
                &&& f_ijk.basis_len() == basis@.len()
                &&& mat.wf()
                &&& mat.dim() == basis@[0].dim()
                &&& forall|rr: int, cc: int|
                    0 <= rr < mat.dim() && 0 <= cc < mat.dim() ==> #[trigger] mat.at(rr, cc)
                        == br_acc(
                        l_a@,
                        l_b@,
                        f_ijk,
                        basis@,
                        default_tol_val(),
                        rr,
                        cc,
                        basis@.len() * basis@.len() as int,
                    )
            },
            Err(e) => match e {
                LieError::InvalidParameter => invalid_basis(basis@),
                LieError::DimensionMismatch => {
                    &&& !invalid_basis(basis@)
                    &&& (mismatched_basis(basis@) || l_a@.len() != basis@.len() || l_b@.len()
                        != basis@.len() || f_ijk.basis_len() != basis@.len())
                },
                LieError::DegenerateDecomposition => false,
            },
        },
{
    let tol = default_tolerance();
    bracket_with_table(l_a, l_b, f_ijk, basis, &tol)
}

/// Reconstructs the anticommutator of two algebra elements given by
/// coordinate vectors, from the d-coefficient table, exactly as
/// `su_commutator` does from the structure constants.
pub fn su_anticommutator(
    l_a: &Vec<Complex64>,
    l_b: &Vec<Complex64>,
    d_ijk: &CoefficientTable,
    basis: &Vec<Matrix>,
) -> (r: Result<Matrix, LieError>)
    requires
        basis_wf(basis@),
        d_ijk.wf(),
    ensures
        match r {
            Ok(mat) => {
                &&& !invalid_basis(basis@)
                &&& !mismatched_basis(basis@)
                &&& l_a@.len() == basis@.len()
                &&& l_b@.len() == basis@.len()
                &&& d_ijk.basis_len() == basis@.len()
                &&& mat.wf()
                &&& mat.dim() == basis@[0].dim()
                &&& forall|rr: int, cc: int|
                    0 <= rr < mat.dim() && 0 <= cc < mat.dim() ==> #[trigger] mat.at(rr, cc)
                        == br_acc(
                        l_a@,
                        l_b@,
                        d_ijk,
                        basis@,
                        default_tol_val(),
                        rr,
                        cc,
                        basis@.len() * basis@.len() as int,
                    )
            },
            Err(e) => match e {
                LieError::InvalidParameter => invalid_basis(basis@),
                LieError::DimensionMismatch => {
                    &&& !invalid_basis(basis@)
                    &&& (mismatched_basis(basis@) || l_a@.len() != basis@.len() || l_b@.len()
                        != basis@.len() || d_ijk.basis_len() != basis@.len())
                },
                LieError::DegenerateDecomposition => false,
            },
        },
{
    let tol = default_tolerance();
    bracket_with_table(l_a, l_b, d_ijk, basis, &tol)
}

/// The running value of coordinate `rr` of a coordinate-space bracket, after
/// the first `p` ordered coordinate pairs have been folded in: a pair
/// `(i, j)` with a table record `(k, f)` adds `f l_a[i] l_b[j]` to
/// coordinate `k`.
pub open spec fn coord_acc(
    la: Seq<Complex64>,
    lb: Seq<Complex64>,
    tab: &CoefficientTable,
    rr: int,
    p: int,
) -> Complex64
    decreases p,
{
    if p <= 0 || lb.len() == 0 {
        c_of(0, 0)
    } else {
        let prev = coord_acc(la, lb, tab, rr, p - 1);
        let i = (p - 1) / (lb.len() as int);
        let j = (p - 1) % (lb.len() as int);
        match tab.spec_get(i, j) {
            Option::None => prev,
            Option::Some(kf) => {
                if kf.0 == rr {
                    add_of(prev, mul_of(mul_of(kf.1, la[i]), lb[j]))
                } else {
                    prev
                }
            },
        }
    }
}

fn coord_with_table(
    l_a: &Vec<Complex64>,
    l_b: &Vec<Complex64>,
    tab: &CoefficientTable,
) -> (r: Result<Vec<Complex64>, LieError>)
    requires
        tab.wf(),
    ensures
        match r {
            Ok(v) => {
                &&& l_a@.len() == l_b@.len()
                &&& tab.basis_len() == l_a@.len()
                &&& v@.len() == l_a@.len()
                &&& forall|rr: int|
                    0 <= rr < v@.len() ==> #[trigger] v@[rr] == coord_acc(
                        l_a@,
                        l_b@,
                        tab,
                        rr,
                        l_a@.len() * l_a@.len() as int,
                    )
            },
            Err(e) => {
                &&& e == LieError::DimensionMismatch
                &&& (l_a@.len() != l_b@.len() || tab.basis_len() != l_a@.len())
            },
        },
{
    let m = l_a.len();
    if l_b.len() != m || tab.n_basis() != m {
        return Err(LieError::DimensionMismatch);
    }
    let mut res: Vec<Complex64> = Vec::new();
    let mut t: usize = 0;
    while t < m
        invariant
            t <= m,
            res@.len() == t,
            forall|a: int| 0 <= a < t ==> res@[a] == c_of(0, 0),
        decreases m - t,
    {
        res.push(c_from_int(0, 0));
        t = t + 1;
    }
    if m == 0 {
        return Ok(res);
    }
    let mut i: usize = 0;
    while i < m
        invariant
            tab.wf(),
            l_a@.len() == m,
            l_b@.len() == m,
            tab.basis_len() == m,
            m >= 1,
            res@.len() == m,
            i <= m,
            forall|rr: int|
                0 <= rr < m ==> #[trigger] res@[rr] == coord_acc(l_a@, l_b@, tab, rr, i * m),
        decreases m - i,
    {
        let mut j: usize = 0;
        while j < m
            invariant
                tab.wf(),
                l_a@.len() == m,
                l_b@.len() == m,
                tab.basis_len() == m,
                m >= 1,
                res@.len() == m,
                i < m,
                j <= m,
                forall|rr: int|
                    0 <= rr < m ==> #[trigger] res@[rr] == coord_acc(l_a@, l_b@, tab, rr, i * m + j),
            decreases m - j,
        {
            proof {
                vstd::arithmetic::div_mod::lemma_fundamental_div_mod_converse(
                    i * m + j,
                    m as int,
                    i as int,
                    j as int,
                );
            }
            match tab.get(i, j) {
                None => {},
                Some(kf) => {
                    proof {
                        lemma_lookup_bounds(tab, i as int, j as int);
                    }
                    let upd = c_add(&res[kf.0], &c_mul(&c_mul(&kf.1, &l_a[i]), &l_b[j]));
                    res.set(kf.0, upd);
                },
            }
            j = j + 1;
        }
        proof {
            assert((i + 1) * m == i * m + m) by (nonlinear_arith);
        }
        i = i + 1;
    }
    Ok(res)
}

/// The coordinate-space commutator: as `su_commutator`, but accumulating
/// directly into a coordinate vector indexed by the recorded basis index,
/// with no basis needed and no tolerance test on the contributions.
pub fn cross(
    l_a: &Vec<Complex64>,
    l_b: &Vec<Complex64>,
    f_ijk: &CoefficientTable,
) -> (r: Result<Vec<Complex64>, LieError>)
    requires
        f_ijk.wf(),
    ensures
        match r {
            Ok(v) => {
                &&& l_a@.len() == l_b@.len()
                &&& f_ijk.basis_len() == l_a@.len()
                &&& v@.len() == l_a@.len()
                &&& forall|rr: int|
                    0 <= rr < v@.len() ==> #[trigger] v@[rr] == coord_acc(
                        l_a@,
                        l_b@,
                        f_ijk,
                        rr,
                        l_a@.len() * l_a@.len() as int,
                    )
            },
            Err(e) => {
                &&& e == LieError::DimensionMismatch
                &&& (l_a@.len() != l_b@.len() || f_ijk.basis_len() != l_a@.len())
            },
        },
{
    coord_with_table(l_a, l_b, f_ijk)
}

/// The coordinate-space anticommutator: as `cross`, over the d-coefficient
/// table.
pub fn dot(
    l_a: &Vec<Complex64>,
    l_b: &Vec<Complex64>,
    d_ijk: &CoefficientTable,
) -> (r: Result<Vec<Complex64>, LieError>)
    requires
        d_ijk.wf(),
    ensures
        match r {
            Ok(v) => {
                &&& l_a@.len() == l_b@.len()
                &&& d_ijk.basis_len() == l_a@.len()
                &&& v@.len() == l_a@.len()
                &&& forall|rr: int|
                    0 <= rr < v@.len() ==> #[trigger] v@[rr] == coord_acc(
                        l_a@,
                        l_b@,
                        d_ijk,
                        rr,
                        l_a@.len() * l_a@.len() as int,
                    )
            },
            Err(e) => {
                &&& e == LieError::DimensionMismatch
                &&& (l_a@.len() != l_b@.len() || d_ijk.basis_len() != l_a@.len())
            },
        },
{
    coord_with_table(l_a, l_b, d_ijk)
}

} // verus!
