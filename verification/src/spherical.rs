//! Spherical tensor operators: a Hermitian basis built by a Clebsch-Gordan
//! recursion over operator ranks.
//!
//! Rank-1 operators are the three spin observables; a rank-r operator is a
//! weighted sum of products of rank-(r-1) and rank-1 operators, the weights
//! given in closed form by the coupling coefficients below. The recursion is
//! run iteratively, rank by rank, each row of projections kept as the
//! memo for the next. A second pass combines mirror projections into an
//! explicitly Hermitian basis of n^2 - 1 operators for the n-level
//! representation.

use vstd::prelude::*;
use num_complex::Complex64;
use crate::complex::{
    add_of, c_div, c_from_int, c_of, c_sqrt, div_of, half_val, mul_of, neg_of, sqrt_of, sub_of,
};
use crate::matrix::{mm_acc, Matrix};
use crate::su2::{s_x, s_y, s_z, sx_entry, sy_entry, sz_entry};

verus! {

/// Largest spin index `2j` the spherical construction accepts: keeps every
/// coupling-coefficient numerator and denominator inside `i32` on this
/// machine.
pub const MAX_RANK: usize = 10000;

/// The coupling coefficient for raising projection: the square root of
/// `((1+r+u)(2+r+u)) / ((1+r)(1+2r))`, divided by the square root of 2.
pub open spec fn cgp_val(r: int, u: int) -> Complex64 {
    div_of(
        sqrt_of(div_of(c_of((1 + r + u) * (2 + r + u), 0), c_of((1 + r) * (1 + 2 * r), 0))),
        sqrt_of(c_of(2, 0)),
    )
}

/// The coupling coefficient for unchanged projection: the square root of
/// `((1+r-u)(1+r+u)) / ((1+r)(1+2r))`.
pub open spec fn cgz_val(r: int, u: int) -> Complex64 {
    sqrt_of(div_of(c_of((1 + r - u) * (1 + r + u), 0), c_of((1 + r) * (1 + 2 * r), 0)))
}

/// The coupling coefficient for lowered projection: the square root of
/// `(2 + 3r + r^2 - 3u - 2ru + u^2) / (2 + 6r + 4r^2)`.
pub open spec fn cgn_val(r: int, u: int) -> Complex64 {
    sqrt_of(
        div_of(c_of(2 + 3 * r + r * r - 3 * u - 2 * r * u + u * u, 0), c_of(2 + 6 * r + 4 * r * r, 0)),
    )
}

/// The coupling coefficient for coupled projection `la` in `{1, 0, -1}`.
pub open spec fn cg_val(r: int, u: int, la: int) -> Complex64 {
    if la == 1 {
        cgp_val(r, u)
    } else if la == 0 {
        cgz_val(r, u)
    } else {
        cgn_val(r, u)
    }
}

/// The raising-projection coupling coefficient.
pub fn c_g_p(r: i32, u: i32) -> (res: Complex64)
    requires
        0 <= r <= MAX_RANK,
        -(r + 1) <= u <= r + 1,
    ensures
        res == cgp_val(r as int, u as int),
{
    proof {
        assert(0 <= (1 + r) * (1 + 2 * r) <= 300000000 && 0 <= (1 + r + u) * (2 + r + u)
            <= 500000000) by (nonlinear_arith)
            requires 0 <= r <= 10000, -(r + 1) <= u <= r + 1;
    }
    let num: i32 = (1 + r + u) * (2 + r + u);
    let den: i32 = (1 + r) * (1 + 2 * r);
    let x = c_sqrt(&c_div(&c_from_int(num, 0), &c_from_int(den, 0)));
    c_div(&x, &c_sqrt(&c_from_int(2, 0)))
}

/// The unchanged-projection coupling coefficient.
pub fn c_g_z(r: i32, u: i32) -> (res: Complex64)
    requires
        0 <= r <= MAX_RANK,
        -(r + 1) <= u <= r + 1,
    ensures
        res == cgz_val(r as int, u as int),
{
    proof {
        assert(0 <= (1 + r) * (1 + 2 * r) <= 300000000 && 0 <= (1 + r - u) * (1 + r + u)
            <= 500000000) by (nonlinear_arith)
            requires 0 <= r <= 10000, -(r + 1) <= u <= r + 1;
    }
    let num: i32 = (1 + r - u) * (1 + r + u);
    let den: i32 = (1 + r) * (1 + 2 * r);
    c_sqrt(&c_div(&c_from_int(num, 0), &c_from_int(den, 0)))
}

/// The lowered-projection coupling coefficient.
pub fn c_g_n(r: i32, u: i32) -> (res: Complex64)
    requires
        0 <= r <= MAX_RANK,
        -(r + 1) <= u <= r + 1,
    ensures
        res == cgn_val(r as int, u as int),
{
    proof {
        assert(0 <= r * r <= 100000000 && -200020000 <= 2 * r * u <= 200020000 && 0 <= u * u
            <= 100020001 && 0 <= 4 * r * r <= 400000000) by (nonlinear_arith)
            requires 0 <= r <= 10000, -(r + 1) <= u <= r + 1;
    }
    let num: i32 = 2 + 3 * r + r * r - 3 * u - 2 * r * u + u * u;
    let den: i32 = 2 + 6 * r + 4 * r * r;
    c_sqrt(&c_div(&c_from_int(num, 0), &c_from_int(den, 0)))
}

/// The coupling coefficient for the coupled rank-1 projection `la`, which
/// must be one of `1`, `0`, `-1`.
pub fn c_g(r: i32, u: i32, la: i32) -> (res: Complex64)
    requires
        0 <= r <= MAX_RANK,
        -(r + 1) <= u <= r + 1,
        -1 <= la <= 1,
    ensures
        res == cg_val(r as int, u as int, la as int),
{
    if la == 1 {
        c_g_p(r, u)
    } else if la == 0 {
        c_g_z(r, u)
    } else {
        c_g_n(r, u)
    }
}

/// The entry of a rank-1 tensor operator: the spin observable for the
/// projection `u`.
pub open spec fn q1_entry(tj: int, u: int, r: int, c: int) -> Complex64 {
    if u == 0 {
        sz_entry(tj, r, c)
    } else if u == 1 {
        neg_of(add_of(sx_entry(tj, r, c), sy_entry(tj, r, c)))
    } else {
        sub_of(sx_entry(tj, r, c), sy_entry(tj, r, c))
    }
}

/// The rank-1 tensor operator for projection `u` in `{1, 0, -1}`: the
/// diagonal observable for `u = 0`, and the negated sum or the difference of
/// the two ladder combinations otherwise.
pub fn q_1_u(two_j: usize, u: i32) -> (res: Matrix)
    requires
        two_j < MAX_RANK,
        -1 <= u <= 1,
    ensures
        res.wf(),
        res.dim() == two_j + 1,
        forall|p: int, q: int|
            0 <= p < two_j + 1 && 0 <= q < two_j + 1 ==> res.at(p, q) == q1_entry(
                two_j as int,
                u as int,
                p,
                q,
            ),
{
    if u == 0 {
        s_z(two_j)
    } else if u == 1 {
        s_x(two_j).add(&s_y(two_j)).neg()
    } else {
        s_x(two_j).sub(&s_y(two_j))
    }
}

/// Partial row-by-column sum of a rank-`(r-1)` operator against a rank-1
/// operator, entrywise: the first `k` terms.
pub open spec fn q_prod_acc(tj: int, r: int, i: int, la: int, p: int, q: int, k: int) -> Complex64
    decreases r, 0int, k,
{
    if r < 2 || k <= 0 {
        c_of(0, 0)
    } else {
        add_of(
            q_prod_acc(tj, r, i, la, p, q, k - 1),
            mul_of(q_entry(tj, r - 1, i, p, k - 1), q1_entry(tj, la, k - 1, q)),
        )
    }
}

/// The coupled sum defining a rank-`r` operator entry: the first `cnt` of
/// the three candidate coupled projections folded in, each weighted by its
/// coupling coefficient.
pub open spec fn q_rank_acc(tj: int, r: int, u: int, p: int, q: int, cnt: int) -> Complex64
    decreases r, 1int, cnt,
{
    if r < 2 || cnt <= 0 {
        c_of(0, 0)
    } else {
        let prev = q_rank_acc(tj, r, u, p, q, cnt - 1);
        let i = u - 1 + (cnt - 1);
        if -r < i && i < r {
            add_of(
                prev,
                mul_of(cg_val(r - 1, i, u - i), q_prod_acc(tj, r, i, u - i, p, q, tj + 1)),
            )
        } else {
            prev
        }
    }
}

/// The entry of the rank-`r`, projection-`u` tensor operator: the rank-1
/// observable at rank 1, the Clebsch-Gordan coupled sum of rank-`(r-1)`
/// and rank-1 products above it.
pub open spec fn q_entry(tj: int, r: int, u: int, p: int, q: int) -> Complex64
    decreases r, 2int, 0int,
{
    if r <= 1 {
        q1_entry(tj, u, p, q)
    } else {
        q_rank_acc(tj, r, u, p, q, 3)
    }
}

/// A product of matrices whose entries match a rank-`(r-1)` and a rank-1
/// operator matches the entrywise product sum.
proof fn lemma_mm_matches_q(
    a: &Matrix,
    b: &Matrix,
    tj: int,
    r: int,
    i: int,
    la: int,
    p: int,
    q: int,
    k: int,
)
    requires
        a.wf(),
        b.wf(),
        a.dim() == tj + 1,
        b.dim() == tj + 1,
        forall|x: int, y: int|
            0 <= x < tj + 1 && 0 <= y < tj + 1 ==> #[trigger] a.at(x, y) == q_entry(
                tj,
                r - 1,
                i,
                x,
                y,
            ),
        forall|x: int, y: int|
            0 <= x < tj + 1 && 0 <= y < tj + 1 ==> #[trigger] b.at(x, y) == q1_entry(tj, la, x, y),
        2 <= r,
        0 <= p < tj + 1,
        0 <= q < tj + 1,
        0 <= k <= tj + 1,
    ensures
        mm_acc(a, b, p, q, k) == q_prod_acc(tj, r, i, la, p, q, k),
    decreases k,
{
    if k > 0 {
        lemma_mm_matches_q(a, b, tj, r, i, la, p, q, k - 1);
    }
}

/// Builds the row of rank-`rank` operators (projections `-rank ..= rank`)
/// from the row of rank-`(rank - 1)` operators: each is the coupled sum of
/// products of a rank-`(rank - 1)` and a rank-1 operator.
fn rank_row(two_j: usize, rank: i32, prev: &Vec<Matrix>) -> (cur: Vec<Matrix>)
    requires
        two_j < MAX_RANK,
        2 <= rank <= MAX_RANK,
        prev@.len() == 2 * (rank as int) - 1,
        forall|t: int|
            0 <= t < prev@.len() ==> (#[trigger] prev@[t]).wf() && prev@[t].dim() == two_j + 1,
        forall|t: int, p: int, q: int|
            0 <= t < prev@.len() && 0 <= p < two_j + 1 && 0 <= q < two_j + 1
                ==> #[trigger] prev@[t].at(p, q) == q_entry(
                two_j as int,
                rank as int - 1,
                t - (rank as int - 1),
                p,
                q,
            ),
    ensures
        cur@.len() == 2 * (rank as int) + 1,
        forall|t: int|
            0 <= t < cur@.len() ==> (#[trigger] cur@[t]).wf() && cur@[t].dim() == two_j + 1,
        forall|t: int, p: int, q: int|
            0 <= t < cur@.len() && 0 <= p < two_j + 1 && 0 <= q < two_j + 1
                ==> #[trigger] cur@[t].at(p, q) == q_entry(
                two_j as int,
                rank as int,
                t - (rank as int),
                p,
                q,
            ),
{
    let n = two_j + 1;
    let width: usize = 2 * (rank as usize) + 1;
    let mut cur: Vec<Matrix> = Vec::new();
    let mut t: usize = 0;
    while t < width
        invariant
            two_j < MAX_RANK,
            2 <= rank <= MAX_RANK,
            n == two_j + 1,
            width == 2 * (rank as int) + 1,
            prev@.len() == 2 * (rank as int) - 1,
            forall|a: int|
                0 <= a < prev@.len() ==> (#[trigger] prev@[a]).wf() && prev@[a].dim() == n,
            forall|a: int, p: int, q: int|
                0 <= a < prev@.len() && 0 <= p < n && 0 <= q < n ==> #[trigger] prev@[a].at(p, q)
                    == q_entry(two_j as int, rank as int - 1, a - (rank as int - 1), p, q),
            t <= width,
            cur@.len() == t,
            forall|a: int| 0 <= a < cur@.len() ==> (#[trigger] cur@[a]).wf() && cur@[a].dim() == n,
            forall|a: int, p: int, q: int|
                0 <= a < cur@.len() && 0 <= p < n && 0 <= q < n ==> #[trigger] cur@[a].at(p, q)
                    == q_entry(two_j as int, rank as int, a - (rank as int), p, q),
        decreases width - t,
    {
        let u2: i32 = (t as i32) - rank;
        let mut mat = Matrix::zeros(n);
        let mut i: i32 = u2 - 1;
        proof {
            assert(forall|p: int, q: int|
                0 <= p < n && 0 <= q < n ==> #[trigger] mat.at(p, q) == q_rank_acc(
                    two_j as int,
                    rank as int,
                    u2 as int,
                    p,
                    q,
                    0,
                ));
        }
        while i <= u2 + 1
            invariant
                two_j < MAX_RANK,
                2 <= rank <= MAX_RANK,
                n == two_j + 1,
                prev@.len() == 2 * (rank as int) - 1,
                forall|a: int|
                    0 <= a < prev@.len() ==> (#[trigger] prev@[a]).wf() && prev@[a].dim() == n,
                forall|a: int, p: int, q: int|
                    0 <= a < prev@.len() && 0 <= p < n && 0 <= q < n ==> #[trigger] prev@[a].at(
                        p,
                        q,
                    ) == q_entry(two_j as int, rank as int - 1, a - (rank as int - 1), p, q),
                -(rank + 2) <= u2 - 1 <= i <= u2 + 2,
                u2 <= rank + 1,
                mat.wf(),
                mat.dim() == n,
                forall|p: int, q: int|
                    0 <= p < n && 0 <= q < n ==> #[trigger] mat.at(p, q) == q_rank_acc(
                        two_j as int,
                        rank as int,
                        u2 as int,
                        p,
                        q,
                        i - (u2 - 1),
                    ),
            decreases u2 + 2 - i,
        {
            if i > -rank && i < rank {
                let q1 = q_1_u(two_j, u2 - i);
                let cg = c_g(rank - 1, i, u2 - i);
                let base_el = &prev[(i + rank - 1) as usize];
                let prod = base_el.matmul(&q1);
                proof {
                    assert forall|pp: int, qq: int|
                        0 <= pp < n && 0 <= qq < n implies #[trigger] prod.at(pp, qq)
                        == q_prod_acc(
                        two_j as int,
                        rank as int,
                        i as int,
                        (u2 - i) as int,
                        pp,
                        qq,
                        two_j + 1,
                    ) by {
                        assert forall|x: int, y: int|
                            0 <= x < two_j + 1 && 0 <= y < two_j + 1 implies #[trigger] base_el.at(
                            x,
                            y,
                        ) == q_entry(two_j as int, rank as int - 1, i as int, x, y) by {
                            assert(prev@[(i + rank - 1) as int].at(x, y) == q_entry(
                                two_j as int,
                                rank as int - 1,
                                (i + rank - 1) as int - (rank as int - 1),
                                x,
                                y,
                            ));
                        }
                        lemma_mm_matches_q(
                            base_el,
                            &q1,
                            two_j as int,
                            rank as int,
                            i as int,
                            (u2 - i) as int,
                            pp,
                            qq,
                            two_j + 1,
                        );
                    }
                }
                mat = mat.add(&prod.scale(&cg));
            }
            i = i + 1;
        }
        cur.push(mat);
        t = t + 1;
    }
    cur
}

/// The rank-`r`, projection-`u` tensor operator for spin `two_j / 2`,
/// with `1 <= r <= 2j` and `-r <= u <= r`, computed iteratively with the
/// rank rows as memo.
pub fn q_r_u(two_j: usize, r: i32, u: i32) -> (res: Matrix)
    requires
        two_j < MAX_RANK,
        1 <= r <= two_j as int,
        -r <= u <= r,
    ensures
        res.wf(),
        res.dim() == two_j + 1,
        forall|p: int, q: int|
            0 <= p < two_j + 1 && 0 <= q < two_j + 1 ==> res.at(p, q) == q_entry(
                two_j as int,
                r as int,
                u as int,
                p,
                q,
            ),
{
    if r == 1 {
        return q_1_u(two_j, u);
    }
    let mut prev: Vec<Matrix> = Vec::new();
    prev.push(q_1_u(two_j, -1));
    prev.push(q_1_u(two_j, 0));
    prev.push(q_1_u(two_j, 1));
    let mut rank: i32 = 1;
    while rank < r
        invariant
            two_j < MAX_RANK,
            1 <= rank <= r <= two_j as int,
            prev@.len() == 2 * (rank as int) + 1,
            forall|t: int|
                0 <= t < prev@.len() ==> (#[trigger] prev@[t]).wf() && prev@[t].dim() == two_j + 1,
            forall|t: int, p: int, q: int|
                0 <= t < prev@.len() && 0 <= p < two_j + 1 && 0 <= q < two_j + 1
                    ==> #[trigger] prev@[t].at(p, q) == q_entry(
                    two_j as int,
                    rank as int,
                    t - (rank as int),
                    p,
                    q,
                ),
        decreases r - rank,
    {
        let next = rank_row(two_j, rank + 1, &prev);
        prev = next;
        rank = rank + 1;
    }
    let idx: usize = (u + r) as usize;
    prev[idx].duplicate()
}

/// The raw spherical tensor basis for spin `two_j / 2`: the operators of
/// rank `1 ..= 2j`, each rank contributing its `2r + 1` projections in
/// order `-r ..= r`, so `n^2 - 1` matrices in all for `n = 2j + 1`.
pub fn basis_from_spin(two_j: usize) -> (v: Vec<Matrix>)
    requires
        two_j < MAX_RANK,
    ensures
        v@.len() == (two_j + 1) * (two_j + 1) - 1,
        forall|t: int|
            0 <= t < v@.len() ==> (#[trigger] v@[t]).wf() && v@[t].dim() == two_j + 1,
        forall|rr: int, uu: int, p: int, q: int|
            1 <= rr <= two_j && -rr <= uu <= rr && 0 <= p < two_j + 1 && 0 <= q < two_j + 1
                ==> #[trigger] v@[rr * rr - 1 + rr + uu].at(p, q) == q_entry(
                two_j as int,
                rr,
                uu,
                p,
                q,
            ),
{
    let mut v: Vec<Matrix> = Vec::new();
    if two_j == 0 {
        return v;
    }
    let tji: i32 = two_j as i32;
    let mut prev: Vec<Matrix> = Vec::new();
    prev.push(q_1_u(two_j, -1));
    prev.push(q_1_u(two_j, 0));
    prev.push(q_1_u(two_j, 1));
    let mut rank: i32 = 1;
    while rank <= tji
        invariant
            two_j < MAX_RANK,
            tji == two_j as int,
            1 <= rank <= tji + 1,
            v@.len() == (rank as int) * (rank as int) - 1,
            forall|t: int|
                0 <= t < v@.len() ==> (#[trigger] v@[t]).wf() && v@[t].dim() == two_j + 1,
            rank <= tji ==> prev@.len() == 2 * (rank as int) + 1,
            forall|t: int|
                0 <= t < prev@.len() ==> (#[trigger] prev@[t]).wf() && prev@[t].dim() == two_j + 1,
            rank <= tji ==> forall|t: int, p: int, q: int|
                0 <= t < prev@.len() && 0 <= p < two_j + 1 && 0 <= q < two_j + 1
                    ==> #[trigger] prev@[t].at(p, q) == q_entry(
                    two_j as int,
                    rank as int,
                    t - (rank as int),
                    p,
                    q,
                ),
            forall|rr: int, uu: int, p: int, q: int|
                1 <= rr < rank && -rr <= uu <= rr && 0 <= p < two_j + 1 && 0 <= q < two_j + 1
                    ==> #[trigger] v@[rr * rr - 1 + rr + uu].at(p, q) == q_entry(
                    two_j as int,
                    rr,
                    uu,
                    p,
                    q,
                ),
        decreases tji + 1 - rank,
    {
        let mut t: usize = 0;
        while t < prev.len()
            invariant
                prev@.len() == 2 * (rank as int) + 1,
                forall|a: int|
                    0 <= a < prev@.len() ==> (#[trigger] prev@[a]).wf() && prev@[a].dim() == two_j
                        + 1,
                forall|a: int, p: int, q: int|
                    0 <= a < prev@.len() && 0 <= p < two_j + 1 && 0 <= q < two_j + 1
                        ==> #[trigger] prev@[a].at(p, q) == q_entry(
                        two_j as int,
                        rank as int,
                        a - (rank as int),
                        p,
                        q,
                    ),
                t <= prev@.len(),
                v@.len() == (rank as int) * (rank as int) - 1 + t,
                forall|a: int|
                    0 <= a < v@.len() ==> (#[trigger] v@[a]).wf() && v@[a].dim() == two_j + 1,
                two_j < MAX_RANK,
                1 <= rank,
                forall|rr: int, uu: int, p: int, q: int|
                    1 <= rr < rank && -rr <= uu <= rr && 0 <= p < two_j + 1 && 0 <= q < two_j + 1
                        ==> #[trigger] v@[rr * rr - 1 + rr + uu].at(p, q) == q_entry(
                        two_j as int,
                        rr,
                        uu,
                        p,
                        q,
                    ),
                forall|t2: int, p: int, q: int|
                    0 <= t2 < t && 0 <= p < two_j + 1 && 0 <= q < two_j + 1
                        ==> #[trigger] v@[(rank as int) * (rank as int) - 1 + t2].at(p, q)
                        == q_entry(two_j as int, rank as int, t2 - (rank as int), p, q),
            decreases prev@.len() - t,
        {
            let ghost vbefore = v@;
            v.push(prev[t].duplicate());
            proof {
                assert forall|rr: int, uu: int, p: int, q: int|
                    1 <= rr < rank && -rr <= uu <= rr && 0 <= p < two_j + 1 && 0 <= q < two_j + 1
                        implies #[trigger] v@[rr * rr - 1 + rr + uu].at(p, q) == q_entry(
                    two_j as int,
                    rr,
                    uu,
                    p,
                    q,
                ) by {
                    assert(0 <= rr * rr - 1 + rr + uu && rr * rr - 1 + rr + uu < rank * rank - 1)
                        by (nonlinear_arith)
                        requires 1 <= rr < rank, -rr <= uu <= rr;
                    assert(v@[rr * rr - 1 + rr + uu] == vbefore[rr * rr - 1 + rr + uu]);
                }
                assert forall|t2: int, p: int, q: int|
                    0 <= t2 < t + 1 && 0 <= p < two_j + 1 && 0 <= q < two_j + 1
                        implies #[trigger] v@[(rank as int) * (rank as int) - 1 + t2].at(p, q)
                    == q_entry(two_j as int, rank as int, t2 - (rank as int), p, q) by {
                    assert(1 <= rank * rank) by (nonlinear_arith)
                        requires 1 <= rank;
                    if t2 < t {
                        assert(v@[(rank as int) * (rank as int) - 1 + t2] == vbefore[(
                        rank as int) * (rank as int) - 1 + t2]);
                    } else {
                        assert(v@[(rank as int) * (rank as int) - 1 + t2].at(p, q) == prev@[t2].at(
                            p,
                            q,
                        ));
                        assert(prev@[t2].at(p, q) == q_entry(
                            two_j as int,
                            rank as int,
                            t2 - (rank as int),
                            p,
                            q,
                        ));
                    }
                }
            }
            t = t + 1;
        }
        proof {
            assert forall|uu: int, p: int, q: int|
                -(rank as int) <= uu <= rank as int && 0 <= p < two_j + 1 && 0 <= q < two_j + 1
                    implies #[trigger] v@[(rank as int) * (rank as int) - 1 + (rank as int)
                + uu].at(p, q) == q_entry(two_j as int, rank as int, uu, p, q) by {
                assert(v@[(rank as int) * (rank as int) - 1 + ((rank as int) + uu)].at(p, q)
                    == q_entry(
                    two_j as int,
                    rank as int,
                    ((rank as int) + uu) - (rank as int),
                    p,
                    q,
                ));
            }
        }
        proof {
            assert((rank + 1) * (rank + 1) - 1 == rank * rank - 1 + (2 * rank + 1)) by (nonlinear_arith);
        }
        if rank < tji {
            let next = rank_row(two_j, rank + 1, &prev);
            prev = next;
        }
        rank = rank + 1;
    }
    proof {
        assert((tji + 1) * (tji + 1) == (two_j + 1) * (two_j + 1)) by (nonlinear_arith)
            requires tji == two_j as int;
    }
    v
}

/// The slot, within one rank's block of the Hermitian basis, of the first
/// generator built from projection `u`: the `u = 0` projection gives one
/// generator, every later projection two.
pub open spec fn herm_slot(u: int) -> int {
    if u == 0 {
        0
    } else {
        2 * u - 1
    }
}

/// The raw mirror partner as the pairing signs it: negated for odd `u`.
pub open spec fn herm_signed(b: Complex64, u: int) -> Complex64 {
    if u % 2 == 1 {
        neg_of(b)
    } else {
        b
    }
}

/// The symmetric Hermitian combination: half the sum of a raw operator
/// entry and its signed mirror entry.
pub open spec fn herm_sym_entry(a: Complex64, b: Complex64, u: int) -> Complex64 {
    mul_of(half_val(), add_of(a, herm_signed(b, u)))
}

/// The antisymmetric Hermitian combination: half the difference of a raw
/// operator entry and its signed mirror entry, scaled by the imaginary unit.
pub open spec fn herm_asym_entry(a: Complex64, b: Complex64, u: int) -> Complex64 {
    mul_of(half_val(), mul_of(c_of(0, 1), sub_of(a, herm_signed(b, u))))
}

/// Pairs the raw rank-`r` operators (whose block starts at `base` in `raw`)
/// into Hermitian combinations: for each projection `u` in `0 ..= r`, the
/// operator at `base + r + u` meets its mirror at `base + r - u`; the
/// symmetric half-sum always lands in the block, the scaled half-difference
/// follows it for `u > 0`.
fn pair_rank(raw: &Vec<Matrix>, base: usize, r: usize, n: usize, half: &Complex64, iunit: &Complex64) -> (out: Vec<Matrix>)
    requires
        forall|t: int| 0 <= t < raw@.len() ==> (#[trigger] raw@[t]).wf() && raw@[t].dim() == n,
        n <= crate::matrix::MAX_DIM,
        1 <= r,
        base + 2 * r < raw@.len(),
        *half == half_val(),
        *iunit == c_of(0, 1),
    ensures
        out@.len() == 2 * r + 1,
        forall|t: int| 0 <= t < out@.len() ==> (#[trigger] out@[t]).wf() && out@[t].dim() == n,
        forall|u: int, p: int, q: int|
            0 <= u <= r && 0 <= p < n && 0 <= q < n ==> #[trigger] out@[herm_slot(u)].at(p, q)
                == herm_sym_entry(
                raw@[base + r + u].at(p, q),
                raw@[base + r - u].at(p, q),
                u,
            ),
        forall|u: int, p: int, q: int|
            1 <= u <= r && 0 <= p < n && 0 <= q < n ==> #[trigger] out@[herm_slot(u) + 1].at(p, q)
                == herm_asym_entry(
                raw@[base + r + u].at(p, q),
                raw@[base + r - u].at(p, q),
                u,
            ),
{
    let raw_len = raw.len();
    let mut out: Vec<Matrix> = Vec::new();
    let mut u: usize = 0;
    while u <= r
        invariant
            forall|t: int| 0 <= t < raw@.len() ==> (#[trigger] raw@[t]).wf() && raw@[t].dim() == n,
            n <= crate::matrix::MAX_DIM,
            1 <= r,
            raw_len == raw@.len(),
            base + 2 * r < raw_len,
            *half == half_val(),
            *iunit == c_of(0, 1),
            u <= r + 1,
            out@.len() == herm_slot(u as int),
            forall|t: int| 0 <= t < out@.len() ==> (#[trigger] out@[t]).wf() && out@[t].dim() == n,
            forall|u2: int, p: int, q: int|
                0 <= u2 < u && 0 <= p < n && 0 <= q < n ==> #[trigger] out@[herm_slot(u2)].at(p, q)
                    == herm_sym_entry(
                    raw@[base + r + u2].at(p, q),
                    raw@[base + r - u2].at(p, q),
                    u2,
                ),
            forall|u2: int, p: int, q: int|
                1 <= u2 < u && 0 <= p < n && 0 <= q < n ==> #[trigger] out@[herm_slot(u2) + 1].at(
                    p,
                    q,
                ) == herm_asym_entry(
                    raw@[base + r + u2].at(p, q),
                    raw@[base + r - u2].at(p, q),
                    u2,
                ),
        decreases r + 1 - u,
    {
        let u_a = &raw[base + r + u];
        let mirror = &raw[base + r - u];
        if u % 2 == 1 {
            let b = mirror.neg();
            out.push(u_a.add(&b).scale(half));
            out.push(u_a.sub(&b).scale(iunit).scale(half));
        } else {
            out.push(u_a.add(mirror).scale(half));
            if u > 0 {
                out.push(u_a.sub(mirror).scale(iunit).scale(half));
            }
        }
        u = u + 1;
    }
    out
}

/// The Hermitian spherical tensor basis for spin `two_j / 2`: each raw
/// operator with projection `u > 0` is paired with its mirror `-u` partner
/// (signed by the parity of `u`); the half-sum gives one Hermitian
/// generator, the half-difference scaled by the imaginary unit another, and
/// each rank's `u = 0` operator gives exactly one. In all `n^2 - 1`
/// Hermitian matrices for `n = 2j + 1`.
pub fn hermitian_basis_from_spin(two_j: usize) -> (v: Vec<Matrix>)
    requires
        two_j < MAX_RANK,
    ensures
        v@.len() == (two_j + 1) * (two_j + 1) - 1,
        forall|t: int|
            0 <= t < v@.len() ==> (#[trigger] v@[t]).wf() && v@[t].dim() == two_j + 1,
        forall|rr: int, uu: int, p: int, q: int|
            1 <= rr <= two_j && 0 <= uu <= rr && 0 <= p < two_j + 1 && 0 <= q < two_j + 1
                ==> #[trigger] v@[rr * rr - 1 + herm_slot(uu)].at(p, q) == herm_sym_entry(
                q_entry(two_j as int, rr, uu, p, q),
                q_entry(two_j as int, rr, -uu, p, q),
                uu,
            ),
        forall|rr: int, uu: int, p: int, q: int|
            1 <= rr <= two_j && 1 <= uu <= rr && 0 <= p < two_j + 1 && 0 <= q < two_j + 1
                ==> #[trigger] v@[rr * rr - 1 + herm_slot(uu) + 1].at(p, q) == herm_asym_entry(
                q_entry(two_j as int, rr, uu, p, q),
                q_entry(two_j as int, rr, -uu, p, q),
                uu,
            ),
{
    let n = two_j + 1;
    let basis = basis_from_spin(two_j);
    let mut herm: Vec<Matrix> = Vec::new();
    let half = c_div(&c_from_int(1, 0), &c_from_int(2, 0));
    let iunit = c_from_int(0, 1);
    let mut i: usize = 0;
    let mut r: usize = 1;
    while r < n
        invariant
            two_j < MAX_RANK,
            n == two_j + 1,
            basis@.len() == n * n - 1,
            forall|t: int|
                0 <= t < basis@.len() ==> (#[trigger] basis@[t]).wf() && basis@[t].dim() == n,
            forall|rr: int, uu: int, p: int, q: int|
                1 <= rr <= two_j && -rr <= uu <= rr && 0 <= p < two_j + 1 && 0 <= q < two_j + 1
                    ==> #[trigger] basis@[rr * rr - 1 + rr + uu].at(p, q) == q_entry(
                    two_j as int,
                    rr,
                    uu,
                    p,
                    q,
                ),
            half == half_val(),
            iunit == c_of(0, 1),
            1 <= r <= n,
            i == r * r - 1,
            herm@.len() == i,
            forall|t: int|
                0 <= t < herm@.len() ==> (#[trigger] herm@[t]).wf() && herm@[t].dim() == n,
            forall|rr: int, uu: int, p: int, q: int|
                1 <= rr < r && 0 <= uu <= rr && 0 <= p < n && 0 <= q < n
                    ==> #[trigger] herm@[rr * rr - 1 + herm_slot(uu)].at(p, q) == herm_sym_entry(
                    q_entry(two_j as int, rr, uu, p, q),
                    q_entry(two_j as int, rr, -uu, p, q),
                    uu,
                ),
            forall|rr: int, uu: int, p: int, q: int|
                1 <= rr < r && 1 <= uu <= rr && 0 <= p < n && 0 <= q < n
                    ==> #[trigger] herm@[rr * rr - 1 + herm_slot(uu) + 1].at(p, q)
                    == herm_asym_entry(
                    q_entry(two_j as int, rr, uu, p, q),
                    q_entry(two_j as int, rr, -uu, p, q),
                    uu,
                ),
        decreases n - r,
    {
        proof {
            assert((r + 1) * (r + 1) <= n * n) by (nonlinear_arith)
                requires 0 <= r, r + 1 <= n;
            assert(n * n <= 100020001) by (nonlinear_arith)
                requires n <= 10001;
            assert(r * r - 1 + 2 * r == (r + 1) * (r + 1) - 2) by (nonlinear_arith);
        }
        let ghost herm_before = herm@;
        let mut block = pair_rank(&basis, i, r, n, &half, &iunit);
        let ghost block_seq = block@;
        herm.append(&mut block);
        proof {
            assert forall|t: int|
                0 <= t < herm@.len() implies (#[trigger] herm@[t]).wf() && herm@[t].dim() == n by {
                if t < herm_before.len() {
                    assert(herm@[t] == herm_before[t]);
                } else {
                    assert(herm@[t] == block_seq[t - herm_before.len()]);
                }
            }
            assert((r + 1) * (r + 1) - 1 == r * r - 1 + (2 * r + 1)) by (nonlinear_arith);
            // Earlier ranks keep their pairing.
            assert forall|rr: int, uu: int, p: int, q: int|
                1 <= rr < r && 0 <= uu <= rr && 0 <= p < n && 0 <= q < n
                    implies #[trigger] herm@[rr * rr - 1 + herm_slot(uu)].at(p, q)
                == herm_sym_entry(
                q_entry(two_j as int, rr, uu, p, q),
                q_entry(two_j as int, rr, -uu, p, q),
                uu,
            ) by {
                if uu == 0 {
                    assert(0 <= rr * rr - 1 && rr * rr - 1 < r * r - 1) by (nonlinear_arith)
                        requires 1 <= rr < r;
                    assert(herm@[rr * rr - 1 + herm_slot(0)] == herm_before[rr * rr - 1
                        + herm_slot(0)]);
                } else {
                    assert(herm_slot(uu) == 2 * uu - 1);
                    assert(0 <= rr * rr - 1 + (2 * uu - 1) && rr * rr - 1 + (2 * uu - 1) + 1 < r
                        * r - 1) by (nonlinear_arith)
                        requires 1 <= rr < r, 1 <= uu <= rr;
                    assert(herm@[rr * rr - 1 + herm_slot(uu)] == herm_before[rr * rr - 1
                        + herm_slot(uu)]);
                }
            }
            assert forall|rr: int, uu: int, p: int, q: int|
                1 <= rr < r && 1 <= uu <= rr && 0 <= p < n && 0 <= q < n
                    implies #[trigger] herm@[rr * rr - 1 + herm_slot(uu) + 1].at(p, q)
                == herm_asym_entry(
                q_entry(two_j as int, rr, uu, p, q),
                q_entry(two_j as int, rr, -uu, p, q),
                uu,
            ) by {
                assert(herm_slot(uu) == 2 * uu - 1);
                assert(0 <= rr * rr - 1 + (2 * uu - 1) && rr * rr - 1 + (2 * uu - 1) + 1 < r * r
                    - 1) by (nonlinear_arith)
                    requires 1 <= rr < r, 1 <= uu <= rr;
                assert(herm@[rr * rr - 1 + herm_slot(uu) + 1] == herm_before[rr * rr - 1
                    + herm_slot(uu) + 1]);
            }
            // The new rank's block carries the pairing of its raw operators.
            assert forall|uu: int, p: int, q: int|
                0 <= uu <= r && 0 <= p < n && 0 <= q < n
                    implies #[trigger] herm@[(r as int) * (r as int) - 1 + herm_slot(uu)].at(p, q)
                == herm_sym_entry(
                q_entry(two_j as int, r as int, uu, p, q),
                q_entry(two_j as int, r as int, -uu, p, q),
                uu,
            ) by {
                let s = herm_slot(uu);
                assert(0 <= s && s + 1 <= 2 * r);
                assert(herm@[i + s] == block_seq[s]);
                assert(block_seq[s].at(p, q) == herm_sym_entry(
                    basis@[i + r + uu].at(p, q),
                    basis@[i + r - uu].at(p, q),
                    uu,
                ));
                assert(basis@[(r as int) * (r as int) - 1 + (r as int) + uu].at(p, q) == q_entry(
                    two_j as int,
                    r as int,
                    uu,
                    p,
                    q,
                ));
                assert(basis@[(r as int) * (r as int) - 1 + (r as int) + (-uu)].at(p, q)
                    == q_entry(two_j as int, r as int, -uu, p, q));
            }
            assert forall|uu: int, p: int, q: int|
                1 <= uu <= r && 0 <= p < n && 0 <= q < n
                    implies #[trigger] herm@[(r as int) * (r as int) - 1 + herm_slot(uu) + 1].at(
                p,
                q,
            ) == herm_asym_entry(
                q_entry(two_j as int, r as int, uu, p, q),
                q_entry(two_j as int, r as int, -uu, p, q),
                uu,
            ) by {
                let s = herm_slot(uu);
                assert(0 <= s && s + 1 <= 2 * r);
                assert(herm@[i + s + 1] == block_seq[s + 1]);
                assert(block_seq[s + 1].at(p, q) == herm_asym_entry(
                    basis@[i + r + uu].at(p, q),
                    basis@[i + r - uu].at(p, q),
                    uu,
                ));
                assert(basis@[(r as int) * (r as int) - 1 + (r as int) + uu].at(p, q) == q_entry(
                    two_j as int,
                    r as int,
                    uu,
                    p,
                    q,
                ));
                assert(basis@[(r as int) * (r as int) - 1 + (r as int) + (-uu)].at(p, q)
                    == q_entry(two_j as int, r as int, -uu, p, q));
            }
        }
        i = i + 2 * r + 1;
        r = r + 1;
    }
    proof {
        assert forall|rr: int, uu: int, p: int, q: int|
            1 <= rr <= two_j && 0 <= uu <= rr && 0 <= p < two_j + 1 && 0 <= q < two_j + 1
                implies #[trigger] herm@[rr * rr - 1 + herm_slot(uu)].at(p, q) == herm_sym_entry(
                q_entry(two_j as int, rr, uu, p, q),
                q_entry(two_j as int, rr, -uu, p, q),
                uu,
            ) by {
            assert(1 <= rr < r && 0 <= p < n && 0 <= q < n);
        }
        assert forall|rr: int, uu: int, p: int, q: int|
            1 <= rr <= two_j && 1 <= uu <= rr && 0 <= p < two_j + 1 && 0 <= q < two_j + 1
                implies #[trigger] herm@[rr * rr - 1 + herm_slot(uu) + 1].at(p, q)
            == herm_asym_entry(
            q_entry(two_j as int, rr, uu, p, q),
            q_entry(two_j as int, rr, -uu, p, q),
            uu,
        ) by {
            assert(1 <= rr < r && 0 <= p < n && 0 <= q < n);
        }
    }
    herm
}

} // verus!
