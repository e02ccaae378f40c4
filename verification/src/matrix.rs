//! Dense square complex matrices with verified shape and entry bookkeeping.
//!
//! Entries are opaque complex scalars; every operation's contract states the
//! resulting entries exactly, as expressions over the named scalar operations
//! of `crate::complex`.

use vstd::prelude::*;
use num_complex::Complex64;
use crate::complex::{
    abs_diff_ne_of, add_of, c_abs_diff_ne, c_add, c_conj, c_from_int, c_mul, c_neg, c_of, c_sub,
    conj_of, mul_of, neg_of, sub_of,
};

verus! {

/// Largest matrix dimension the crate accepts: keeps index arithmetic inside
/// `usize` and entry constructions inside `i32` on this machine.
pub const MAX_DIM: usize = 46340;

/// A dense square matrix of complex scalars, stored row-major.
#[derive(Debug)]
pub struct Matrix {
    n: usize,
    data: Vec<Complex64>,
}

/// A flat row-major index stays inside the square.
pub proof fn lemma_index_in_range(i: int, j: int, n: int)
    requires
        0 <= i < n,
        0 <= j < n,
        n <= MAX_DIM,
    ensures
        0 <= i * n + j < n * n,
        n * n <= 2147395600,
    decreases n,
{
    assert(0 <= i * n + j < n * n && n * n <= 2147395600) by (nonlinear_arith)
        requires 0 <= i < n, 0 <= j < n, n <= 46340;
}

/// Distinct positions have distinct flat indices.
pub proof fn lemma_index_injective(i1: int, j1: int, i2: int, j2: int, n: int)
    requires
        0 <= i1 < n,
        0 <= j1 < n,
        0 <= i2 < n,
        0 <= j2 < n,
        i1 * n + j1 == i2 * n + j2,
    ensures
        i1 == i2 && j1 == j2,
{
    assert(i1 == i2 && j1 == j2) by (nonlinear_arith)
        requires 0 <= i1 < n, 0 <= j1 < n, 0 <= i2 < n, 0 <= j2 < n, i1 * n + j1 == i2 * n + j2;
}

impl Matrix {
    /// The matrix dimension (rows and columns alike).
    pub closed spec fn dim(&self) -> int {
        self.n as int
    }

    /// The entries, flattened row-major.
    pub closed spec fn entries(&self) -> Seq<Complex64> {
        self.data@
    }

    /// Shape well-formedness: a square of entries within the size the
    /// machine limits allow.
    pub open spec fn wf(&self) -> bool {
        self.dim() <= MAX_DIM && self.entries().len() == self.dim() * self.dim()
    }

    /// The entry in row `r`, column `c`.
    pub open spec fn at(&self, r: int, c: int) -> Complex64 {
        self.entries()[r * self.dim() + c]
    }

    /// The dimension, as a machine integer.
    pub fn size(&self) -> (r: usize)
        ensures
            r == self.dim(),
    {
        self.n
    }

    /// The flattened entries, row-major.
    pub fn entries_vec(&self) -> (r: &Vec<Complex64>)
        ensures
            r@ == self.entries(),
    {
        &self.data
    }

    /// The all-zero matrix of dimension `n`.
    pub fn zeros(n: usize) -> (r: Matrix)
        requires
            n <= MAX_DIM,
        ensures
            r.wf(),
            r.dim() == n,
            forall|i: int, j: int| 0 <= i < n && 0 <= j < n ==> r.at(i, j) == c_of(0, 0),
    {
        proof {
            if n > 0 {
                lemma_index_in_range(0, 0, n as int);
            }
            assert(n * n <= 2147395600) by (nonlinear_arith) requires n <= 46340;
        }
        let total: usize = n * n;
        let mut data: Vec<Complex64> = Vec::new();
        let mut t: usize = 0;
        while t < total
            invariant
                t <= total,
                data@.len() == t,
                forall|p: int| 0 <= p < t ==> data@[p] == c_of(0, 0),
            decreases total - t,
        {
            data.push(c_from_int(0, 0));
            t = t + 1;
        }
        let r = Matrix { n, data };
        proof {
            assert forall|i: int, j: int| 0 <= i < n && 0 <= j < n implies r.at(i, j) == c_of(0, 0) by {
                lemma_index_in_range(i, j, n as int);
            }
        }
        r
    }

    /// The identity matrix of dimension `n`.
    pub fn identity(n: usize) -> (r: Matrix)
        requires
            n <= MAX_DIM,
        ensures
            r.wf(),
            r.dim() == n,
            forall|i: int, j: int|
                0 <= i < n && 0 <= j < n ==> r.at(i, j) == if i == j {
                    c_of(1, 0)
                } else {
                    c_of(0, 0)
                },
    {
        let mut m = Matrix::zeros(n);
        let mut p: usize = 0;
        while p < n
            invariant
                m.wf(),
                m.dim() == n,
                n <= MAX_DIM,
                p <= n,
                forall|a: int| 0 <= a < p ==> m.at(a, a) == c_of(1, 0),
                forall|a: int, b: int| 0 <= a < n && 0 <= b < n && a != b ==> m.at(a, b) == c_of(0, 0),
            decreases n - p,
        {
            m.set(p, p, c_from_int(1, 0));
            p = p + 1;
        }
        m
    }

    /// An entrywise copy.
    pub fn duplicate(&self) -> (r: Matrix)
        requires
            self.wf(),
        ensures
            r.wf(),
            r.dim() == self.dim(),
            forall|i: int, j: int|
                0 <= i < self.dim() && 0 <= j < self.dim() ==> r.at(i, j) == self.at(i, j),
    {
        let n = self.n;
        let mut out = Matrix::zeros(n);
        let mut i: usize = 0;
        while i < n
            invariant
                self.wf(), out.wf(),
                n == self.dim(), out.dim() == n,
                i <= n,
                forall|p: int, q: int| 0 <= p < i && 0 <= q < n ==> out.at(p, q) == self.at(p, q),
            decreases n - i,
        {
            let mut j: usize = 0;
            while j < n
                invariant
                    self.wf(), out.wf(),
                    n == self.dim(), out.dim() == n,
                    i < n, j <= n,
                    forall|p: int, q: int| 0 <= p < i && 0 <= q < n ==> out.at(p, q) == self.at(p, q),
                    forall|q: int| 0 <= q < j ==> out.at(i as int, q) == self.at(i as int, q),
                decreases n - j,
            {
                let v = self.get(i, j);
                out.set(i, j, v);
                j = j + 1;
            }
            i = i + 1;
        }
        out
    }

    /// Reads one entry.
    pub fn get(&self, r: usize, c: usize) -> (v: Complex64)
        requires
            self.wf(),
            r < self.dim(),
            c < self.dim(),
        ensures
            v == self.at(r as int, c as int),
    {
        proof {
            lemma_index_in_range(r as int, c as int, self.dim());
        }
        self.data[r * self.n + c]
    }

    /// Writes one entry, leaving the rest unchanged.
    pub fn set(&mut self, r: usize, c: usize, v: Complex64)
        requires
            old(self).wf(),
            r < old(self).dim(),
            c < old(self).dim(),
        ensures
            final(self).wf(),
            final(self).dim() == old(self).dim(),
            final(self).at(r as int, c as int) == v,
            forall|i: int, j: int|
                0 <= i < old(self).dim() && 0 <= j < old(self).dim() && !(i == r && j == c)
                    ==> final(self).at(i, j) == old(self).at(i, j),
    {
        proof {
            lemma_index_in_range(r as int, c as int, self.dim());
        }
        let idx: usize = r * self.n + c;
        self.data.set(idx, v);
        proof {
            assert forall|i: int, j: int|
                0 <= i < old(self).dim() && 0 <= j < old(self).dim() && !(i == r && j == c)
                    implies final(self).at(i, j) == old(self).at(i, j) by {
                lemma_index_in_range(i, j, old(self).dim());
                if i * old(self).dim() + j == r * old(self).dim() + c {
                    lemma_index_injective(i, j, r as int, c as int, old(self).dim());
                }
            }
        }
    }

    /// Entrywise sum.
    pub fn add(&self, other: &Matrix) -> (r: Matrix)
        requires
            self.wf(),
            other.wf(),
            self.dim() == other.dim(),
        ensures
            r.wf(),
            r.dim() == self.dim(),
            forall|i: int, j: int|
                0 <= i < self.dim() && 0 <= j < self.dim()
                    ==> r.at(i, j) == add_of(self.at(i, j), other.at(i, j)),
    {
        let n = self.n;
        let mut out = Matrix::zeros(n);
        let mut i: usize = 0;
        while i < n
            invariant
                self.wf(), other.wf(), out.wf(),
                n == self.dim(), other.dim() == n, out.dim() == n,
                i <= n,
                forall|p: int, q: int|
                    0 <= p < i && 0 <= q < n ==> out.at(p, q) == add_of(self.at(p, q), other.at(p, q)),
            decreases n - i,
        {
            let mut j: usize = 0;
            while j < n
                invariant
                    self.wf(), other.wf(), out.wf(),
                    n == self.dim(), other.dim() == n, out.dim() == n,
                    i < n, j <= n,
                    forall|p: int, q: int|
                        0 <= p < i && 0 <= q < n ==> out.at(p, q) == add_of(self.at(p, q), other.at(p, q)),
                    forall|q: int|
                        0 <= q < j ==> out.at(i as int, q) == add_of(self.at(i as int, q), other.at(i as int, q)),
                decreases n - j,
            {
                let v = c_add(&self.get(i, j), &other.get(i, j));
                out.set(i, j, v);
                j = j + 1;
            }
            i = i + 1;
        }
        out
    }

    /// Entrywise difference.
    pub fn sub(&self, other: &Matrix) -> (r: Matrix)
        requires
            self.wf(),
            other.wf(),
            self.dim() == other.dim(),
        ensures
            r.wf(),
            r.dim() == self.dim(),
            forall|i: int, j: int|
                0 <= i < self.dim() && 0 <= j < self.dim()
                    ==> r.at(i, j) == sub_of(self.at(i, j), other.at(i, j)),
    {
        let n = self.n;
        let mut out = Matrix::zeros(n);
        let mut i: usize = 0;
        while i < n
            invariant
                self.wf(), other.wf(), out.wf(),
                n == self.dim(), other.dim() == n, out.dim() == n,
                i <= n,
                forall|p: int, q: int|
                    0 <= p < i && 0 <= q < n ==> out.at(p, q) == sub_of(self.at(p, q), other.at(p, q)),
            decreases n - i,
        {
            let mut j: usize = 0;
            while j < n
                invariant
                    self.wf(), other.wf(), out.wf(),
                    n == self.dim(), other.dim() == n, out.dim() == n,
                    i < n, j <= n,
                    forall|p: int, q: int|
                        0 <= p < i && 0 <= q < n ==> out.at(p, q) == sub_of(self.at(p, q), other.at(p, q)),
                    forall|q: int|
                        0 <= q < j ==> out.at(i as int, q) == sub_of(self.at(i as int, q), other.at(i as int, q)),
                decreases n - j,
            {
                let v = c_sub(&self.get(i, j), &other.get(i, j));
                out.set(i, j, v);
                j = j + 1;
            }
            i = i + 1;
        }
        out
    }

    /// Entrywise negation.
    pub fn neg(&self) -> (r: Matrix)
        requires
            self.wf(),
        ensures
            r.wf(),
            r.dim() == self.dim(),
            forall|i: int, j: int|
                0 <= i < self.dim() && 0 <= j < self.dim() ==> r.at(i, j) == neg_of(self.at(i, j)),
    {
        let n = self.n;
        let mut out = Matrix::zeros(n);
        let mut i: usize = 0;
        while i < n
            invariant
                self.wf(), out.wf(),
                n == self.dim(), out.dim() == n,
                i <= n,
                forall|p: int, q: int|
                    0 <= p < i && 0 <= q < n ==> out.at(p, q) == neg_of(self.at(p, q)),
            decreases n - i,
        {
            let mut j: usize = 0;
            while j < n
                invariant
                    self.wf(), out.wf(),
                    n == self.dim(), out.dim() == n,
                    i < n, j <= n,
                    forall|p: int, q: int|
                        0 <= p < i && 0 <= q < n ==> out.at(p, q) == neg_of(self.at(p, q)),
                    forall|q: int| 0 <= q < j ==> out.at(i as int, q) == neg_of(self.at(i as int, q)),
                decreases n - j,
            {
                let v = c_neg(&self.get(i, j));
                out.set(i, j, v);
                j = j + 1;
            }
            i = i + 1;
        }
        out
    }

    /// Scalar multiple, the scalar on the left.
    pub fn scale(&self, s: &Complex64) -> (r: Matrix)
        requires
            self.wf(),
        ensures
            r.wf(),
            r.dim() == self.dim(),
            forall|i: int, j: int|
                0 <= i < self.dim() && 0 <= j < self.dim() ==> r.at(i, j) == mul_of(*s, self.at(i, j)),
    {
        let n = self.n;
        let mut out = Matrix::zeros(n);
        let mut i: usize = 0;
        while i < n
            invariant
                self.wf(), out.wf(),
                n == self.dim(), out.dim() == n,
                i <= n,
                forall|p: int, q: int|
                    0 <= p < i && 0 <= q < n ==> out.at(p, q) == mul_of(*s, self.at(p, q)),
            decreases n - i,
        {
            let mut j: usize = 0;
            while j < n
                invariant
                    self.wf(), out.wf(),
                    n == self.dim(), out.dim() == n,
                    i < n, j <= n,
                    forall|p: int, q: int|
                        0 <= p < i && 0 <= q < n ==> out.at(p, q) == mul_of(*s, self.at(p, q)),
                    forall|q: int| 0 <= q < j ==> out.at(i as int, q) == mul_of(*s, self.at(i as int, q)),
                decreases n - j,
            {
                let v = c_mul(s, &self.get(i, j));
                out.set(i, j, v);
                j = j + 1;
            }
            i = i + 1;
        }
        out
    }

    /// Conjugate transpose.
    pub fn conj_transpose(&self) -> (r: Matrix)
        requires
            self.wf(),
        ensures
            r.wf(),
            r.dim() == self.dim(),
            forall|i: int, j: int|
                0 <= i < self.dim() && 0 <= j < self.dim() ==> r.at(i, j) == conj_of(self.at(j, i)),
    {
        let n = self.n;
        let mut out = Matrix::zeros(n);
        let mut i: usize = 0;
        while i < n
            invariant
                self.wf(), out.wf(),
                n == self.dim(), out.dim() == n,
                i <= n,
                forall|p: int, q: int|
                    0 <= p < i && 0 <= q < n ==> out.at(p, q) == conj_of(self.at(q, p)),
            decreases n - i,
        {
            let mut j: usize = 0;
            while j < n
                invariant
                    self.wf(), out.wf(),
                    n == self.dim(), out.dim() == n,
                    i < n, j <= n,
                    forall|p: int, q: int|
                        0 <= p < i && 0 <= q < n ==> out.at(p, q) == conj_of(self.at(q, p)),
                    forall|q: int| 0 <= q < j ==> out.at(i as int, q) == conj_of(self.at(q, i as int)),
                decreases n - j,
            {
                let v = c_conj(&self.get(j, i));
                out.set(i, j, v);
                j = j + 1;
            }
            i = i + 1;
        }
        out
    }

    /// Matrix product; each entry is the row-by-column sum `mm_entry`.
    pub fn matmul(&self, other: &Matrix) -> (r: Matrix)
        requires
            self.wf(),
            other.wf(),
            self.dim() == other.dim(),
        ensures
            r.wf(),
            r.dim() == self.dim(),
            forall|i: int, j: int|
                0 <= i < self.dim() && 0 <= j < self.dim() ==> r.at(i, j) == mm_entry(self, other, i, j),
    {
        let n = self.n;
        let mut out = Matrix::zeros(n);
        let mut i: usize = 0;
        while i < n
            invariant
                self.wf(), other.wf(), out.wf(),
                n == self.dim(), other.dim() == n, out.dim() == n,
                i <= n,
                forall|p: int, q: int|
                    0 <= p < i && 0 <= q < n ==> out.at(p, q) == mm_entry(self, other, p, q),
            decreases n - i,
        {
            let mut j: usize = 0;
            while j < n
                invariant
                    self.wf(), other.wf(), out.wf(),
                    n == self.dim(), other.dim() == n, out.dim() == n,
                    i < n, j <= n,
                    forall|p: int, q: int|
                        0 <= p < i && 0 <= q < n ==> out.at(p, q) == mm_entry(self, other, p, q),
                    forall|q: int| 0 <= q < j ==> out.at(i as int, q) == mm_entry(self, other, i as int, q),
                decreases n - j,
            {
                let mut acc = c_from_int(0, 0);
                let mut k: usize = 0;
                while k < n
                    invariant
                        self.wf(), other.wf(),
                        n == self.dim(), other.dim() == n,
                        i < n, j < n, k <= n,
                        acc == mm_acc(self, other, i as int, j as int, k as int),
                    decreases n - k,
                {
                    let term = c_mul(&self.get(i, k), &other.get(k, j));
                    acc = c_add(&acc, &term);
                    k = k + 1;
                }
                out.set(i, j, acc);
                j = j + 1;
            }
            i = i + 1;
        }
        out
    }

    /// Whether every entry of the two matrices agrees within the tolerance;
    /// false as well when the shapes differ.
    pub fn approx_eq(&self, other: &Matrix, eps: &Complex64) -> (r: bool)
        requires
            self.wf(),
            other.wf(),
        ensures
            r == (self.dim() == other.dim() && forall|i: int, j: int|
                0 <= i < self.dim() && 0 <= j < self.dim()
                    ==> !abs_diff_ne_of(self.at(i, j), other.at(i, j), *eps)),
    {
        let n = self.n;
        if other.size() != n {
            return false;
        }
        let mut i: usize = 0;
        while i < n
            invariant
                self.wf(), other.wf(),
                n == self.dim(), other.dim() == n,
                i <= n,
                forall|p: int, q: int|
                    0 <= p < i && 0 <= q < n ==> !abs_diff_ne_of(self.at(p, q), other.at(p, q), *eps),
            decreases n - i,
        {
            let mut j: usize = 0;
            while j < n
                invariant
                    self.wf(), other.wf(),
                    n == self.dim(), other.dim() == n,
                    i < n, j <= n,
                    forall|p: int, q: int|
                        0 <= p < i && 0 <= q < n ==> !abs_diff_ne_of(self.at(p, q), other.at(p, q), *eps),
                    forall|q: int|
                        0 <= q < j ==> !abs_diff_ne_of(self.at(i as int, q), other.at(i as int, q), *eps),
                decreases n - j,
            {
                if c_abs_diff_ne(&self.get(i, j), &other.get(i, j), eps) {
                    return false;
                }
                j = j + 1;
            }
            i = i + 1;
        }
        true
    }
}

/// Partial row-by-column sum: the first `k` terms of the product entry.
pub open spec fn mm_acc(a: &Matrix, b: &Matrix, r: int, c: int, k: int) -> Complex64
    decreases k,
{
    if k <= 0 {
        c_of(0, 0)
    } else {
        add_of(mm_acc(a, b, r, c, k - 1), mul_of(a.at(r, k - 1), b.at(k - 1, c)))
    }
}

/// The product entry in row `r`, column `c`: the full row-by-column sum.
pub open spec fn mm_entry(a: &Matrix, b: &Matrix, r: int, c: int) -> Complex64 {
    mm_acc(a, b, r, c, a.dim())
}

} // verus!
