//! The sparse coefficient table: structure constants and d-coefficients.
//!
//! A table maps an ordered pair of basis indices `(i, j)` to at most one pair
//! `(k, f)`: the single basis index and complex coefficient of the bracket
//! `[T_i, T_j]`. Absence of a key means the bracket decomposed to nothing
//! numerically significant. The single-entry-per-pair shape is an invariant
//! of the bases this crate constructs, not of Lie algebras in general.

use vstd::prelude::*;
use num_complex::Complex64;

verus! {

/// One record of a coefficient table: `[T_i, T_j]` lands on `T_k` with
/// coefficient `f`.
#[derive(Debug)]
pub struct TableEntry {
    pub i: usize,
    pub j: usize,
    pub k: usize,
    pub f: Complex64,
}

/// A sparse table of bracket coefficients over a basis of `n_basis` elements.
#[derive(Debug)]
pub struct CoefficientTable {
    n_basis: usize,
    entries: Vec<TableEntry>,
}

/// The value recorded for key `(i, j)`, scanning from the most recent record.
pub open spec fn seq_lookup(s: Seq<TableEntry>, i: int, j: int) -> Option<(int, Complex64)>
    decreases s.len(),
{
    if s.len() == 0 {
        None
    } else if s.last().i == i && s.last().j == j {
        Some((s.last().k as int, s.last().f))
    } else {
        seq_lookup(s.drop_last(), i, j)
    }
}

impl CoefficientTable {
    /// The records, in insertion order.
    pub closed spec fn entries_seq(&self) -> Seq<TableEntry> {
        self.entries@
    }

    /// The number of basis elements the keys and values index into.
    pub closed spec fn basis_len(&self) -> int {
        self.n_basis as int
    }

    /// The coefficient recorded for the ordered pair `(i, j)`, if any.
    pub open spec fn spec_get(&self, i: int, j: int) -> Option<(int, Complex64)> {
        seq_lookup(self.entries_seq(), i, j)
    }

    /// Whether the ordered pair `(i, j)` has a record.
    pub open spec fn spec_contains(&self, i: int, j: int) -> bool {
        self.spec_get(i, j) is Some
    }

    /// Every index is in range and every key has at most one record.
    pub open spec fn wf(&self) -> bool {
        &&& forall|t: int| 0 <= t < self.entries_seq().len() ==> {
            &&& #[trigger] self.entries_seq()[t].i < self.basis_len()
            &&& self.entries_seq()[t].j < self.basis_len()
            &&& self.entries_seq()[t].k < self.basis_len()
        }
        &&& forall|t1: int, t2: int|
            0 <= t1 < t2 < self.entries_seq().len() ==> !(
                #[trigger] self.entries_seq()[t1].i == #[trigger] self.entries_seq()[t2].i
                && self.entries_seq()[t1].j == self.entries_seq()[t2].j)
    }

    /// An empty table over a basis of `n_basis` elements.
    pub fn new(n_basis: usize) -> (r: CoefficientTable)
        ensures
            r.wf(),
            r.basis_len() == n_basis,
            r.entries_seq().len() == 0,
            forall|i: int, j: int| r.spec_get(i, j) is None,
    {
        CoefficientTable { n_basis, entries: Vec::new() }
    }

    /// The number of recorded pairs.
    pub fn len(&self) -> (r: usize)
        ensures
            r == self.entries_seq().len(),
    {
        self.entries.len()
    }

    /// The basis length, as a machine integer.
    pub fn n_basis(&self) -> (r: usize)
        ensures
            r == self.basis_len(),
    {
        self.n_basis
    }

    /// Looks up the record for the ordered pair `(i, j)`.
    pub fn get(&self, i: usize, j: usize) -> (r: Option<(usize, Complex64)>)
        ensures
            match r {
                Some(p) => self.spec_get(i as int, j as int) == Some((p.0 as int, p.1)),
                None => self.spec_get(i as int, j as int) is None,
            },
    {
        let ghost s = self.entries_seq();
        proof {
            assert(s.take(s.len() as int) =~= s);
        }
        let mut t: usize = self.entries.len();
        while t > 0
            invariant
                s == self.entries_seq(),
                t <= s.len(),
                seq_lookup(s, i as int, j as int) == seq_lookup(s.take(t as int), i as int, j as int),
            decreases t,
        {
            let e = &self.entries[t - 1];
            proof {
                assert(s.take(t as int).last() == s[t - 1]);
                assert(s.take(t as int).drop_last() =~= s.take(t - 1));
            }
            if e.i == i && e.j == j {
                return Some((e.k, e.f));
            }
            t = t - 1;
        }
        proof {
            assert(s.take(0) =~= Seq::<TableEntry>::empty());
        }
        None
    }

    /// Records a coefficient for a pair not yet present.
    pub fn push_entry(&mut self, e: TableEntry)
        requires
            old(self).wf(),
            e.i < old(self).basis_len(),
            e.j < old(self).basis_len(),
            e.k < old(self).basis_len(),
            !old(self).spec_contains(e.i as int, e.j as int),
        ensures
            final(self).wf(),
            final(self).basis_len() == old(self).basis_len(),
            final(self).entries_seq() == old(self).entries_seq().push(e),
            final(self).spec_get(e.i as int, e.j as int) == Some((e.k as int, e.f)),
            forall|i: int, j: int|
                !(i == e.i && j == e.j) ==> final(self).spec_get(i, j) == old(self).spec_get(i, j),
    {
        proof {
            lemma_absent_key_no_record(old(self).entries_seq(), e.i as int, e.j as int);
        }
        let ghost olds = self.entries_seq();
        self.entries.push(e);
        proof {
            let news = self.entries_seq();
            assert(news.drop_last() =~= olds);
            assert forall|i: int, j: int| !(i == e.i && j == e.j)
                implies self.spec_get(i, j) == old(self).spec_get(i, j) by {
                assert(news.last() == e);
            }
        }
    }
}

/// Every recorded basis index lies below the given bound, so a lookup's
/// result does too.
pub proof fn lemma_seq_lookup_bounds(s: Seq<TableEntry>, nb: int, i: int, j: int)
    requires
        forall|t: int| 0 <= t < s.len() ==> (#[trigger] s[t]).k < nb,
    ensures
        match seq_lookup(s, i, j) {
            Some(kf) => 0 <= kf.0 < nb,
            None => true,
        },
    decreases s.len(),
{
    if s.len() > 0 {
        if !(s.last().i == i && s.last().j == j) {
            assert forall|t: int| 0 <= t < s.drop_last().len() implies (#[trigger] s.drop_last()[t]).k
                < nb by {
                assert(s.drop_last()[t] == s[t]);
            }
            lemma_seq_lookup_bounds(s.drop_last(), nb, i, j);
        }
    }
}

/// In a well-formed table, a lookup's basis index lies below the basis length.
pub proof fn lemma_lookup_bounds(tab: &CoefficientTable, i: int, j: int)
    requires
        tab.wf(),
    ensures
        match tab.spec_get(i, j) {
            Some(kf) => 0 <= kf.0 < tab.basis_len(),
            None => true,
        },
{
    assert forall|t: int| 0 <= t < tab.entries_seq().len() implies (#[trigger] tab.entries_seq()[t]).k
        < tab.basis_len() by {
        assert(tab.entries_seq()[t].i < tab.basis_len());
    }
    lemma_seq_lookup_bounds(tab.entries_seq(), tab.basis_len(), i, j);
}

/// A key without a record matches no stored entry.
pub proof fn lemma_absent_key_no_record(s: Seq<TableEntry>, i: int, j: int)
    requires
        seq_lookup(s, i, j) is None,
    ensures
        forall|t: int| 0 <= t < s.len() ==> !(#[trigger] s[t].i == i && s[t].j == j),
    decreases s.len(),
{
    if s.len() > 0 {
        lemma_absent_key_no_record(s.drop_last(), i, j);
        assert forall|t: int| 0 <= t < s.len() implies !(#[trigger] s[t].i == i && s[t].j == j) by {
            if t < s.len() - 1 {
                assert(s.drop_last()[t] == s[t]);
            }
        }
    }
}

} // verus!
