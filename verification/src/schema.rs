//! The matching schema: an `n x m` boolean cost matrix over permuted
//! positions. `true` means the substitution costs one unit, `false` means it
//! is free. Positions of the first alphabet are grouped into blocks of size
//! `p2`, positions of the second alphabet into blocks of size `p1`; a
//! substitution is free exactly when both periods are non-zero and the two
//! block indices agree.

use vstd::prelude::*;

verus! {

/// The boolean stored at position `(i, j)` of a schema built from periods
/// `p1` and `p2`: `false` (free substitution) exactly when both periods are
/// non-zero and `i / p2 == j / p1`.
pub open spec fn schema_entry(p1: int, p2: int, i: int, j: int) -> bool {
    !(p1 != 0 && p2 != 0 && i / p2 == j / p1)
}

/// Row-major `n x m` boolean matrix.
pub struct MatchingSchema {
    pub n: usize,
    pub m: usize,
    pub ms: Vec<bool>,
}

/// Row-major indexing is injective on in-range pairs.
pub(crate) proof fn lemma_rowmajor_injective(m: int, i1: int, j1: int, i2: int, j2: int)
    requires
        m > 0,
        0 <= j1 < m,
        0 <= j2 < m,
        0 <= i1,
        0 <= i2,
        i1 * m + j1 == i2 * m + j2,
    ensures
        i1 == i2 && j1 == j2,
{
    assert(i1 == i2 && j1 == j2) by (nonlinear_arith)
        requires
            m > 0,
            0 <= j1 < m,
            0 <= j2 < m,
            i1 * m + j1 == i2 * m + j2,
    ;
}

/// An in-range pair indexes inside the matrix.
pub(crate) proof fn lemma_rowmajor_in_range(n: int, m: int, i: int, j: int)
    requires
        0 <= i < n,
        0 <= j < m,
    ensures
        0 <= i * m + j < n * m,
{
    assert(0 <= i * m + j < n * m) by (nonlinear_arith)
        requires
            0 <= i < n,
            0 <= j < m,
    ;
}

impl MatchingSchema {
    /// The backing vector holds exactly one cell per position pair.
    pub open spec fn wf(self) -> bool {
        self.ms@.len() == self.n * self.m
    }

    /// The boolean stored for position pair `(i, j)`.
    pub open spec fn entry(self, i: int, j: int) -> bool {
        self.ms@[i * self.m + j]
    }

    /// A fresh `n x m` schema with every substitution at unit cost.
    pub fn new(n: usize, m: usize) -> (s: Self)
        requires
            n * m <= usize::MAX,
        ensures
            s.wf(),
            s.n == n,
            s.m == m,
            forall|i: int, j: int| 0 <= i < n && 0 <= j < m ==> s.entry(i, j),
    {
        let mut ms: Vec<bool> = Vec::new();
        let total: usize = n * m;
        let mut k: usize = 0;
        while k < total
            invariant
                k <= total,
                ms@.len() == k,
                forall|t: int| 0 <= t < k ==> ms@[t],
            decreases total - k,
        {
            ms.push(true);
            k = k + 1;
        }
        let s = MatchingSchema { n, m, ms };
        proof {
            assert forall|i: int, j: int| 0 <= i < n && 0 <= j < m implies s.entry(i, j) by {
                lemma_rowmajor_in_range(n as int, m as int, i, j);
            }
        }
        s
    }

    /// Store `value` at position pair `(i, j)`; every other cell is kept.
    pub fn set(&mut self, i: usize, j: usize, value: bool)
        requires
            old(self).wf(),
            i < old(self).n,
            j < old(self).m,
        ensures
            final(self).wf(),
            final(self).n == old(self).n,
            final(self).m == old(self).m,
            final(self).entry(i as int, j as int) == value,
            forall|i2: int, j2: int|
                0 <= i2 < old(self).n && 0 <= j2 < old(self).m && !(i2 == i && j2 == j)
                    ==> final(self).entry(i2, j2) == old(self).entry(i2, j2),
    {
        proof {
            lemma_rowmajor_in_range(self.n as int, self.m as int, i as int, j as int);
        }
        let len = self.ms.len();
        let idx: usize = i * self.m + j;
        self.ms[idx] = value;
        proof {
            assert forall|i2: int, j2: int|
                0 <= i2 < old(self).n && 0 <= j2 < old(self).m && !(i2 == i && j2 == j)
                    implies final(self).entry(i2, j2) == old(self).entry(i2, j2) by {
                lemma_rowmajor_in_range(self.n as int, self.m as int, i2, j2);
                if i2 * self.m + j2 == i * self.m + j {
                    lemma_rowmajor_injective(self.m as int, i2, j2, i as int, j as int);
                }
            }
        }
    }

    /// Read the boolean stored for position pair `(i, j)`.
    pub fn get(&self, i: usize, j: usize) -> (r: bool)
        requires
            self.wf(),
            i < self.n,
            j < self.m,
        ensures
            r == self.entry(i as int, j as int),
    {
        proof {
            lemma_rowmajor_in_range(self.n as int, self.m as int, i as int, j as int);
        }
        let len = self.ms.len();
        let idx: usize = i * self.m + j;
        self.ms[idx]
    }

    /// Fill the whole matrix from the two periods: cell `(i, j)` becomes
    /// `schema_entry(p1, p2, i, j)`.
    pub fn init_general(&mut self, p1: &usize, p2: &usize)
        requires
            old(self).wf(),
        ensures
            final(self).wf(),
            final(self).n == old(self).n,
            final(self).m == old(self).m,
            forall|i: int, j: int|
                0 <= i < old(self).n && 0 <= j < old(self).m
                    ==> final(self).entry(i, j) == schema_entry(*p1 as int, *p2 as int, i, j),
    {
        let n = self.n;
        let m = self.m;
        let mut i: usize = 0;
        while i < n
            invariant
                i <= n,
                self.wf(),
                self.n == n,
                self.m == m,
                forall|i2: int, j2: int|
                    0 <= i2 < i && 0 <= j2 < m
                        ==> self.entry(i2, j2) == schema_entry(*p1 as int, *p2 as int, i2, j2),
            decreases n - i,
        {
            let mut j: usize = 0;
            while j < m
                invariant
                    i < n,
                    j <= m,
                    self.wf(),
                    self.n == n,
                    self.m == m,
                    forall|i2: int, j2: int|
                        0 <= i2 < i && 0 <= j2 < m
                            ==> self.entry(i2, j2) == schema_entry(*p1 as int, *p2 as int, i2, j2),
                    forall|j2: int|
                        0 <= j2 < j
                            ==> self.entry(i as int, j2) == schema_entry(
                                *p1 as int,
                                *p2 as int,
                                i as int,
                                j2,
                            ),
                decreases m - j,
            {
                let free = *p1 != 0 && *p2 != 0 && (i / *p2 == j / *p1);
                self.set(i, j, !free);
                j = j + 1;
            }
            i = i + 1;
        }
    }
}

/// The law of the schema pattern: with both periods positive, a cell is free
/// exactly when its two positions fall in corresponding blocks; with either
/// period zero, every cell carries unit cost; with equal positive periods,
/// every diagonal cell is free.
pub proof fn lemma_schema_law(p1: int, p2: int, i: int, j: int)
    ensures
        p1 > 0 && p2 > 0 ==> (!schema_entry(p1, p2, i, j) <==> i / p2 == j / p1),
        p1 == 0 || p2 == 0 ==> schema_entry(p1, p2, i, j),
        p1 == p2 && p1 != 0 ==> !schema_entry(p1, p2, i, i),
{
}

} // verus!
