//! The weighted edit distance engine: classic Levenshtein dynamic
//! programming whose substitution cost between two symbols is read from the
//! matching schema at the symbols' positions under the current permutation
//! pair. The table is handed in by the caller and fully overwritten.

use vstd::prelude::*;
use crate::perm::idx_of;
use crate::perm::invert;
use crate::perm::is_perm;
use crate::perm::lemma_idx_of;
use crate::schema::lemma_rowmajor_in_range;
use crate::schema::lemma_rowmajor_injective;
use crate::schema::MatchingSchema;

verus! {

/// Substitution cost between canonical symbols `x` and `y`: one unit when
/// the schema cell at their permuted positions is set, free otherwise.
pub open spec fn sub_cost(
    m: MatchingSchema,
    pa: Seq<usize>,
    pb: Seq<usize>,
    x: usize,
    y: usize,
) -> int {
    if m.entry(idx_of(pa, x), idx_of(pb, y)) {
        1
    } else {
        0
    }
}

/// Row-major index of table cell `(i, j)` in a table of width `w`.
pub open spec fn cell(w: int, i: int, j: int) -> int {
    i * w + j
}

/// The edit-distance recurrence over prefixes `a[..i]` and `b[..j]`, with
/// unit insertion and deletion and schema-weighted substitution.
pub open spec fn weighted_dist(
    a: Seq<usize>,
    b: Seq<usize>,
    pa: Seq<usize>,
    pb: Seq<usize>,
    m: MatchingSchema,
    i: int,
    j: int,
) -> int
    decreases i + j,
{
    if i <= 0 {
        j
    } else if j <= 0 {
        i
    } else {
        vstd::math::min(
            vstd::math::min(
                weighted_dist(a, b, pa, pb, m, i - 1, j) + 1,
                weighted_dist(a, b, pa, pb, m, i, j - 1) + 1,
            ),
            weighted_dist(a, b, pa, pb, m, i - 1, j - 1) + sub_cost(m, pa, pb, a[i - 1], b[j - 1]),
        )
    }
}

/// The distance over prefixes of lengths `i` and `j` lies between 0 and
/// `i + j`.
pub proof fn lemma_dist_bounds(
    a: Seq<usize>,
    b: Seq<usize>,
    pa: Seq<usize>,
    pb: Seq<usize>,
    m: MatchingSchema,
    i: int,
    j: int,
)
    requires
        0 <= i,
        0 <= j,
    ensures
        0 <= weighted_dist(a, b, pa, pb, m, i, j) <= i + j,
    decreases i + j,
{
    if i > 0 && j > 0 {
        lemma_dist_bounds(a, b, pa, pb, m, i - 1, j);
        lemma_dist_bounds(a, b, pa, pb, m, i, j - 1);
        lemma_dist_bounds(a, b, pa, pb, m, i - 1, j - 1);
    }
}

/// The dynamic programming sweep: rebuild the position lookup
/// of each permutation, fill the borders, then sweep the table row by row.
/// The caller's `matrix` is a row-major `(|a|+1) x (|b|+1)` scratch table
/// whose every cell is overwritten.
#[verifier::loop_isolation(false)]
pub fn edit_distance_enhanced(
    a: &Vec<usize>,
    b: &Vec<usize>,
    sig1: &Vec<usize>,
    sig2: &Vec<usize>,
    matrix: &mut Vec<u32>,
    m: &MatchingSchema,
) -> (d: u32)
    requires
        is_perm(sig1@),
        is_perm(sig2@),
        forall|t: int| 0 <= t < a@.len() ==> (a@[t] as int) < sig1@.len(),
        forall|t: int| 0 <= t < b@.len() ==> (b@[t] as int) < sig2@.len(),
        m.wf(),
        m.n == sig1@.len(),
        m.m == sig2@.len(),
        old(matrix)@.len() >= (a@.len() + 1) * (b@.len() + 1),
        a@.len() + b@.len() < u32::MAX,
    ensures
        final(matrix)@.len() == old(matrix)@.len(),
        d as int == weighted_dist(a@, b@, sig1@, sig2@, *m, a@.len() as int, b@.len() as int),
{
    let len_a = a.len();
    let len_b = b.len();
    let total = matrix.len();
    let w = len_b + 1;
    let ghost cells = (len_a + 1) * (w as int);
    let ghost wi = w as int;
    let pos1 = invert(sig1);
    let pos2 = invert(sig2);

    let mut r: usize = 0;
    while r <= len_a
        invariant
            r <= len_a + 1,
            matrix@.len() == total >= cells,
            forall|t: int| 0 <= t < r ==> matrix@[#[trigger] cell(wi, t, 0)] as int == t,
        decreases len_a + 1 - r,
    {
        proof {
            lemma_rowmajor_in_range(len_a as int + 1, wi, r as int, 0);
            assert(cell(wi, r as int, 0) == r * w);
        }
        matrix[r * w] = r as u32;
        proof {
            assert forall|t: int| 0 <= t < r + 1 implies matrix@[#[trigger] cell(wi, t, 0)] as int
                == t by {
                lemma_rowmajor_in_range(len_a as int + 1, wi, t, 0);
                if cell(wi, t, 0) == cell(wi, r as int, 0) {
                    lemma_rowmajor_injective(wi, t, 0, r as int, 0);
                }
            }
        }
        r = r + 1;
    }
    let mut c: usize = 0;
    while c <= len_b
        invariant
            c <= len_b + 1,
            matrix@.len() == total >= cells,
            forall|t: int| 0 <= t <= len_a ==> matrix@[#[trigger] cell(wi, t, 0)] as int == t,
            forall|t: int| 0 <= t < c ==> matrix@[#[trigger] cell(wi, 0, t)] as int == t,
        decreases len_b + 1 - c,
    {
        proof {
            lemma_rowmajor_in_range(len_a as int + 1, wi, 0, c as int);
            assert(cell(wi, 0, c as int) == c);
        }
        matrix[c] = c as u32;
        proof {
            assert forall|t: int| 0 <= t <= len_a implies matrix@[#[trigger] cell(wi, t, 0)] as int
                == t by {
                lemma_rowmajor_in_range(len_a as int + 1, wi, t, 0);
                if cell(wi, t, 0) == cell(wi, 0, c as int) {
                    lemma_rowmajor_injective(wi, t, 0, 0, c as int);
                }
            }
            assert forall|t: int| 0 <= t < c + 1 implies matrix@[#[trigger] cell(wi, 0, t)] as int
                == t by {}
        }
        c = c + 1;
    }

    let mut i: usize = 1;
    while i <= len_a
        invariant
            1 <= i <= len_a + 1,
            matrix@.len() == total >= cells,
            forall|t: int| 0 <= t <= len_a ==> matrix@[#[trigger] cell(wi, t, 0)] as int == t,
            forall|t: int| 0 <= t <= len_b ==> matrix@[#[trigger] cell(wi, 0, t)] as int == t,
            forall|rr: int, cc: int|
                0 <= rr < i && 0 <= cc <= len_b ==> matrix@[#[trigger] cell(wi, rr, cc)] as int
                    == weighted_dist(a@, b@, sig1@, sig2@, *m, rr, cc),
        decreases len_a + 1 - i,
    {
        let mut j: usize = 1;
        while j <= len_b
            invariant
                1 <= i <= len_a,
                1 <= j <= len_b + 1,
                matrix@.len() == total >= cells,
                forall|t: int| 0 <= t <= len_a ==> matrix@[#[trigger] cell(wi, t, 0)] as int == t,
                forall|t: int| 0 <= t <= len_b ==> matrix@[#[trigger] cell(wi, 0, t)] as int == t,
                forall|rr: int, cc: int|
                    0 <= rr < i && 0 <= cc <= len_b ==> matrix@[#[trigger] cell(wi, rr, cc)] as int
                        == weighted_dist(a@, b@, sig1@, sig2@, *m, rr, cc),
                forall|cc: int|
                    0 <= cc < j ==> matrix@[#[trigger] cell(wi, i as int, cc)] as int
                        == weighted_dist(a@, b@, sig1@, sig2@, *m, i as int, cc),
            decreases len_b + 1 - j,
        {
            let av = a[i - 1];
            let bv = b[j - 1];
            proof {
                lemma_idx_of(sig1@, av);
                lemma_idx_of(sig2@, bv);
            }
            let ia = pos1[av];
            let jb = pos2[bv];
            let wcost: u32 = if m.get(ia, jb) {
                1
            } else {
                0
            };
            proof {
                assert(wcost as int == sub_cost(*m, sig1@, sig2@, av, bv));
                lemma_rowmajor_in_range(len_a as int + 1, wi, i - 1, j as int);
                lemma_rowmajor_in_range(len_a as int + 1, wi, i as int, j - 1);
                lemma_rowmajor_in_range(len_a as int + 1, wi, i - 1, j - 1);
                lemma_rowmajor_in_range(len_a as int + 1, wi, i as int, j as int);
                assert(cell(wi, i - 1, j as int) == (i - 1) * w + j);
                assert(cell(wi, i as int, j - 1) == i * w + (j - 1));
                assert(cell(wi, i - 1, j - 1) == (i - 1) * w + (j - 1));
                assert(cell(wi, i as int, j as int) == i * w + j);
            }
            let up = matrix[(i - 1) * w + j];
            let left = matrix[i * w + (j - 1)];
            let diag = matrix[(i - 1) * w + (j - 1)];
            proof {
                lemma_dist_bounds(a@, b@, sig1@, sig2@, *m, i - 1, j as int);
                lemma_dist_bounds(a@, b@, sig1@, sig2@, *m, i as int, j - 1);
                lemma_dist_bounds(a@, b@, sig1@, sig2@, *m, i - 1, j - 1);
                assert(up as int == weighted_dist(a@, b@, sig1@, sig2@, *m, i - 1, j as int));
                assert(left as int == weighted_dist(a@, b@, sig1@, sig2@, *m, i as int, j - 1));
                assert(diag as int == weighted_dist(a@, b@, sig1@, sig2@, *m, i - 1, j - 1));
            }
            let v1 = up + 1;
            let v2 = left + 1;
            let v3 = diag + wcost;
            let dmin = if v1 <= v2 {
                if v1 <= v3 {
                    v1
                } else {
                    v3
                }
            } else {
                if v2 <= v3 {
                    v2
                } else {
                    v3
                }
            };
            let idx = i * w + j;
            matrix[idx] = dmin;
            proof {
                assert(dmin as int == weighted_dist(a@, b@, sig1@, sig2@, *m, i as int, j as int));
                assert forall|t: int| 0 <= t <= len_a implies matrix@[#[trigger] cell(wi, t, 0)]
                    as int == t by {
                    lemma_rowmajor_in_range(len_a as int + 1, wi, t, 0);
                    if cell(wi, t, 0) == cell(wi, i as int, j as int) {
                        lemma_rowmajor_injective(wi, t, 0, i as int, j as int);
                    }
                }
                assert forall|t: int| 0 <= t <= len_b implies matrix@[#[trigger] cell(wi, 0, t)]
                    as int == t by {
                    lemma_rowmajor_in_range(len_a as int + 1, wi, 0, t);
                    if cell(wi, 0, t) == cell(wi, i as int, j as int) {
                        lemma_rowmajor_injective(wi, 0, t, i as int, j as int);
                    }
                }
                assert forall|rr: int, cc: int| 0 <= rr < i && 0 <= cc <= len_b implies matrix@[
                    #[trigger] cell(wi, rr, cc)] as int == weighted_dist(
                    a@,
                    b@,
                    sig1@,
                    sig2@,
                    *m,
                    rr,
                    cc,
                ) by {
                    lemma_rowmajor_in_range(len_a as int + 1, wi, rr, cc);
                    if cell(wi, rr, cc) == cell(wi, i as int, j as int) {
                        lemma_rowmajor_injective(wi, rr, cc, i as int, j as int);
                    }
                }
                assert forall|cc: int| 0 <= cc < j + 1 implies matrix@[#[trigger] cell(
                    wi,
                    i as int,
                    cc,
                )] as int == weighted_dist(a@, b@, sig1@, sig2@, *m, i as int, cc) by {
                    lemma_rowmajor_in_range(len_a as int + 1, wi, i as int, cc);
                }
            }
            j = j + 1;
        }
        i = i + 1;
    }
    proof {
        lemma_rowmajor_in_range(len_a as int + 1, wi, len_a as int, len_b as int);
        assert(cell(wi, len_a as int, len_b as int) == len_a * w + len_b);
    }
    let idx = len_a * w + len_b;
    matrix[idx]
}

/// The unit-substitution edit distance: the same recurrence with every
/// substitution at cost one. It depends only on the two lengths: it equals
/// the greater of the two.
pub open spec fn unit_dist(i: int, j: int) -> int {
    if i >= j {
        i
    } else {
        j
    }
}

/// With a schema whose every cell carries unit cost -- as built from periods
/// of which at least one is zero -- the weighted distance degenerates to the
/// unit-substitution edit distance, whatever the permutations: the greater
/// of the two prefix lengths.
pub proof fn lemma_unit_schema_distance(
    a: Seq<usize>,
    b: Seq<usize>,
    pa: Seq<usize>,
    pb: Seq<usize>,
    m: MatchingSchema,
    i: int,
    j: int,
)
    requires
        is_perm(pa),
        is_perm(pb),
        forall|t: int| 0 <= t < a.len() ==> (a[t] as int) < pa.len(),
        forall|t: int| 0 <= t < b.len() ==> (b[t] as int) < pb.len(),
        m.n == pa.len(),
        m.m == pb.len(),
        forall|x: int, y: int| 0 <= x < m.n && 0 <= y < m.m ==> m.entry(x, y),
        0 <= i <= a.len(),
        0 <= j <= b.len(),
    ensures
        weighted_dist(a, b, pa, pb, m, i, j) == unit_dist(i, j),
    decreases i + j,
{
    if i > 0 && j > 0 {
        lemma_unit_schema_distance(a, b, pa, pb, m, i - 1, j);
        lemma_unit_schema_distance(a, b, pa, pb, m, i, j - 1);
        lemma_unit_schema_distance(a, b, pa, pb, m, i - 1, j - 1);
        lemma_idx_of(pa, a[i - 1]);
        lemma_idx_of(pb, b[j - 1]);
        assert(sub_cost(m, pa, pb, a[i - 1], b[j - 1]) == 1);
    }
}

/// Reflexivity under identity permutations: when the schema's diagonal is
/// free for every symbol the sequence uses, a sequence is at distance zero
/// from itself.
pub proof fn lemma_self_distance_zero(
    a: Seq<usize>,
    pa: Seq<usize>,
    pb: Seq<usize>,
    m: MatchingSchema,
    i: int,
)
    requires
        pa.len() == m.n,
        pb.len() == m.m,
        m.n == m.m,
        forall|t: int| 0 <= t < pa.len() ==> (#[trigger] pa[t]) as int == t,
        forall|t: int| 0 <= t < pb.len() ==> (#[trigger] pb[t]) as int == t,
        forall|t: int| 0 <= t < a.len() ==> (a[t] as int) < m.n,
        forall|x: int| 0 <= x < m.n ==> !m.entry(x, x),
        0 <= i <= a.len(),
    ensures
        weighted_dist(a, a, pa, pb, m, i, i) == 0,
    decreases i,
{
    assert forall|v: usize| (v as int) < pa.len() implies pa.contains(v) by {
        assert(pa[v as int] == v);
    }
    assert forall|v: usize| (v as int) < pb.len() implies pb.contains(v) by {
        assert(pb[v as int] == v);
    }
    if i > 0 {
        lemma_self_distance_zero(a, pa, pb, m, i - 1);
        let x = a[i - 1];
        lemma_idx_of(pa, x);
        lemma_idx_of(pb, x);
        assert(pa[idx_of(pa, x)] == x);
        assert(idx_of(pa, x) == x as int);
        assert(idx_of(pb, x) == x as int);
        assert(sub_cost(m, pa, pb, x, x) == 0);
        lemma_dist_bounds(a, a, pa, pb, m, i - 1, i);
        lemma_dist_bounds(a, a, pa, pb, m, i, i - 1);
    }
}

} // verus!
