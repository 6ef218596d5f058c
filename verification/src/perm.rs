//! Permutations of `[0, k)` stored as vectors, the only mutable search
//! state: predicates, the position (inverse) lookup, identity construction,
//! and the swap step the neighborhood search is built on.

use vstd::prelude::*;

verus! {

/// `p` is a bijection on `[0, p.len())`: every entry is in range, no entry
/// repeats, and every value is hit.
pub open spec fn is_perm(p: Seq<usize>) -> bool {
    &&& forall|i: int| 0 <= i < p.len() ==> (p[i] as int) < p.len()
    &&& forall|i: int, j: int|
        0 <= i < p.len() && 0 <= j < p.len() && i != j ==> p[i] != p[j]
    &&& forall|v: usize| (v as int) < p.len() ==> #[trigger] p.contains(v)
}

/// The position at which `p` places the value `v`.
pub open spec fn idx_of(p: Seq<usize>, v: usize) -> int {
    choose|i: int| 0 <= i < p.len() && p[i] == v
}

/// On a permutation, `idx_of` is the one position holding `v`.
pub proof fn lemma_idx_of(p: Seq<usize>, v: usize)
    requires
        is_perm(p),
        (v as int) < p.len(),
    ensures
        0 <= idx_of(p, v) < p.len(),
        p[idx_of(p, v)] == v,
        forall|i: int| 0 <= i < p.len() && p[i] == v ==> i == idx_of(p, v),
{
    assert(p.contains(v));
    let w = choose|i: int| 0 <= i < p.len() && p[i] == v;
    assert(p[w] == v);
    assert(0 <= idx_of(p, v) < p.len() && p[idx_of(p, v)] == v);
}

/// The identity permutation of length `n`, as a sequence.
pub open spec fn identity_seq(n: int) -> Seq<usize> {
    Seq::new(n as nat, |i: int| i as usize)
}

/// `s` with the entries at `i` and `j` exchanged.
pub open spec fn swapped(s: Seq<usize>, i: int, j: int) -> Seq<usize> {
    s.update(i, s[j]).update(j, s[i])
}

/// The identity permutation of length `k`.
pub fn identity(k: usize) -> (r: Vec<usize>)
    ensures
        r@.len() == k,
        forall|i: int| 0 <= i < k ==> r@[i] as int == i,
        is_perm(r@),
{
    let mut r: Vec<usize> = Vec::new();
    let mut i: usize = 0;
    while i < k
        invariant
            i <= k,
            r@.len() == i,
            forall|t: int| 0 <= t < i ==> r@[t] as int == t,
        decreases k - i,
    {
        r.push(i);
        i = i + 1;
    }
    proof {
        assert forall|v: usize| (v as int) < r@.len() implies r@.contains(v) by {
            assert(r@[v as int] == v);
        }
    }
    r
}

/// Exchange the entries at `i` and `j`.
pub fn swap_entries(v: &mut Vec<usize>, i: usize, j: usize)
    requires
        i < old(v)@.len(),
        j < old(v)@.len(),
    ensures
        final(v)@ == old(v)@.update(i as int, old(v)@[j as int]).update(
            j as int,
            old(v)@[i as int],
        ),
        final(v)@.len() == old(v)@.len(),
{
    let t = v[i];
    let u = v[j];
    v[i] = u;
    v[j] = t;
}

/// Swapping two entries preserves being a permutation.
pub proof fn lemma_swap_preserves_perm(p: Seq<usize>, i: int, j: int)
    requires
        is_perm(p),
        0 <= i < p.len(),
        0 <= j < p.len(),
    ensures
        is_perm(p.update(i, p[j]).update(j, p[i])),
{
    let q = p.update(i, p[j]).update(j, p[i]);
    assert(q.len() == p.len());
    assert forall|v: usize| (v as int) < q.len() implies q.contains(v) by {
        assert(p.contains(v));
        let w = choose|t: int| 0 <= t < p.len() && p[t] == v;
        if w == i {
            assert(q[j] == v);
        } else if w == j {
            assert(q[i] == v);
        } else {
            assert(q[w] == v);
        }
    }
}

/// The positions of every value under `p`: the returned vector `q` satisfies
/// `q[v] == idx_of(p@, v)` for every value `v` that `p` permutes.
pub fn invert(p: &Vec<usize>) -> (q: Vec<usize>)
    requires
        is_perm(p@),
    ensures
        q@.len() == p@.len(),
        forall|v: int| 0 <= v < p@.len() ==> q@[v] as int == idx_of(p@, v as usize),
        forall|v: int| 0 <= v < p@.len() ==> (q@[v] as int) < p@.len(),
{
    let n = p.len();
    let mut q: Vec<usize> = Vec::new();
    let mut i: usize = 0;
    while i < n
        invariant
            i <= n,
            q@.len() == i,
            forall|t: int| 0 <= t < i ==> q@[t] == 0usize,
        decreases n - i,
    {
        q.push(0);
        i = i + 1;
    }
    let mut k: usize = 0;
    while k < n
        invariant
            k <= n,
            n == p@.len(),
            is_perm(p@),
            q@.len() == n,
            forall|t: int| 0 <= t < k ==> q@[p@[t] as int] as int == t,
        decreases n - k,
    {
        let sym = p[k];
        q[sym] = k;
        proof {
            assert forall|t: int| 0 <= t < k + 1 implies q@[p@[t] as int] as int == t by {
                if t < k {
                    assert(p@[t] != p@[k as int]);
                }
            }
        }
        k = k + 1;
    }
    proof {
        assert forall|v: int| 0 <= v < p@.len() implies q@[v] as int == idx_of(
            p@,
            v as usize,
        ) && (q@[v] as int) < p@.len() by {
            lemma_idx_of(p@, v as usize);
            let w = idx_of(p@, v as usize);
            assert(q@[p@[w] as int] as int == w);
        }
    }
    q
}

/// Copy a vector of indices.
pub fn clone_indices(v: &Vec<usize>) -> (r: Vec<usize>)
    ensures
        r@ == v@,
{
    let n = v.len();
    let mut r: Vec<usize> = Vec::new();
    let mut i: usize = 0;
    while i < n
        invariant
            i <= n,
            n == v@.len(),
            r@.len() == i,
            forall|t: int| 0 <= t < i ==> r@[t] == v@[t],
        decreases n - i,
    {
        r.push(v[i]);
        i = i + 1;
    }
    proof {
        assert(r@ =~= v@);
    }
    r
}

} // verus!
