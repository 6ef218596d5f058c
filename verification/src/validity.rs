//! The permutation validity predicate: scanning a vector in blocks of length
//! `p`, the minimum of each completed block must never exceed the running
//! minimum of the block being scanned. A zero period admits only the empty
//! vector, and a period at least as long as the vector admits everything.

use vstd::prelude::*;
use vstd::arithmetic::div_mod::lemma_fundamental_div_mod;
use vstd::arithmetic::div_mod::lemma_fundamental_div_mod_converse;

verus! {

/// Minimum of `s[lo..hi]`, meaningful when `lo < hi <= s.len()`.
pub open spec fn range_min(s: Seq<usize>, lo: int, hi: int) -> int
    decreases hi - lo,
{
    if hi <= lo + 1 {
        s[lo] as int
    } else {
        vstd::math::min(range_min(s, lo, hi - 1), s[hi - 1] as int)
    }
}

/// The incremental check the scan performs at position `i` (for `p >= 1` and
/// `i >= p`): the minimum of the completed block just before `i`'s block must
/// not exceed the running minimum of `i`'s block scanned through `i`.
pub open spec fn check_at(s: Seq<usize>, p: int, i: int) -> bool {
    range_min(s, (i / p - 1) * p, (i / p) * p) <= range_min(s, (i / p) * p, i + 1)
}

/// Every scan position at or past `p` passes the incremental check.
pub open spec fn blocks_ok(s: Seq<usize>, p: int) -> bool {
    forall|i: int| p <= i < s.len() ==> #[trigger] check_at(s, p, i)
}

/// What the validity scan accepts: with period zero only the empty vector,
/// otherwise exactly the block-monotone vectors.
pub open spec fn valid_blocked(s: Seq<usize>, p: int) -> bool {
    if p == 0 {
        s.len() == 0
    } else {
        blocks_ok(s, p)
    }
}

/// How quotient and remainder by `p` move when stepping from `i` to `i + 1`.
proof fn lemma_div_step(i: int, p: int)
    requires
        p >= 1,
        i >= 0,
    ensures
        0 <= i % p < p,
        i / p >= 0,
        i == (i / p) * p + i % p,
        i % p == p - 1 ==> (i + 1) / p == i / p + 1 && (i + 1) % p == 0,
        i % p != p - 1 ==> (i + 1) / p == i / p && (i + 1) % p == i % p + 1,
        i >= p ==> i / p >= 1,
        i < p ==> i / p == 0,
{
    lemma_fundamental_div_mod(i, p);
    let q = i / p;
    let r = i % p;
    assert(i == q * p + r) by (nonlinear_arith)
        requires
            i == p * q + r,
    ;
    assert(q >= 0) by (nonlinear_arith)
        requires
            i == q * p + r,
            0 <= r < p,
            i >= 0,
    ;
    if r == p - 1 {
        assert(i + 1 == (q + 1) * p + 0) by (nonlinear_arith)
            requires
                i == q * p + r,
                r == p - 1,
        ;
        lemma_fundamental_div_mod_converse(i + 1, p, q + 1, 0);
    } else {
        lemma_fundamental_div_mod_converse(i + 1, p, q, r + 1);
    }
    if i >= p {
        assert(q >= 1) by (nonlinear_arith)
            requires
                i == q * p + r,
                0 <= r < p,
                i >= p,
        ;
    }
    if i < p {
        lemma_fundamental_div_mod_converse(i, p, 0, i);
    }
}

/// A single left-to-right scan: tracks the running minimum of the
/// current block and the minimum of the last completed block, and rejects as
/// soon as the latter exceeds the former at any position at or past `p`.
pub fn is_valid(s: &Vec<usize>, p: usize) -> (r: bool)
    requires
        forall|i: int| 0 <= i < s@.len() ==> (s@[i] as int) < usize::MAX - 1,
    ensures
        r == valid_blocked(s@, p as int),
{
    let n = s.len();
    if p == 0 {
        return n == 0;
    }
    let mut current_min: usize = usize::MAX - 1;
    let mut last_min: usize = usize::MAX;
    let mut i: usize = 0;
    while i < n
        invariant
            p >= 1,
            n == s@.len(),
            i <= n,
            forall|t: int| 0 <= t < s@.len() ==> (s@[t] as int) < usize::MAX - 1,
            i as int % (p as int) == 0 ==> current_min as int >= usize::MAX - 1,
            i as int % (p as int) != 0 ==> current_min as int == range_min(
                s@,
                (i as int / (p as int)) * (p as int),
                i as int,
            ) && (current_min as int) < usize::MAX - 1,
            i < p ==> last_min == usize::MAX,
            i >= p ==> last_min as int == range_min(
                s@,
                (i as int / (p as int) - 1) * (p as int),
                (i as int / (p as int)) * (p as int),
            ) && (last_min as int) < usize::MAX - 1,
            forall|j: int| p <= j < i ==> #[trigger] check_at(s@, p as int, j),
        decreases n - i,
    {
        let ghost pp = p as int;
        let ghost ii = i as int;
        let ghost k = ii / pp;
        proof {
            lemma_div_step(ii, pp);
        }
        let x = s[i];
        if current_min > x {
            current_min = x;
        }
        proof {
            if ii % pp == 0 {
                assert(ii == k * pp);
                assert(range_min(s@, k * pp, ii + 1) == s@[ii] as int);
            } else {
                assert(ii > k * pp);
                assert(range_min(s@, k * pp, ii + 1) == vstd::math::min(
                    range_min(s@, k * pp, ii),
                    s@[ii] as int,
                ));
            }
            assert(current_min as int == range_min(s@, k * pp, ii + 1));
            assert((current_min as int) < usize::MAX - 1);
        }
        if i >= p {
            if last_min > current_min {
                proof {
                    assert(!check_at(s@, pp, ii));
                    assert(!blocks_ok(s@, pp));
                }
                return false;
            }
            proof {
                assert(check_at(s@, pp, ii));
            }
        }
        if (i % p) == (p - 1) {
            last_min = current_min;
            current_min = usize::MAX;
            proof {
                assert((ii + 1) / pp == k + 1);
                assert((ii + 1) % pp == 0);
                assert((k + 1) * pp == k * pp + pp) by (nonlinear_arith);
                assert(ii + 1 == (k + 1) * pp);
            }
        } else {
            proof {
                assert((ii + 1) / pp == k);
                assert((ii + 1) % pp == ii % pp + 1);
            }
        }
        i = i + 1;
    }
    proof {
        assert(blocks_ok(s@, p as int));
    }
    true
}

/// The law of block monotonicity: in a vector the scan accepts, the minimum
/// of any completed block never exceeds the running minimum of any strictly
/// later block, read through any of its positions. Contrapositively, the scan
/// rejects every vector in which a later block's running minimum drops below
/// an earlier block's minimum.
pub proof fn lemma_block_mins_nondecreasing(s: Seq<usize>, p: int, k1: int, i: int)
    requires
        valid_blocked(s, p),
        p >= 1,
        0 <= k1,
        0 <= i < s.len(),
        k1 < i / p,
    ensures
        range_min(s, k1 * p, (k1 + 1) * p) <= range_min(s, (i / p) * p, i + 1),
    decreases i / p - k1,
{
    lemma_div_step(i, p);
    let k = i / p;
    assert(i >= k * p);
    assert(k * p >= (k1 + 1) * p) by (nonlinear_arith)
        requires
            k >= k1 + 1,
            p >= 1,
    ;
    assert((k1 + 1) * p >= p) by (nonlinear_arith)
        requires
            k1 >= 0,
            p >= 1,
    ;
    assert(check_at(s, p, i));
    if k1 == k - 1 {
    } else {
        let i2 = k * p - 1;
        assert(i2 == (k - 1) * p + (p - 1)) by (nonlinear_arith)
            requires
                i2 == k * p - 1,
        ;
        lemma_fundamental_div_mod_converse(i2, p, k - 1, p - 1);
        assert(i2 / p == k - 1);
        lemma_block_mins_nondecreasing(s, p, k1, i2);
        assert(range_min(s, k1 * p, (k1 + 1) * p) <= range_min(s, (k - 1) * p, i2 + 1));
    }
}

} // verus!
