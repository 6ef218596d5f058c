//! The local search driver: steepest-descent hill climbing over pairs of
//! alphabet permutations, restricted to swap neighbors whose first-alphabet
//! permutation passes the validity check, with bounded random restarts on
//! local optima.

use vstd::prelude::*;
use crate::distance::edit_distance_enhanced;
use crate::distance::weighted_dist;
use crate::perm::clone_indices;
use crate::perm::identity;
use crate::perm::identity_seq;
use crate::perm::is_perm;
use crate::perm::lemma_swap_preserves_perm;
use crate::perm::swap_entries;
use crate::perm::swapped;
use crate::schema::MatchingSchema;
use crate::validity::is_valid;
use crate::validity::valid_blocked;

verus! {

/// Relies on rand::random::<u64>: one machine word drawn from the
/// thread-local generator. Nothing is promised of the value.
#[verifier::external_body]
fn random_u64() -> u64 {
    rand::random::<u64>()
}

/// Fisher-Yates shuffle driven by the random source. The vector keeps its
/// length, and stays a permutation if it was one, whatever values the source
/// hands back.
pub fn shuffle(a: &mut Vec<usize>)
    ensures
        final(a)@.len() == old(a)@.len(),
        is_perm(old(a)@) ==> is_perm(final(a)@),
{
    let mut i = a.len();
    while i > 0
        invariant
            i <= a@.len(),
            a@.len() == old(a)@.len(),
            is_perm(old(a)@) ==> is_perm(a@),
        decreases i,
    {
        i = i - 1;
        let r = random_u64();
        let j = (r as usize) % (i + 1);
        proof {
            if is_perm(old(a)@) {
                lemma_swap_preserves_perm(a@, i as int, j as int);
            }
        }
        swap_entries(a, i, j);
    }
}

/// `v` is at most the distance of every swap neighbor of the pair
/// `(s1, s2)` whose first permutation passes the validity check for period
/// `p`: the bound the neighborhood scan establishes.
pub open spec fn neighborhood_bound(
    v: int,
    a: Seq<usize>,
    b: Seq<usize>,
    s1: Seq<usize>,
    s2: Seq<usize>,
    p: int,
    m: MatchingSchema,
) -> bool {
    forall|ip: int, jp: int, ipp: int, jpp: int|
        0 <= ip <= jp < s1.len() && 0 <= ipp <= jpp < s2.len() && valid_blocked(
            swapped(s1, ip, jp),
            p,
        ) ==> v <= #[trigger] weighted_dist(
            a,
            b,
            swapped(s1, ip, jp),
            swapped(s2, ipp, jpp),
            m,
            a.len() as int,
            b.len() as int,
        )
}

/// Hill climbing with restart: scan the whole swap neighborhood of the
/// current pair (first-alphabet variants must pass the validity check for
/// period `p`), descend while a strictly better pair exists, and on a local
/// optimum either record a new overall best or spend one of the bounded
/// restart attempts on a random reshuffle.
///
/// The result never exceeds the distance of the starting pair
/// `(sig1, sig2)`, nor the distance of any valid swap neighbor of the
/// identity pair the scan starts from, and is the exact weighted distance of
/// some permutation pair.
#[verifier::loop_isolation(false)]
pub fn hill_climbing(
    a: &Vec<usize>,
    b: &Vec<usize>,
    sig1: &Vec<usize>,
    sig2: &Vec<usize>,
    p: &usize,
    m: &MatchingSchema,
) -> (d: u32)
    requires
        is_perm(sig1@),
        is_perm(sig2@),
        forall|t: int| 0 <= t < a@.len() ==> (a@[t] as int) < sig1@.len(),
        forall|t: int| 0 <= t < b@.len() ==> (b@[t] as int) < sig2@.len(),
        m.wf(),
        m.n == sig1@.len(),
        m.m == sig2@.len(),
        (a@.len() + 1) * (b@.len() + 1) <= usize::MAX,
        a@.len() + b@.len() < u32::MAX,
        sig1@.len() < usize::MAX,
    ensures
        d as int <= weighted_dist(a@, b@, sig1@, sig2@, *m, a@.len() as int, b@.len() as int),
        neighborhood_bound(
            d as int,
            a@,
            b@,
            identity_seq(sig1@.len() as int),
            identity_seq(sig2@.len() as int),
            *p as int,
            *m,
        ),
        exists|pa: Seq<usize>, pb: Seq<usize>|
            is_perm(pa) && pa.len() == sig1@.len() && is_perm(pb) && pb.len() == sig2@.len()
                && d as int == weighted_dist(a@, b@, pa, pb, *m, a@.len() as int, b@.len() as int),
{
    let n1 = sig1.len();
    let n2 = sig2.len();
    let len_a = a.len();
    let len_b = b.len();
    let ghost la = len_a as int;
    let ghost lb = len_b as int;

    let total = (len_a + 1) * (len_b + 1);
    let mut matrix: Vec<u32> = Vec::new();
    let mut t: usize = 0;
    while t < total
        invariant
            t <= total,
            matrix@.len() == t,
        decreases total - t,
    {
        matrix.push(0);
        t = t + 1;
    }

    let mut d: u32 = edit_distance_enhanced(a, b, sig1, sig2, &mut matrix, m);
    let mut min_dist: u32 = d;
    let mut min_min_dist: u32 = d;
    let ghost d0 = weighted_dist(a@, b@, sig1@, sig2@, *m, la, lb);

    let mut isig1_o = identity(n1);
    let mut isig2_o = identity(n2);
    let mut isig1_t = identity(n1);
    let mut isig2_t = identity(n2);
    let mut isig1_min = identity(n1);
    let mut isig2_min = identity(n2);
    let mut isig1_min_min = identity(n1);
    let mut isig2_min_min = identity(n2);
    proof {
        assert(isig1_t@ =~= identity_seq(n1 as int));
        assert(isig2_t@ =~= identity_seq(n2 as int));
    }

    let attempts: usize = 1;
    let shuffle_tries: usize = 2;
    let mut tries: usize = 0;
    let mut improved: bool = true;

    let ghost mut gpa = sig1@;
    let ghost mut gpb = sig2@;
    let ghost mut bpa = sig1@;
    let ghost mut bpb = sig2@;
    let ghost mut first = true;
    let ghost mut m1: int = 0;

    while improved
        invariant
            matrix@.len() == total,
            isig1_o@.len() == n1 && is_perm(isig1_o@),
            isig2_o@.len() == n2 && is_perm(isig2_o@),
            isig1_t@.len() == n1 && is_perm(isig1_t@),
            isig2_t@.len() == n2 && is_perm(isig2_t@),
            isig1_min@.len() == n1 && is_perm(isig1_min@),
            isig2_min@.len() == n2 && is_perm(isig2_min@),
            tries <= attempts,
            gpa.len() == n1 && is_perm(gpa),
            gpb.len() == n2 && is_perm(gpb),
            min_dist as int == weighted_dist(a@, b@, gpa, gpb, *m, la, lb),
            bpa.len() == n1 && is_perm(bpa),
            bpb.len() == n2 && is_perm(bpb),
            min_min_dist as int == weighted_dist(a@, b@, bpa, bpb, *m, la, lb),
            min_min_dist as int <= d0,
            first ==> isig1_t@ == identity_seq(n1 as int) && isig2_t@ == identity_seq(n2 as int),
            !first ==> neighborhood_bound(
                m1,
                a@,
                b@,
                identity_seq(n1 as int),
                identity_seq(n2 as int),
                *p as int,
                *m,
            ),
            !first ==> (min_min_dist as int <= m1 || min_dist as int <= m1),
            !improved ==> !first,
            !improved ==> min_min_dist <= min_dist,
        decreases
            min_min_dist,
            attempts - tries,
            min_dist,
            (if improved { 1int } else { 0int }),
    {
        let ghost md0 = min_dist;
        let ghost t1 = isig1_t@;
        let ghost t2 = isig2_t@;
        improved = false;

        let mut ip: usize = 0;
        while ip < n1
            invariant
                ip <= n1,
                matrix@.len() == total,
                isig1_o@.len() == n1 && is_perm(isig1_o@),
                isig2_o@.len() == n2 && is_perm(isig2_o@),
                isig1_min@.len() == n1 && is_perm(isig1_min@),
                isig2_min@.len() == n2 && is_perm(isig2_min@),
                gpa.len() == n1 && is_perm(gpa),
                gpb.len() == n2 && is_perm(gpb),
                min_dist as int == weighted_dist(a@, b@, gpa, gpb, *m, la, lb),
                improved ==> min_dist < md0,
                !improved ==> min_dist == md0,
                forall|ip2: int, jp2: int, ipp2: int, jpp2: int|
                    0 <= ip2 < ip && ip2 <= jp2 < n1 && 0 <= ipp2 <= jpp2 < n2 && valid_blocked(
                        swapped(t1, ip2, jp2),
                        *p as int,
                    ) ==> min_dist as int <= #[trigger] weighted_dist(
                        a@,
                        b@,
                        swapped(t1, ip2, jp2),
                        swapped(t2, ipp2, jpp2),
                        *m,
                        la,
                        lb,
                    ),
            decreases n1 - ip,
        {
            let mut jp: usize = ip;
            while jp < n1
                invariant
                    ip < n1,
                    ip <= jp <= n1,
                    matrix@.len() == total,
                    isig1_o@.len() == n1 && is_perm(isig1_o@),
                    isig2_o@.len() == n2 && is_perm(isig2_o@),
                    isig1_min@.len() == n1 && is_perm(isig1_min@),
                    isig2_min@.len() == n2 && is_perm(isig2_min@),
                    gpa.len() == n1 && is_perm(gpa),
                    gpb.len() == n2 && is_perm(gpb),
                    min_dist as int == weighted_dist(a@, b@, gpa, gpb, *m, la, lb),
                    improved ==> min_dist < md0,
                    !improved ==> min_dist == md0,
                    forall|ip2: int, jp2: int, ipp2: int, jpp2: int|
                        0 <= ip2 < ip && ip2 <= jp2 < n1 && 0 <= ipp2 <= jpp2 < n2
                            && valid_blocked(swapped(t1, ip2, jp2), *p as int)
                            ==> min_dist as int <= #[trigger] weighted_dist(
                            a@,
                            b@,
                            swapped(t1, ip2, jp2),
                            swapped(t2, ipp2, jpp2),
                            *m,
                            la,
                            lb,
                        ),
                    forall|jp2: int, ipp2: int, jpp2: int|
                        ip <= jp2 < jp && 0 <= ipp2 <= jpp2 < n2 && valid_blocked(
                            swapped(t1, ip as int, jp2),
                            *p as int,
                        ) ==> min_dist as int <= #[trigger] weighted_dist(
                            a@,
                            b@,
                            swapped(t1, ip as int, jp2),
                            swapped(t2, ipp2, jpp2),
                            *m,
                            la,
                            lb,
                        ),
                decreases n1 - jp,
            {
                isig1_o = clone_indices(&isig1_t);
                proof {
                    lemma_swap_preserves_perm(isig1_o@, ip as int, jp as int);
                }
                swap_entries(&mut isig1_o, ip, jp);
                proof {
                    assert(isig1_o@ == swapped(t1, ip as int, jp as int));
                }

                let first_valid = is_valid(&isig1_o, *p);
                if first_valid {
                    let mut ipp: usize = 0;
                    while ipp < n2
                        invariant
                            ipp <= n2,
                            matrix@.len() == total,
                            isig1_o@.len() == n1 && is_perm(isig1_o@),
                            isig1_o@ == swapped(t1, ip as int, jp as int),
                            isig2_o@.len() == n2 && is_perm(isig2_o@),
                            isig1_min@.len() == n1 && is_perm(isig1_min@),
                            isig2_min@.len() == n2 && is_perm(isig2_min@),
                            gpa.len() == n1 && is_perm(gpa),
                            gpb.len() == n2 && is_perm(gpb),
                            min_dist as int == weighted_dist(a@, b@, gpa, gpb, *m, la, lb),
                            improved ==> min_dist < md0,
                            !improved ==> min_dist == md0,
                            forall|ip2: int, jp2: int, ipp2: int, jpp2: int|
                                0 <= ip2 < ip && ip2 <= jp2 < n1 && 0 <= ipp2 <= jpp2 < n2
                                    && valid_blocked(swapped(t1, ip2, jp2), *p as int)
                                    ==> min_dist as int <= #[trigger] weighted_dist(
                                    a@,
                                    b@,
                                    swapped(t1, ip2, jp2),
                                    swapped(t2, ipp2, jpp2),
                                    *m,
                                    la,
                                    lb,
                                ),
                            forall|jp2: int, ipp2: int, jpp2: int|
                                ip <= jp2 < jp && 0 <= ipp2 <= jpp2 < n2 && valid_blocked(
                                    swapped(t1, ip as int, jp2),
                                    *p as int,
                                ) ==> min_dist as int <= #[trigger] weighted_dist(
                                    a@,
                                    b@,
                                    swapped(t1, ip as int, jp2),
                                    swapped(t2, ipp2, jpp2),
                                    *m,
                                    la,
                                    lb,
                                ),
                            forall|ipp2: int, jpp2: int|
                                0 <= ipp2 < ipp && ipp2 <= jpp2 < n2 ==> min_dist as int
                                    <= #[trigger] weighted_dist(
                                    a@,
                                    b@,
                                    swapped(t1, ip as int, jp as int),
                                    swapped(t2, ipp2, jpp2),
                                    *m,
                                    la,
                                    lb,
                                ),
                        decreases n2 - ipp,
                    {
                        let mut jpp: usize = ipp;
                        while jpp < n2
                            invariant
                                ipp < n2,
                                ipp <= jpp <= n2,
                                matrix@.len() == total,
                                isig1_o@.len() == n1 && is_perm(isig1_o@),
                                isig1_o@ == swapped(t1, ip as int, jp as int),
                                isig2_o@.len() == n2 && is_perm(isig2_o@),
                                isig1_min@.len() == n1 && is_perm(isig1_min@),
                                isig2_min@.len() == n2 && is_perm(isig2_min@),
                                gpa.len() == n1 && is_perm(gpa),
                                gpb.len() == n2 && is_perm(gpb),
                                min_dist as int == weighted_dist(a@, b@, gpa, gpb, *m, la, lb),
                                improved ==> min_dist < md0,
                                !improved ==> min_dist == md0,
                                forall|ip2: int, jp2: int, ipp2: int, jpp2: int|
                                    0 <= ip2 < ip && ip2 <= jp2 < n1 && 0 <= ipp2 <= jpp2 < n2
                                        && valid_blocked(swapped(t1, ip2, jp2), *p as int)
                                        ==> min_dist as int <= #[trigger] weighted_dist(
                                        a@,
                                        b@,
                                        swapped(t1, ip2, jp2),
                                        swapped(t2, ipp2, jpp2),
                                        *m,
                                        la,
                                        lb,
                                    ),
                                forall|jp2: int, ipp2: int, jpp2: int|
                                    ip <= jp2 < jp && 0 <= ipp2 <= jpp2 < n2 && valid_blocked(
                                        swapped(t1, ip as int, jp2),
                                        *p as int,
                                    ) ==> min_dist as int <= #[trigger] weighted_dist(
                                        a@,
                                        b@,
                                        swapped(t1, ip as int, jp2),
                                        swapped(t2, ipp2, jpp2),
                                        *m,
                                        la,
                                        lb,
                                    ),
                                forall|ipp2: int, jpp2: int|
                                    0 <= ipp2 < ipp && ipp2 <= jpp2 < n2 ==> min_dist as int
                                        <= #[trigger] weighted_dist(
                                        a@,
                                        b@,
                                        swapped(t1, ip as int, jp as int),
                                        swapped(t2, ipp2, jpp2),
                                        *m,
                                        la,
                                        lb,
                                    ),
                                forall|jpp2: int|
                                    ipp <= jpp2 < jpp ==> min_dist as int <= #[trigger] weighted_dist(
                                        a@,
                                        b@,
                                        swapped(t1, ip as int, jp as int),
                                        swapped(t2, ipp as int, jpp2),
                                        *m,
                                        la,
                                        lb,
                                    ),
                            decreases n2 - jpp,
                        {
                            isig2_o = clone_indices(&isig2_t);
                            proof {
                                lemma_swap_preserves_perm(isig2_o@, ipp as int, jpp as int);
                            }
                            swap_entries(&mut isig2_o, ipp, jpp);
                            proof {
                                assert(isig2_o@ == swapped(t2, ipp as int, jpp as int));
                            }

                            d = edit_distance_enhanced(a, b, &isig1_o, &isig2_o, &mut matrix, m);
                            if d < min_dist {
                                improved = true;
                                min_dist = d;
                                proof {
                                    gpa = isig1_o@;
                                    gpb = isig2_o@;
                                }
                                isig1_min = clone_indices(&isig1_o);
                                isig2_min = clone_indices(&isig2_o);
                            }
                            jpp = jpp + 1;
                        }
                        isig2_o = clone_indices(&isig2_t);
                        ipp = ipp + 1;
                    }
                } else {
                    proof {
                        assert(!valid_blocked(swapped(t1, ip as int, jp as int), *p as int));
                    }
                }
                jp = jp + 1;
            }
            ip = ip + 1;
        }

        proof {
            if first {
                first = false;
                m1 = min_dist as int;
            }
        }

        if improved {
            isig1_o = clone_indices(&isig1_min);
            isig2_o = clone_indices(&isig2_min);
            isig1_t = clone_indices(&isig1_o);
            isig2_t = clone_indices(&isig2_o);
        } else {
            if min_dist < min_min_dist {
                min_min_dist = min_dist;
                proof {
                    bpa = gpa;
                    bpb = gpb;
                }
                isig1_min_min = clone_indices(&isig1_min);
                isig2_min_min = clone_indices(&isig2_min);
                improved = true;
                tries = 0;
            }
            if tries < attempts {
                improved = true;
                tries = tries + 1;

                let mut k_shuffle: usize = 0;
                let mut valid_now = is_valid(&isig1_t, *p);
                while k_shuffle < shuffle_tries && !valid_now
                    invariant
                        k_shuffle <= shuffle_tries,
                        isig1_t@.len() == n1 && is_perm(isig1_t@),
                        valid_now == valid_blocked(isig1_t@, *p as int),
                    decreases shuffle_tries - k_shuffle,
                {
                    shuffle(&mut isig1_t);
                    valid_now = is_valid(&isig1_t, *p);
                    k_shuffle = k_shuffle + 1;
                }
                if !valid_now {
                    isig1_t = clone_indices(&isig1_o);
                }
                shuffle(&mut isig2_t);

                isig1_o = clone_indices(&isig1_t);
                isig2_o = clone_indices(&isig2_t);
                min_dist = edit_distance_enhanced(a, b, &isig1_o, &isig2_o, &mut matrix, m);
                proof {
                    gpa = isig1_o@;
                    gpb = isig2_o@;
                }
            }
        }
    }
    proof {
        assert(min_min_dist as int <= m1);
        assert forall|ip: int, jp: int, ipp: int, jpp: int|
            0 <= ip <= jp < n1 && 0 <= ipp <= jpp < n2 && valid_blocked(
                swapped(identity_seq(n1 as int), ip, jp),
                *p as int,
            ) implies min_min_dist as int <= #[trigger] weighted_dist(
            a@,
            b@,
            swapped(identity_seq(n1 as int), ip, jp),
            swapped(identity_seq(n2 as int), ipp, jpp),
            *m,
            la,
            lb,
        ) by {}
    }
    min_min_dist
}

} // verus!
