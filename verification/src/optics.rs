//! The ordering engine: every point is processed exactly once and appended to
//! an output ordering annotated with its core-distance and its
//! reachability-distance, the next point being drawn from a seed list ordered
//! by ascending reachability-distance with ties broken by ascending index.

use vstd::prelude::*;

use crate::counts::{
    count_true, lemma_count_true_bounds, lemma_count_true_full, lemma_count_true_ge_one,
    lemma_count_true_pos_exists, lemma_count_true_prefix, lemma_count_true_update,
};
use crate::labels::{ClusterError, params_ok};
use crate::neighbors::{
    all_points_valid, all_valid, count_dist_le, count_le, count_within, is_core,
    lemma_count_le_eq_count_within, range_query, within,
};
use crate::point::{Point, dist_sq, sq_dist};

verus! {

/// One place of the output ordering: the point's index, its core-distance and
/// its reachability-distance, both as squared values, `None` standing for
/// infinity.
#[derive(Debug, Clone, Copy, PartialEq, Eq)]
pub struct OpticsEntry {
    pub index: usize,
    pub core_sq: Option<u64>,
    pub reach_sq: Option<u64>,
}

/// Distance value `d` is attained by some neighbor of `i` within the radius.
pub open spec fn attained(points: Seq<Point>, eps: int, i: int, d: u64) -> bool {
    exists|j: int|
        0 <= j < points.len() && #[trigger] within(points, eps, i, j) && sq_dist(
            points[i],
            points[j],
        ) == d
}

/// What a reported core-distance means: it is finite exactly for a core
/// point, and a finite value is the distance to the `min_pts`-th nearest
/// neighbor: an attained distance within the radius that covers at least
/// `min_pts` points, while every smaller attained distance covers fewer.
pub open spec fn core_ok(
    points: Seq<Point>,
    eps: int,
    min_pts: int,
    i: int,
    cd: Option<u64>,
) -> bool {
    &&& (cd is None <==> !is_core(points, eps, min_pts, i))
    &&& (cd matches Some(d) ==> attained(points, eps, i, d))
    &&& (cd matches Some(d) ==> d <= eps * eps)
    &&& (cd matches Some(d) ==> count_dist_le(points, i, d as int, points.len() as int)
        >= min_pts)
    &&& (cd matches Some(d) ==> forall|d2: u64|
        #[trigger] attained(points, eps, i, d2) && d2 < d ==> count_dist_le(
            points,
            i,
            d2 as int,
            points.len() as int,
        ) < min_pts)
}

/// What a finite reachability value means: at most the squared radius, and
/// witnessed by a distinct core point whose neighborhood covers the point.
pub open spec fn reach_val_ok(
    points: Seq<Point>,
    eps: int,
    min_pts: int,
    j: int,
    rv: Option<u64>,
) -> bool {
    rv matches Some(d) ==> d <= eps * eps && exists|w: int|
        0 <= w < points.len() && w != j && is_core(points, eps, min_pts, w) && #[trigger] within(
            points,
            eps,
            w,
            j,
        ) && sq_dist(points[w], points[j]) <= d
}

/// Index `i` stands somewhere in the ordering.
pub open spec fn appears(out: Seq<OpticsEntry>, i: int) -> bool {
    exists|t: int| 0 <= t < out.len() && (#[trigger] out[t]).index == i
}

/// Everything a successful run promises of its ordering: a permutation of
/// all point indices, each annotated with a meaningful core-distance and
/// reachability-distance.
pub open spec fn optics_post(
    points: Seq<Point>,
    eps: int,
    min_pts: int,
    out: Seq<OpticsEntry>,
) -> bool {
    &&& out.len() == points.len()
    &&& (forall|t: int| 0 <= t < out.len() ==> (#[trigger] out[t]).index < points.len())
    &&& (forall|t1: int, t2: int| 0 <= t1 < t2 < out.len() ==> out[t1].index != out[t2].index)
    &&& (forall|i: int| 0 <= i < points.len() ==> #[trigger] appears(out, i))
    &&& (forall|t: int|
        0 <= t < out.len() ==> core_ok(
            points,
            eps,
            min_pts,
            (#[trigger] out[t]).index as int,
            out[t].core_sq,
        ))
    &&& (forall|t: int|
        0 <= t < out.len() ==> reach_val_ok(
            points,
            eps,
            min_pts,
            (#[trigger] out[t]).index as int,
            out[t].reach_sq,
        ))
}

/// The running state every loop of the engine preserves.
spec fn optics_inv(
    points: Seq<Point>,
    eps: int,
    min_pts: int,
    processed: Seq<bool>,
    reach: Seq<Option<u64>>,
    inseed: Seq<bool>,
    out: Seq<OpticsEntry>,
) -> bool {
    &&& processed.len() == points.len()
    &&& reach.len() == points.len()
    &&& inseed.len() == points.len()
    &&& out.len() == count_true(processed, points.len() as int)
    &&& (forall|t: int|
        0 <= t < out.len() ==> (#[trigger] out[t]).index < points.len() && processed[out[t].index as int])
    &&& (forall|m: int| 0 <= m < points.len() && processed[m] ==> #[trigger] appears(out, m))
    &&& (forall|t1: int, t2: int| 0 <= t1 < t2 < out.len() ==> out[t1].index != out[t2].index)
    &&& (forall|t: int|
        0 <= t < out.len() ==> core_ok(
            points,
            eps,
            min_pts,
            (#[trigger] out[t]).index as int,
            out[t].core_sq,
        ))
    &&& (forall|t: int|
        0 <= t < out.len() ==> reach_val_ok(
            points,
            eps,
            min_pts,
            (#[trigger] out[t]).index as int,
            out[t].reach_sq,
        ))
    &&& (forall|j: int|
        0 <= j < points.len() && #[trigger] inseed[j] ==> !processed[j] && reach[j] is Some)
    &&& (forall|j: int|
        0 <= j < points.len() ==> reach_val_ok(points, eps, min_pts, j, #[trigger] reach[j]))
}

/// The core-distance of point `i`: the distance to its `min_pts`-th closest
/// neighbor within the radius, infinite when the neighborhood is too small.
/// `nbrs` is the answer of the range query for `i`.
#[verifier::loop_isolation(false)]
#[verifier::rlimit(60)]
fn core_dist(
    points: &Vec<Point>,
    i: usize,
    eps: i64,
    min_pts: usize,
    nbrs: &Vec<usize>,
) -> (r: Option<u64>)
    requires
        all_valid(points@),
        i < points@.len(),
        eps >= 0,
        min_pts >= 1,
        nbrs@.len() == count_within(points@, eps as int, i as int, points@.len() as int),
        forall|t: int|
            0 <= t < nbrs@.len() ==> (#[trigger] nbrs@[t]) < points@.len() && within(
                points@,
                eps as int,
                i as int,
                nbrs@[t] as int,
            ),
        forall|j2: int|
            0 <= j2 < points@.len() && #[trigger] within(points@, eps as int, i as int, j2)
                ==> exists|t: int| 0 <= t < nbrs@.len() && nbrs@[t] == j2,
    ensures
        core_ok(points@, eps as int, min_pts as int, i as int, r),
{
    let n = points.len();
    if nbrs.len() < min_pts {
        return None;
    }
    let mut best: u64 = 0;
    let mut have: bool = false;
    let mut dmax: u64 = 0;
    let mut t: usize = 0;
    while t < nbrs.len()
        invariant
            t <= nbrs@.len(),
            t > 0 ==> attained(points@, eps as int, i as int, dmax),
            forall|u: int|
                0 <= u < t ==> sq_dist(points@[i as int], points@[(#[trigger] nbrs@[u]) as int])
                    <= dmax,
            t > 0 ==> exists|u: int|
                0 <= u < t && sq_dist(points@[i as int], points@[(#[trigger] nbrs@[u]) as int])
                    == dmax,
            have ==> attained(points@, eps as int, i as int, best),
            have ==> count_dist_le(points@, i as int, best as int, n as int) >= min_pts,
            forall|u: int|
                0 <= u < t && (!have || sq_dist(
                    points@[i as int],
                    points@[(#[trigger] nbrs@[u]) as int],
                ) < best) ==> count_dist_le(
                    points@,
                    i as int,
                    sq_dist(points@[i as int], points@[nbrs@[u] as int]),
                    n as int,
                ) < min_pts,
        decreases nbrs@.len() - t,
    {
        let j = nbrs[t];
        let d = dist_sq(&points[i], &points[j]);
        let ghost dmax0 = dmax;
        if t == 0 || d > dmax {
            dmax = d;
        }
        proof {
            assert(within(points@, eps as int, i as int, j as int));
            assert(attained(points@, eps as int, i as int, dmax)) by {
                if t == 0 || d > dmax0 {
                    assert(sq_dist(points@[i as int], points@[j as int]) == dmax);
                }
            }
            assert(exists|u: int|
                0 <= u < t + 1 && sq_dist(
                    points@[i as int],
                    points@[(#[trigger] nbrs@[u]) as int],
                ) == dmax) by {
                if t == 0 || d > dmax0 {
                    assert(sq_dist(points@[i as int], points@[(nbrs@[t as int]) as int]) == dmax);
                } else {
                    let u0 = choose|u: int|
                        0 <= u < t && sq_dist(
                            points@[i as int],
                            points@[(#[trigger] nbrs@[u]) as int],
                        ) == dmax0;
                    assert(sq_dist(points@[i as int], points@[(nbrs@[u0]) as int]) == dmax);
                }
            }
        }
        let c = count_le(points, i, d);
        if c >= min_pts && (!have || d < best) {
            best = d;
            have = true;
            proof {
                assert(sq_dist(points@[i as int], points@[j as int]) == best);
                assert(attained(points@, eps as int, i as int, best));
            }
        }
        t = t + 1;
    }
    proof {
        if !have {
            assert forall|j2: int|
                0 <= j2 < n && #[trigger] within(points@, eps as int, i as int, j2) implies sq_dist(
                points@[i as int],
                points@[j2],
            ) <= dmax by {
                let t2 = choose|t2: int| 0 <= t2 < nbrs@.len() && nbrs@[t2] == j2;
                assert(sq_dist(points@[i as int], points@[(nbrs@[t2]) as int]) <= dmax);
            }
            assert(dmax <= eps * eps) by {
                let jw = choose|jw: int|
                    0 <= jw < points@.len() && #[trigger] within(points@, eps as int, i as int, jw)
                        && sq_dist(points@[i as int], points@[jw]) == dmax;
            }
            lemma_count_le_eq_count_within(points@, eps as int, i as int, dmax as int, n as int);
            let u = choose|u: int|
                0 <= u < nbrs@.len() && sq_dist(
                    points@[i as int],
                    points@[(#[trigger] nbrs@[u]) as int],
                ) == dmax;
            assert(count_dist_le(
                points@,
                i as int,
                sq_dist(points@[i as int], points@[nbrs@[u] as int]),
                n as int,
            ) < min_pts);
            assert(false);
        }
        assert(best <= eps * eps) by {
            let jw = choose|jw: int|
                0 <= jw < points@.len() && #[trigger] within(points@, eps as int, i as int, jw)
                    && sq_dist(points@[i as int], points@[jw]) == best;
        }
        assert forall|d2: u64|
            #[trigger] attained(points@, eps as int, i as int, d2) && d2 < best implies count_dist_le(
            points@,
            i as int,
            d2 as int,
            n as int,
        ) < min_pts by {
            let jw = choose|jw: int|
                0 <= jw < points@.len() && #[trigger] within(points@, eps as int, i as int, jw)
                    && sq_dist(points@[i as int], points@[jw]) == d2;
            let t2 = choose|t2: int| 0 <= t2 < nbrs@.len() && nbrs@[t2] == jw;
            assert(sq_dist(points@[i as int], points@[(nbrs@[t2]) as int]) < best);
            assert(count_dist_le(
                points@,
                i as int,
                sq_dist(points@[i as int], points@[nbrs@[t2] as int]),
                n as int,
            ) < min_pts);
        }
    }
    Some(best)
}

/// Produces the full ordering with per-point core- and reachability-
/// distances.
///
/// A negative radius or a zero minimum neighborhood size is rejected before
/// any processing, as is a point outside the representable coordinate range;
/// an empty input yields an empty ordering and no error.
pub fn optics(points: &Vec<Point>, eps: i64, min_pts: usize) -> (r: Result<
    Vec<OpticsEntry>,
    ClusterError,
>)
    ensures
        r is Ok <==> params_ok(eps as int, min_pts as int) && all_valid(points@),
        (eps < 0 || min_pts == 0) ==> r == Result::<Vec<OpticsEntry>, ClusterError>::Err(
            ClusterError::InvalidParameter,
        ),
        (params_ok(eps as int, min_pts as int) && !all_valid(points@)) ==> r == Result::<
            Vec<OpticsEntry>,
            ClusterError,
        >::Err(ClusterError::NonFiniteCoordinate),
        r matches Ok(out) ==> optics_post(points@, eps as int, min_pts as int, out@),
{
    if eps < 0 || min_pts == 0 {
        return Err(ClusterError::InvalidParameter);
    }
    if !all_points_valid(points) {
        return Err(ClusterError::NonFiniteCoordinate);
    }
    Ok(optics_core(points, eps, min_pts))
}

/// The engine proper, on checked inputs.
#[verifier::loop_isolation(false)]
fn optics_core(points: &Vec<Point>, eps: i64, min_pts: usize) -> (out: Vec<OpticsEntry>)
    requires
        eps >= 0,
        min_pts >= 1,
        all_valid(points@),
    ensures
        optics_post(points@, eps as int, min_pts as int, out@),
{
    let n = points.len();
    let mut processed: Vec<bool> = Vec::new();
    let mut reach: Vec<Option<u64>> = Vec::new();
    let mut inseed: Vec<bool> = Vec::new();
    let mut idx: usize = 0;
    while idx < n
        invariant
            idx <= n,
            processed@.len() == idx,
            reach@.len() == idx,
            inseed@.len() == idx,
            forall|m: int| 0 <= m < idx ==> !(#[trigger] processed@[m]),
            forall|m: int| 0 <= m < idx ==> !(#[trigger] inseed@[m]),
            forall|m: int| 0 <= m < idx ==> (#[trigger] reach@[m]) is None,
            count_true(processed@, idx as int) == 0,
            count_true(inseed@, idx as int) == 0,
        decreases n - idx,
    {
        proof {
            lemma_count_true_prefix(processed@.push(false), processed@, idx as int);
            lemma_count_true_prefix(inseed@.push(false), inseed@, idx as int);
        }
        processed.push(false);
        reach.push(None);
        inseed.push(false);
        idx = idx + 1;
    }
    let mut out: Vec<OpticsEntry> = Vec::new();
    let mut seed_count: usize = 0;
    let mut i: usize = 0;
    while i < n
        invariant
            i <= n,
            optics_inv(points@, eps as int, min_pts as int, processed@, reach@, inseed@, out@),
            seed_count == count_true(inseed@, n as int),
            forall|m: int| 0 <= m < i ==> processed@[m],
        decreases n - i,
    {
        if !processed[i] {
            process_point(
                points,
                eps,
                min_pts,
                i,
                &mut processed,
                &mut reach,
                &mut inseed,
                &mut seed_count,
                &mut out,
            );
            while seed_count > 0
                invariant
                    optics_inv(
                        points@,
                        eps as int,
                        min_pts as int,
                        processed@,
                        reach@,
                        inseed@,
                        out@,
                    ),
                    seed_count == count_true(inseed@, n as int),
                    forall|m: int| 0 <= m < i ==> processed@[m],
                    processed@[i as int],
                decreases n - count_true(processed@, n as int),
            {
                proof {
                    lemma_count_true_pos_exists(inseed@, n as int);
                }
                let mut best: usize = n;
                let mut best_d: u64 = 0;
                let mut j: usize = 0;
                while j < n
                    invariant
                        j <= n,
                        best <= n,
                        best == n ==> forall|m: int| 0 <= m < j ==> !(#[trigger] inseed@[m]),
                        best < n ==> inseed@[best as int] && reach@[best as int] == Some(best_d),
                    decreases n - j,
                {
                    if inseed[j] {
                        let d = if let Some(x) = reach[j] {
                            x
                        } else {
                            0
                        };
                        proof {
                            assert(reach@[j as int] is Some);
                        }
                        if best == n || d < best_d {
                            best = j;
                            best_d = d;
                        }
                    }
                    j = j + 1;
                }
                proof {
                    assert(count_true(inseed@, n as int) > 0);
                    lemma_count_true_pos_exists(inseed@, n as int);
                    let w = choose|m: int| 0 <= m < n && inseed@[m];
                    assert(0 <= w < n && inseed@[w]);
                    if best == n {
                        assert(!inseed@[w]);
                    }
                }
                assert(best < n);
                proof {
                    lemma_count_true_bounds(processed@, n as int);
                    lemma_count_true_ge_one(inseed@, best as int, n as int);
                }
                process_point(
                    points,
                    eps,
                    min_pts,
                    best,
                    &mut processed,
                    &mut reach,
                    &mut inseed,
                    &mut seed_count,
                    &mut out,
                );
                proof {
                    lemma_count_true_bounds(processed@, n as int);
                }
            }
        }
        i = i + 1;
    }
    proof {
        lemma_count_true_full(processed@, n as int);
    }
    out
}

/// Marks `q` processed, appends its entry to the ordering, and, when `q` is
/// core, offers every unprocessed neighbor the reachability value
/// `max(core-distance of q, distance to q)`, keeping the smaller of it and
/// the neighbor's current value.
#[verifier::loop_isolation(false)]
fn process_point(
    points: &Vec<Point>,
    eps: i64,
    min_pts: usize,
    q: usize,
    processed: &mut Vec<bool>,
    reach: &mut Vec<Option<u64>>,
    inseed: &mut Vec<bool>,
    seed_count: &mut usize,
    out: &mut Vec<OpticsEntry>,
)
    requires
        eps >= 0,
        min_pts >= 1,
        all_valid(points@),
        q < points@.len(),
        optics_inv(
            points@,
            eps as int,
            min_pts as int,
            old(processed)@,
            old(reach)@,
            old(inseed)@,
            old(out)@,
        ),
        !old(processed)@[q as int],
        *old(seed_count) == count_true(old(inseed)@, points@.len() as int),
    ensures
        optics_inv(
            points@,
            eps as int,
            min_pts as int,
            final(processed)@,
            final(reach)@,
            final(inseed)@,
            final(out)@,
        ),
        *final(seed_count) == count_true(final(inseed)@, points@.len() as int),
        final(processed)@ == old(processed)@.update(q as int, true),
        count_true(final(processed)@, points@.len() as int) == count_true(
            old(processed)@,
            points@.len() as int,
        ) + 1,
{
    let n = points.len();
    let ghost out0 = out@;
    if inseed[q] {
        proof {
            lemma_count_true_ge_one(inseed@, q as int, n as int);
            lemma_count_true_update(inseed@, q as int, false, n as int);
        }
        inseed.set(q, false);
        *seed_count = *seed_count - 1;
    }
    proof {
        lemma_count_true_update(processed@, q as int, true, n as int);
    }
    processed.set(q, true);
    let nq = range_query(points, q, eps);
    let cd = core_dist(points, q, eps, min_pts, &nq);
    let rq = reach[q];
    out.push(OpticsEntry { index: q, core_sq: cd, reach_sq: rq });
    proof {
        assert forall|m: int| 0 <= m < points@.len() && processed@[m] implies #[trigger] appears(
            out@,
            m,
        ) by {
            if m == q {
                assert((out@[out@.len() - 1]).index == m);
            } else {
                assert(appears(out0, m));
                let t = choose|t: int| 0 <= t < out0.len() && (#[trigger] out0[t]).index == m;
                assert((out@[t]).index == m);
            }
        }
        assert forall|t1: int, t2: int| 0 <= t1 < t2 < out@.len() implies out@[t1].index
            != out@[t2].index by {
            if t2 == out@.len() - 1 {
                assert(!old(processed)@[q as int]);
            }
        }
    }
    if let Some(cdv) = cd {
        proof {
            assert(is_core(points@, eps as int, min_pts as int, q as int));
        }
        let mut t: usize = 0;
        while t < nq.len()
            invariant
                t <= nq@.len(),
                reach@.len() == n,
                inseed@.len() == n,
                *seed_count == count_true(inseed@, n as int),
                forall|j: int|
                    0 <= j < n && #[trigger] inseed@[j] ==> !processed@[j] && reach@[j] is Some,
                forall|j: int|
                    0 <= j < n ==> reach_val_ok(
                        points@,
                        eps as int,
                        min_pts as int,
                        j,
                        #[trigger] reach@[j],
                    ),
            decreases nq@.len() - t,
        {
            let j = nq[t];
            if !processed[j] {
                let d = dist_sq(&points[q], &points[j]);
                let cand = if d > cdv {
                    d
                } else {
                    cdv
                };
                let better = match reach[j] {
                    None => true,
                    Some(old_d) => cand < old_d,
                };
                if better {
                    proof {
                        assert(within(points@, eps as int, q as int, j as int));
                        assert(q as int != j as int);
                        assert(sq_dist(points@[q as int], points@[j as int]) <= cand);
                        assert(cand <= eps * eps);
                    }
                    reach.set(j, Some(cand));
                    if !inseed[j] {
                        proof {
                            lemma_count_true_update(inseed@, j as int, true, n as int);
                            lemma_count_true_bounds(inseed@.update(j as int, true), n as int);
                        }
                        inseed.set(j, true);
                        *seed_count = *seed_count + 1;
                    }
                }
            }
            t = t + 1;
        }
    }
}

} // verus!
