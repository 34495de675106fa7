//! The density-reachability engine: every point becomes a member of exactly
//! one cluster or noise, by expansion from core points in input index order
//! with a first-in-first-out work queue, so border points join the first
//! cluster that reaches them.

use vstd::prelude::*;

use crate::counts::{count_true, lemma_count_true_bounds, lemma_count_true_prefix, lemma_count_true_update};
use crate::labels::{ClusterError, Label, labeled, params_ok};
use crate::neighbors::{all_points_valid, all_valid, count_within, is_core, range_query, within};
use crate::point::{Point, lemma_dist_zero_iff_eq};

verus! {

/// Cluster identifier `k` is carried by some point.
pub open spec fn id_used(labels: Seq<Label>, k: usize) -> bool {
    exists|i: int| #[trigger] labeled(labels, i, k)
}

/// Identifiers are contiguous from zero: everything assigned is below `nc`,
/// and everything below `nc` is assigned to some point.
pub open spec fn ids_dense(labels: Seq<Label>, nc: usize) -> bool {
    &&& (forall|i: int, k: usize| #[trigger] labeled(labels, i, k) ==> k < nc)
    &&& (forall|k: usize| k < nc ==> #[trigger] id_used(labels, k))
}

/// Everything a successful run promises of its labeling.
pub open spec fn dbscan_post(
    points: Seq<Point>,
    eps: int,
    min_pts: int,
    labels: Seq<Label>,
) -> bool {
    &&& labels.len() == points.len()
    // every core point belongs to a cluster
    &&& (forall|i: int|
        0 <= i < points.len() && is_core(points, eps, min_pts, i) ==> (#[trigger] labels[i])
            is Cluster)
    // a clustered point is itself core, or lies within eps of a core point
    // of its own cluster (so a point that is neither is always noise)
    &&& (forall|i: int, k: usize|
        #[trigger] labeled(labels, i, k) ==> is_core(points, eps, min_pts, i) || exists|j: int|
            0 <= j < points.len() && is_core(points, eps, min_pts, j) && #[trigger] labeled(
                labels,
                j,
                k,
            ) && within(points, eps, j, i))
    // cluster identifiers are contiguous in first-discovery order
    &&& (exists|nc: usize| ids_dense(labels, nc))
    // a zero radius groups only exactly-coincident points
    &&& (eps == 0 ==> forall|i: int, j: int, k: usize|
        #![trigger labeled(labels, i, k), labeled(labels, j, k)]
        labeled(labels, i, k) && labeled(labels, j, k) ==> points[i] == points[j])
}

/// The running state every loop of the engine preserves.
spec fn state_inv(
    points: Seq<Point>,
    eps: int,
    min_pts: int,
    labels: Seq<Label>,
    visited: Seq<bool>,
    next_id: usize,
) -> bool {
    &&& labels.len() == points.len()
    &&& visited.len() == points.len()
    // a clustered point has been visited
    &&& (forall|i: int, k: usize| #[trigger] labeled(labels, i, k) ==> visited[i])
    // identifiers in use are below the allocator
    &&& (forall|i: int, k: usize| #[trigger] labeled(labels, i, k) ==> k < next_id)
    // every allocated identifier is in use
    &&& (forall|k: usize| k < next_id ==> #[trigger] id_used(labels, k))
    // a visited core point is clustered
    &&& (forall|i: int|
        0 <= i < points.len() && visited[i] && is_core(points, eps, min_pts, i) ==> (
        #[trigger] labels[i]) is Cluster)
    // a clustered point is core or within eps of a core member of its cluster
    &&& (forall|i: int, k: usize|
        #[trigger] labeled(labels, i, k) ==> is_core(points, eps, min_pts, i) || exists|j: int|
            0 <= j < points.len() && is_core(points, eps, min_pts, j) && #[trigger] labeled(
                labels,
                j,
                k,
            ) && within(points, eps, j, i))
    // a zero radius groups only exactly-coincident points
    &&& (eps == 0 ==> forall|i: int, j: int, k: usize|
        #![trigger labeled(labels, i, k), labeled(labels, j, k)]
        labeled(labels, i, k) && labeled(labels, j, k) ==> points[i] == points[j])
}

/// Every pending queue entry is in range and within eps of a core point
/// already assigned to the cluster being expanded.
spec fn queue_ok(
    points: Seq<Point>,
    eps: int,
    min_pts: int,
    labels: Seq<Label>,
    k: usize,
    queue: Seq<usize>,
    head: int,
) -> bool {
    forall|u: int|
        head <= u < queue.len() ==> (#[trigger] queue[u]) < points.len() && exists|c: int|
            0 <= c < points.len() && is_core(points, eps, min_pts, c) && #[trigger] labeled(
                labels,
                c,
                k,
            ) && within(points, eps, c, queue[u] as int)
}

/// Labels every point as a member of exactly one cluster or as noise.
///
/// A negative radius or a zero minimum neighborhood size is rejected before
/// any processing, as is a point outside the representable coordinate range;
/// an empty input yields an empty labeling and no error.
pub fn dbscan(points: &Vec<Point>, eps: i64, min_pts: usize) -> (r: Result<
    Vec<Label>,
    ClusterError,
>)
    ensures
        r is Ok <==> params_ok(eps as int, min_pts as int) && all_valid(points@),
        (eps < 0 || min_pts == 0) ==> r == Result::<Vec<Label>, ClusterError>::Err(
            ClusterError::InvalidParameter,
        ),
        (params_ok(eps as int, min_pts as int) && !all_valid(points@)) ==> r == Result::<
            Vec<Label>,
            ClusterError,
        >::Err(ClusterError::NonFiniteCoordinate),
        r matches Ok(labels) ==> dbscan_post(points@, eps as int, min_pts as int, labels@),
{
    if eps < 0 || min_pts == 0 {
        return Err(ClusterError::InvalidParameter);
    }
    if !all_points_valid(points) {
        return Err(ClusterError::NonFiniteCoordinate);
    }
    Ok(dbscan_core(points, eps, min_pts))
}

/// The engine proper, on checked inputs.
#[verifier::loop_isolation(false)]
fn dbscan_core(points: &Vec<Point>, eps: i64, min_pts: usize) -> (labels: Vec<Label>)
    requires
        eps >= 0,
        min_pts >= 1,
        all_valid(points@),
    ensures
        dbscan_post(points@, eps as int, min_pts as int, labels@),
{
    let n = points.len();
    let mut labels: Vec<Label> = Vec::new();
    let mut visited: Vec<bool> = Vec::new();
    let mut idx: usize = 0;
    while idx < n
        invariant
            idx <= n,
            labels@.len() == idx,
            visited@.len() == idx,
            forall|m: int| 0 <= m < idx ==> labels@[m] == Label::Noise,
            forall|m: int| 0 <= m < idx ==> !(#[trigger] visited@[m]),
        decreases n - idx,
    {
        labels.push(Label::Noise);
        visited.push(false);
        idx = idx + 1;
    }
    let mut next_id: usize = 0;
    let mut i: usize = 0;
    while i < n
        invariant
            i <= n,
            next_id <= i,
            state_inv(points@, eps as int, min_pts as int, labels@, visited@, next_id),
            forall|m: int| 0 <= m < i ==> visited@[m],
        decreases n - i,
    {
        if !visited[i] {
            proof {
                lemma_outer_visit(
                    points@,
                    eps as int,
                    min_pts as int,
                    labels@,
                    visited@,
                    next_id,
                    i as int,
                );
            }
            let nbrs = range_query(points, i, eps);
            visited.set(i, true);
            if nbrs.len() >= min_pts {
                proof {
                    assert(is_core(points@, eps as int, min_pts as int, i as int));
                }
                let k = next_id;
                next_id = next_id + 1;
                labels.set(i, Label::Cluster(k));
                expand_cluster(points, eps, min_pts, &mut labels, &mut visited, k, next_id, i, &nbrs);
            } else {
                proof {
                    assert(!is_core(points@, eps as int, min_pts as int, i as int));
                }
            }
        }
        i = i + 1;
    }
    proof {
        assert(ids_dense(labels@, next_id));
    }
    labels
}

/// Marking an unvisited point visited keeps the running state; if the point
/// is core, so does opening the next cluster with it as the first member.
proof fn lemma_outer_visit(
    points: Seq<Point>,
    eps: int,
    min_pts: int,
    labels: Seq<Label>,
    visited: Seq<bool>,
    next_id: usize,
    i: int,
)
    requires
        state_inv(points, eps, min_pts, labels, visited, next_id),
        0 <= i < points.len(),
        !visited[i],
        next_id < usize::MAX,
    ensures
        !is_core(points, eps, min_pts, i) ==> state_inv(
            points,
            eps,
            min_pts,
            labels,
            visited.update(i, true),
            next_id,
        ),
        is_core(points, eps, min_pts, i) ==> state_inv(
            points,
            eps,
            min_pts,
            labels.update(i, Label::Cluster(next_id)),
            visited.update(i, true),
            (next_id + 1) as usize,
        ),
{
    assert(labels[i] == Label::Noise) by {
        if labels[i] is Cluster {
            let k0 = labels[i]->Cluster_0;
            assert(labeled(labels, i, k0));
        }
    }
    let visited2 = visited.update(i, true);
    if !is_core(points, eps, min_pts, i) {
        assert(state_inv(points, eps, min_pts, labels, visited2, next_id));
    } else {
        let k = next_id;
        let labels2 = labels.update(i, Label::Cluster(k));
        let nid2 = (next_id + 1) as usize;
        assert forall|i2: int, k2: usize| #[trigger] labeled(labels2, i2, k2) implies visited2[i2]
            && k2 < nid2 by {
            if i2 != i {
                assert(labeled(labels, i2, k2));
            }
        }
        assert forall|k2: usize| k2 < nid2 implies #[trigger] id_used(labels2, k2) by {
            if k2 < next_id {
                assert(id_used(labels, k2));
                let w = choose|w: int| #[trigger] labeled(labels, w, k2);
                assert(w != i);
                assert(labeled(labels2, w, k2));
            } else {
                assert(labeled(labels2, i, k));
            }
        }
        assert forall|i2: int, k2: usize| #[trigger] labeled(labels2, i2, k2) implies is_core(
            points,
            eps,
            min_pts,
            i2,
        ) || exists|j: int|
            0 <= j < points.len() && is_core(points, eps, min_pts, j) && #[trigger] labeled(
                labels2,
                j,
                k2,
            ) && within(points, eps, j, i2) by {
            if i2 == i {
                assert(is_core(points, eps, min_pts, i2));
            } else {
                assert(labeled(labels, i2, k2));
                if !is_core(points, eps, min_pts, i2) {
                    let j = choose|j: int|
                        0 <= j < points.len() && is_core(points, eps, min_pts, j)
                            && #[trigger] labeled(labels, j, k2) && within(points, eps, j, i2);
                    assert(j != i);
                    assert(labeled(labels2, j, k2));
                }
            }
        }
        if eps == 0 {
            assert forall|a: int, b: int, k2: usize|
                #![trigger labeled(labels2, a, k2), labeled(labels2, b, k2)]
                labeled(labels2, a, k2) && labeled(labels2, b, k2) implies points[a]
                == points[b] by {
                if k2 == k {
                    assert(a == i && b == i) by {
                        if a != i {
                            assert(labeled(labels, a, k));
                        }
                        if b != i {
                            assert(labeled(labels, b, k));
                        }
                    }
                } else {
                    assert(a != i && b != i);
                    assert(labeled(labels, a, k2) && labeled(labels, b, k2));
                }
            }
        }
        assert(state_inv(points, eps, min_pts, labels2, visited2, nid2));
    }
}

/// Popping queue entry `q`, joining it to cluster `k` if it is unassigned,
/// and marking it visited keeps the running state. `c` is the core witness
/// the queue carries for `q`.
proof fn lemma_pop_preserves(
    points: Seq<Point>,
    eps: int,
    min_pts: int,
    labels: Seq<Label>,
    visited: Seq<bool>,
    next_id: usize,
    q: int,
    k: usize,
    c: int,
)
    requires
        state_inv(points, eps, min_pts, labels, visited, next_id),
        0 <= q < points.len(),
        k < next_id,
        0 <= c < points.len(),
        is_core(points, eps, min_pts, c),
        labeled(labels, c, k),
        within(points, eps, c, q),
    ensures
        labels[q] != Label::Noise ==> state_inv(
            points,
            eps,
            min_pts,
            labels,
            visited.update(q, true),
            next_id,
        ),
        labels[q] == Label::Noise ==> state_inv(
            points,
            eps,
            min_pts,
            labels.update(q, Label::Cluster(k)),
            visited.update(q, true),
            next_id,
        ),
        labels[q] == Label::Noise ==> forall|i: int, k2: usize|
            #[trigger] labeled(labels, i, k2) ==> labeled(labels.update(q, Label::Cluster(k)), i, k2),
{
    let visited2 = visited.update(q, true);
    if labels[q] != Label::Noise {
        assert((labels[q]) is Cluster);
        assert(state_inv(points, eps, min_pts, labels, visited2, next_id));
    } else {
        let labels2 = labels.update(q, Label::Cluster(k));
        assert(c != q);
        assert forall|i: int, k2: usize| #[trigger] labeled(labels, i, k2) implies labeled(
            labels2,
            i,
            k2,
        ) by {
            assert(i != q);
        }
        assert forall|i2: int, k2: usize| #[trigger] labeled(labels2, i2, k2) implies visited2[i2]
            && k2 < next_id by {
            if i2 != q {
                assert(labeled(labels, i2, k2));
            }
        }
        assert forall|k2: usize| k2 < next_id implies #[trigger] id_used(labels2, k2) by {
            assert(id_used(labels, k2));
            let w = choose|w: int| #[trigger] labeled(labels, w, k2);
            assert(labeled(labels2, w, k2));
        }
        assert forall|i2: int, k2: usize| #[trigger] labeled(labels2, i2, k2) implies is_core(
            points,
            eps,
            min_pts,
            i2,
        ) || exists|j: int|
            0 <= j < points.len() && is_core(points, eps, min_pts, j) && #[trigger] labeled(
                labels2,
                j,
                k2,
            ) && within(points, eps, j, i2) by {
            if i2 == q && k2 == k {
                assert(labeled(labels2, c, k));
                assert(
                    0 <= c < points.len() && is_core(points, eps, min_pts, c) && labeled(
                        labels2,
                        c,
                        k,
                    ) && within(points, eps, c, q));
            } else {
                assert(labeled(labels, i2, k2));
                if !is_core(points, eps, min_pts, i2) {
                    let j = choose|j: int|
                        0 <= j < points.len() && is_core(points, eps, min_pts, j)
                            && #[trigger] labeled(labels, j, k2) && within(points, eps, j, i2);
                    assert(labeled(labels2, j, k2));
                }
            }
        }
        if eps == 0 {
            assert(points[q] == points[c]) by {
                lemma_dist_zero_iff_eq(points[c], points[q]);
            }
            assert forall|a: int, b: int, k2: usize|
                #![trigger labeled(labels2, a, k2), labeled(labels2, b, k2)]
                labeled(labels2, a, k2) && labeled(labels2, b, k2) implies points[a]
                == points[b] by {
                if a == q && b == q {
                } else if a == q {
                    assert(k2 == k && labeled(labels, b, k2));
                    assert(labeled(labels, c, k) && labeled(labels, b, k));
                    assert(points[b] == points[c]);
                } else if b == q {
                    assert(k2 == k && labeled(labels, a, k2));
                    assert(labeled(labels, c, k) && labeled(labels, a, k));
                    assert(points[a] == points[c]);
                } else {
                    assert(labeled(labels, a, k2) && labeled(labels, b, k2));
                }
            }
        }
        assert(state_inv(points, eps, min_pts, labels2, visited2, next_id));
    }
}

/// Grows cluster `k` from core point `seed` by first-in-first-out expansion
/// of neighborhoods: every popped point joins `k` unless another cluster
/// already owns it, and every popped core point enqueues its own neighbors.
#[verifier::loop_isolation(false)]
fn expand_cluster(
    points: &Vec<Point>,
    eps: i64,
    min_pts: usize,
    labels: &mut Vec<Label>,
    visited: &mut Vec<bool>,
    k: usize,
    next_id: usize,
    seed: usize,
    nbrs: &Vec<usize>,
)
    requires
        eps >= 0,
        min_pts >= 1,
        all_valid(points@),
        seed < points@.len(),
        k < next_id,
        state_inv(points@, eps as int, min_pts as int, old(labels)@, old(visited)@, next_id),
        labeled(old(labels)@, seed as int, k),
        is_core(points@, eps as int, min_pts as int, seed as int),
        old(visited)@[seed as int],
        nbrs@.len() == count_within(points@, eps as int, seed as int, points@.len() as int),
        forall|t: int|
            0 <= t < nbrs@.len() ==> (#[trigger] nbrs@[t]) < points@.len() && within(
                points@,
                eps as int,
                seed as int,
                nbrs@[t] as int,
            ),
    ensures
        state_inv(points@, eps as int, min_pts as int, final(labels)@, final(visited)@, next_id),
        forall|m: int| 0 <= m < points@.len() && old(visited)@[m] ==> final(visited)@[m],
        final(visited)@.len() == old(visited)@.len(),
        final(labels)@.len() == old(labels)@.len(),
{
    let n = points.len();
    let mut seen: Vec<bool> = Vec::new();
    let mut idx: usize = 0;
    while idx < n
        invariant
            idx <= n,
            seen@.len() == idx,
            forall|m: int| 0 <= m < idx ==> !(#[trigger] seen@[m]),
            count_true(seen@, idx as int) == 0,
        decreases n - idx,
    {
        proof {
            lemma_count_true_prefix(seen@.push(false), seen@, idx as int);
        }
        seen.push(false);
        idx = idx + 1;
    }
    proof {
        lemma_count_true_update(seen@, seed as int, true, n as int);
        lemma_count_true_bounds(seen@, n as int);
    }
    seen.set(seed, true);
    let mut queue: Vec<usize> = Vec::new();
    let mut head: usize = 0;
    let mut t: usize = 0;
    while t < nbrs.len()
        invariant
            t <= nbrs@.len(),
            seen@.len() == n,
            queue_ok(points@, eps as int, min_pts as int, labels@, k, queue@, 0),
            forall|u: int|
                0 <= u < queue@.len() ==> (#[trigger] queue@[u]) < n && seen@[queue@[u] as int],
            count_true(seen@, n as int) == queue@.len() + 1,
            seen@[seed as int],
        decreases nbrs@.len() - t,
    {
        let j = nbrs[t];
        if !seen[j] {
            proof {
                lemma_count_true_update(seen@, j as int, true, n as int);
            }
            seen.set(j, true);
            queue.push(j);
            proof {
                assert(labeled(labels@, seed as int, k));
                assert(within(points@, eps as int, seed as int, j as int));
            }
        }
        t = t + 1;
    }
    proof {
        lemma_count_true_bounds(seen@, n as int);
    }
    while head < queue.len()
        invariant
            head <= queue@.len(),
            seen@.len() == n,
            state_inv(points@, eps as int, min_pts as int, labels@, visited@, next_id),
            queue_ok(points@, eps as int, min_pts as int, labels@, k, queue@, head as int),
            forall|u: int|
                0 <= u < queue@.len() ==> (#[trigger] queue@[u]) < n && seen@[queue@[u] as int],
            count_true(seen@, n as int) <= n,
            queue@.len() <= count_true(seen@, n as int),
            forall|m: int| 0 <= m < n && old(visited)@[m] ==> visited@[m],
        decreases n - count_true(seen@, n as int), queue@.len() - head,
    {
        let q = queue[head];
        head = head + 1;
        let ghost labels_at_pop = labels@;
        let ghost cw = choose|c: int|
            0 <= c < points@.len() && is_core(points@, eps as int, min_pts as int, c) && labeled(
                labels@,
                c,
                k,
            ) && within(points@, eps as int, c, q as int);
        proof {
            lemma_pop_preserves(
                points@,
                eps as int,
                min_pts as int,
                labels@,
                visited@,
                next_id,
                q as int,
                k,
                cw,
            );
        }
        let was_visited = visited[q];
        let was_noise = labels[q] == Label::Noise;
        visited.set(q, true);
        if was_noise {
            labels.set(q, Label::Cluster(k));
        }
        proof {
            assert(state_inv(points@, eps as int, min_pts as int, labels@, visited@, next_id));
            assert forall|u: int| head <= u < queue@.len() implies (#[trigger] queue@[u])
                < points@.len() && exists|c: int|
                0 <= c < points@.len() && is_core(points@, eps as int, min_pts as int, c)
                    && labeled(labels@, c, k) && within(
                    points@,
                    eps as int,
                    c,
                    queue@[u] as int,
                ) by {
                let c = choose|c: int|
                    0 <= c < points@.len() && is_core(points@, eps as int, min_pts as int, c)
                        && labeled(labels_at_pop, c, k) && within(
                        points@,
                        eps as int,
                        c,
                        queue@[u] as int,
                    );
                assert(labeled(labels@, c, k));
            }
        }
        if !was_visited {
            proof {
                assert(was_noise) by {
                    if labels_at_pop[q as int] is Cluster {
                        let k0 = labels_at_pop[q as int]->Cluster_0;
                        assert(labeled(labels_at_pop, q as int, k0));
                    }
                }
                assert(labeled(labels@, q as int, k));
            }
            let nq = range_query(points, q, eps);
            if nq.len() >= min_pts {
                proof {
                    assert(is_core(points@, eps as int, min_pts as int, q as int));
                }
                let ghost c0 = count_true(seen@, n as int);
                let ghost q0 = queue@.len();
                let mut t2: usize = 0;
                while t2 < nq.len()
                    invariant
                        t2 <= nq@.len(),
                        seen@.len() == n,
                        queue_ok(
                            points@,
                            eps as int,
                            min_pts as int,
                            labels@,
                            k,
                            queue@,
                            head as int,
                        ),
                        forall|u: int|
                            0 <= u < queue@.len() ==> (#[trigger] queue@[u]) < n
                                && seen@[queue@[u] as int],
                        count_true(seen@, n as int) - c0 == queue@.len() - q0,
                        queue@.len() >= q0,
                        count_true(seen@, n as int) <= n,
                        queue@.len() <= count_true(seen@, n as int),
                        head <= q0,
                    decreases nq@.len() - t2,
                {
                    let j = nq[t2];
                    if !seen[j] {
                        proof {
                            lemma_count_true_update(seen@, j as int, true, n as int);
                            lemma_count_true_bounds(seen@.update(j as int, true), n as int);
                        }
                        seen.set(j, true);
                        queue.push(j);
                        proof {
                            assert(labeled(labels@, q as int, k));
                            assert(within(points@, eps as int, q as int, j as int));
                        }
                    }
                    t2 = t2 + 1;
                }
            }
        }
    }
}

} // verus!
