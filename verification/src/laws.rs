//! The engine-spanning guarantees, each proved once and for all from the
//! contracts of the engines: they are part of the library's public word.

use vstd::prelude::*;

use crate::dbscan::dbscan_post;
use crate::labeler::{extract_entry_ok, extract_post, num_starts, reach_above, starts_new};
use crate::labels::{Label, labeled};
use crate::neighbors::{is_core, lemma_min_pts_one_all_core, within};
use crate::optics::{OpticsEntry, appears, optics_post};
use crate::point::Point;
use crate::relabel::{is_first_occurrence, new_ids_before, relabel_post};

verus! {

/// With a minimum neighborhood size of one, every point is its own core
/// point, so no point is ever noise: each is a singleton cluster or merges
/// with whatever lies within the radius.
pub proof fn lemma_min_pts_one_no_noise(points: Seq<Point>, eps: int, labels: Seq<Label>)
    requires
        eps >= 0,
        dbscan_post(points, eps, 1, labels),
    ensures
        forall|i: int| 0 <= i < points.len() ==> (#[trigger] labels[i]) is Cluster,
{
    assert forall|i: int| 0 <= i < points.len() implies (#[trigger] labels[i]) is Cluster by {
        lemma_min_pts_one_all_core(points, eps, i);
    }
}

/// A point that is not core and has no core point within the radius is
/// always labeled noise: nothing can claim it, so in particular a point with
/// fewer than `min_pts - 1` other points near it and out of every core
/// point's reach stays noise.
pub proof fn lemma_isolated_point_is_noise(
    points: Seq<Point>,
    eps: int,
    min_pts: int,
    labels: Seq<Label>,
    i: int,
)
    requires
        dbscan_post(points, eps, min_pts, labels),
        0 <= i < points.len(),
        !is_core(points, eps, min_pts, i),
        forall|j: int|
            0 <= j < points.len() && #[trigger] is_core(points, eps, min_pts, j) ==> !within(
                points,
                eps,
                j,
                i,
            ),
    ensures
        labels[i] == Label::Noise,
{
    if labels[i] is Cluster {
        let k = labels[i]->Cluster_0;
        assert(labeled(labels, i, k));
        assert(!is_core(points, eps, min_pts, i));
        let j = choose|j: int|
            0 <= j < points.len() && is_core(points, eps, min_pts, j) && #[trigger] labeled(
                labels,
                j,
                k,
            ) && within(points, eps, j, i);
        assert(!within(points, eps, j, i));
        assert(false);
    }
}

/// With a zero radius, two points of one cluster are exactly coincident.
pub proof fn lemma_zero_radius_groups_coincident(
    points: Seq<Point>,
    min_pts: int,
    labels: Seq<Label>,
    i: int,
    j: int,
    k: usize,
)
    requires
        dbscan_post(points, 0, min_pts, labels),
        labeled(labels, i, k),
        labeled(labels, j, k),
    ensures
        points[i] == points[j],
{
}

/// Every finite core-distance the ordering engine reports is at most the
/// squared query radius.
pub proof fn lemma_optics_core_distance_bounded(
    points: Seq<Point>,
    eps: int,
    min_pts: int,
    out: Seq<OpticsEntry>,
    t: int,
    d: u64,
)
    requires
        optics_post(points, eps, min_pts, out),
        0 <= t < out.len(),
        out[t].core_sq == Some(d),
    ensures
        d <= eps * eps,
{
}

/// Extraction is a function of the ordering and the threshold alone: any two
/// labelings that satisfy its contract on the same ordering are equal, so
/// repeated runs give byte-identical labels.
pub proof fn lemma_extraction_deterministic(
    entries: Seq<OpticsEntry>,
    thr: int,
    n: int,
    l1: Seq<Label>,
    l2: Seq<Label>,
)
    requires
        n >= 0,
        forall|t: int| 0 <= t < entries.len() ==> (#[trigger] entries[t]).index < n,
        forall|t1: int, t2: int|
            0 <= t1 < t2 < entries.len() ==> entries[t1].index != entries[t2].index,
        extract_post(entries, thr, n, l1),
        extract_post(entries, thr, n, l2),
    ensures
        l1 == l2,
{
    assert forall|i: int| 0 <= i < n implies l1[i] == l2[i] by {
        if appears(entries, i) {
            let t = choose|t: int| 0 <= t < entries.len() && (#[trigger] entries[t]).index == i;
            assert(extract_entry_ok(entries, thr, t, l1));
            assert(extract_entry_ok(entries, thr, t, l2));
            if starts_new(entries[t], thr) {
                assert(l1[i] == Label::Cluster(num_starts(entries, thr, t) as usize));
                assert(l2[i] == Label::Cluster(num_starts(entries, thr, t) as usize));
            }
        } else {
            assert(l1[i] == Label::Noise);
            assert(l2[i] == Label::Noise);
        }
    }
    assert(l1 =~= l2);
}

/// Value `v` stands somewhere in the sequence.
pub open spec fn seq_contains(r: Seq<usize>, v: usize) -> bool {
    exists|t: int| 0 <= t < r.len() && r[t] == v
}

/// Two strictly ascending sequences with the same members are equal.
proof fn lemma_sorted_same_members_eq(r1: Seq<usize>, r2: Seq<usize>)
    requires
        forall|t1: int, t2: int| 0 <= t1 < t2 < r1.len() ==> r1[t1] < r1[t2],
        forall|t1: int, t2: int| 0 <= t1 < t2 < r2.len() ==> r2[t1] < r2[t2],
        forall|v: usize| seq_contains(r1, v) <==> #[trigger] seq_contains(r2, v),
    ensures
        r1 == r2,
    decreases r1.len(),
{
    if r1.len() == 0 {
        if r2.len() > 0 {
            assert(seq_contains(r2, r2[0]));
            assert(seq_contains(r1, r2[0]));
            let t = choose|t: int| 0 <= t < r1.len() && r1[t] == r2[0];
            assert(false);
        }
        assert(r1 =~= r2);
    } else if r2.len() == 0 {
        assert(seq_contains(r1, r1[0]));
        assert(seq_contains(r2, r1[0]));
        let t = choose|t: int| 0 <= t < r2.len() && r2[t] == r1[0];
        assert(false);
    } else {
        assert(seq_contains(r1, r1[0]));
        assert(seq_contains(r2, r2[0]));
        assert(seq_contains(r2, r1[0]));
        assert(seq_contains(r1, r2[0]));
        let ta = choose|t: int| 0 <= t < r2.len() && r2[t] == r1[0];
        let tb = choose|t: int| 0 <= t < r1.len() && r1[t] == r2[0];
        assert(r2[0] <= r2[ta]);
        assert(r1[0] <= r1[tb]);
        assert(r1[0] == r2[0]);
        let s1 = r1.subrange(1, r1.len() as int);
        let s2 = r2.subrange(1, r2.len() as int);
        assert forall|v: usize| seq_contains(s1, v) implies #[trigger] seq_contains(s2, v) by {
            let u = choose|u: int| 0 <= u < s1.len() && s1[u] == v;
            assert(r1[u + 1] == v);
            assert(seq_contains(r1, v));
            assert(seq_contains(r2, v));
            let t = choose|t: int| 0 <= t < r2.len() && r2[t] == v;
            assert(r1[0] < v);
            assert(t != 0);
            assert(s2[t - 1] == v);
        }
        assert forall|v: usize| seq_contains(s2, v) implies #[trigger] seq_contains(s1, v) by {
            let u = choose|u: int| 0 <= u < s2.len() && s2[u] == v;
            assert(r2[u + 1] == v);
            assert(seq_contains(r2, v));
            assert(seq_contains(r1, v));
            let t = choose|t: int| 0 <= t < r1.len() && r1[t] == v;
            assert(r2[0] < v);
            assert(t != 0);
            assert(s1[t - 1] == v);
        }
        lemma_sorted_same_members_eq(s1, s2);
        assert(r1.len() == r2.len());
        assert forall|t: int| 0 <= t < r1.len() implies r1[t] == r2[t] by {
            if t > 0 {
                assert(s1[t - 1] == r1[t]);
                assert(s2[t - 1] == r2[t]);
            }
        }
        assert(r1 =~= r2);
    }
}

/// The neighbor query's answer is a function of the point set, the point and
/// the radius alone: any two answers that satisfy its contract are equal,
/// whatever structure backs the index.
pub proof fn lemma_range_query_deterministic(
    points: Seq<Point>,
    eps: int,
    i: int,
    r1: Seq<usize>,
    r2: Seq<usize>,
)
    requires
        forall|t: int|
            0 <= t < r1.len() ==> (#[trigger] r1[t]) < points.len() && within(
                points,
                eps,
                i,
                r1[t] as int,
            ),
        forall|t1: int, t2: int| 0 <= t1 < t2 < r1.len() ==> r1[t1] < r1[t2],
        forall|j2: int|
            0 <= j2 < points.len() && #[trigger] within(points, eps, i, j2) ==> exists|t: int|
                0 <= t < r1.len() && r1[t] == j2,
        forall|t: int|
            0 <= t < r2.len() ==> (#[trigger] r2[t]) < points.len() && within(
                points,
                eps,
                i,
                r2[t] as int,
            ),
        forall|t1: int, t2: int| 0 <= t1 < t2 < r2.len() ==> r2[t1] < r2[t2],
        forall|j2: int|
            0 <= j2 < points.len() && #[trigger] within(points, eps, i, j2) ==> exists|t: int|
                0 <= t < r2.len() && r2[t] == j2,
    ensures
        r1 == r2,
{
    assert forall|v: usize| seq_contains(r1, v) implies #[trigger] seq_contains(r2, v) by {
        let t = choose|t: int| 0 <= t < r1.len() && r1[t] == v;
        assert(within(points, eps, i, v as int));
        let t2 = choose|t2: int| 0 <= t2 < r2.len() && r2[t2] == v as int;
        assert(r2[t2] == v);
    }
    assert forall|v: usize| seq_contains(r2, v) implies seq_contains(r1, v) by {
        let t = choose|t: int| 0 <= t < r2.len() && r2[t] == v;
        assert(within(points, eps, i, v as int));
        let t2 = choose|t2: int| 0 <= t2 < r1.len() && r1[t2] == v as int;
        assert(r1[t2] == v);
    }
    lemma_sorted_same_members_eq(r1, r2);
}

/// A place carrying a cluster identifier is preceded (or met) by that
/// identifier's first occurrence.
proof fn lemma_first_occurrence_exists(labels: Seq<Label>, k: usize, i: int)
    requires
        0 <= i < labels.len(),
        labels[i] == Label::Cluster(k),
    ensures
        exists|f: int|
            0 <= f <= i && labels[f] == Label::Cluster(k) && #[trigger] is_first_occurrence(
                labels,
                f,
            ),
    decreases i,
{
    if crate::relabel::id_in_prefix(labels, k, i) {
        let s = choose|s: int| 0 <= s < i && labels[s] == Label::Cluster(k);
        lemma_first_occurrence_exists(labels, k, s);
    } else {
        assert(is_first_occurrence(labels, i));
    }
}

/// Renumbering is a function of the labeling alone: any two results that
/// satisfy its contract on the same labeling are equal, so repeated runs
/// give byte-identical labels.
pub proof fn lemma_relabel_deterministic(labels: Seq<Label>, r1: Seq<Label>, r2: Seq<Label>)
    requires
        relabel_post(labels, r1),
        relabel_post(labels, r2),
    ensures
        r1 == r2,
{
    assert forall|i: int| 0 <= i < labels.len() implies r1[i] == r2[i] by {
        if labels[i] is Cluster {
            let k = labels[i]->Cluster_0;
            lemma_first_occurrence_exists(labels, k, i);
            let f = choose|f: int|
                0 <= f <= i && labels[f] == Label::Cluster(k) && #[trigger] is_first_occurrence(
                    labels,
                    f,
                );
            assert(r1[f] == Label::Cluster(new_ids_before(labels, f) as usize));
            assert(r2[f] == Label::Cluster(new_ids_before(labels, f) as usize));
            assert(labels[i] == labels[f]);
            assert(r1[i] == r1[f] && r2[i] == r2[f]);
        } else {
            assert(r1[i] is Noise && r2[i] is Noise);
        }
    }
    assert(r1 =~= r2);
}

} // verus!
