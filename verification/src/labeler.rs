//! Extraction of a flat labeling from the ordering: walking the ordering, a
//! point whose reachability exceeds the threshold opens a new cluster when
//! its core-distance is within the threshold and is noise otherwise; every
//! other point joins the cluster currently open. Identifiers are assigned
//! densely in discovery order, so the result needs no renumbering.

use vstd::prelude::*;

use crate::labels::Label;
use crate::optics::{OpticsEntry, appears};

verus! {

/// The entry's reachability is infinite or beyond the threshold: it cannot
/// join the cluster open before it.
pub open spec fn reach_above(e: OpticsEntry, thr: int) -> bool {
    e.reach_sq matches Some(d) ==> d > thr * thr
}

/// The entry's core-distance is within the threshold: it can open a cluster.
pub open spec fn core_within(e: OpticsEntry, thr: int) -> bool {
    e.core_sq matches Some(c) && c <= thr * thr
}

/// The entry opens a new cluster in the walk.
pub open spec fn starts_new(e: OpticsEntry, thr: int) -> bool {
    reach_above(e, thr) && core_within(e, thr)
}

/// How many of the first `t` entries open a cluster.
pub open spec fn num_starts(entries: Seq<OpticsEntry>, thr: int, t: int) -> int
    decreases t,
{
    if t <= 0 {
        0
    } else {
        num_starts(entries, thr, t - 1) + if starts_new(entries[t - 1], thr) {
            1int
        } else {
            0int
        }
    }
}

pub proof fn lemma_num_starts_bounds(entries: Seq<OpticsEntry>, thr: int, t: int)
    ensures
        0 <= num_starts(entries, thr, t),
        t >= 0 ==> num_starts(entries, thr, t) <= t,
    decreases t,
{
    if t > 0 {
        lemma_num_starts_bounds(entries, thr, t - 1);
    }
}

/// What the walk assigns to the point of entry `t`: a fresh identifier when
/// it opens a cluster, noise when nothing dense is open for it, and the
/// identifier of the open cluster otherwise.
pub open spec fn extract_entry_ok(
    entries: Seq<OpticsEntry>,
    thr: int,
    t: int,
    labels: Seq<Label>,
) -> bool {
    &&& (starts_new(entries[t], thr) ==> labels[entries[t].index as int] == Label::Cluster(
        num_starts(entries, thr, t) as usize,
    ))
    &&& (reach_above(entries[t], thr) && !core_within(entries[t], thr) ==> labels[entries[t].index as int]
        == Label::Noise)
    &&& (!reach_above(entries[t], thr) ==> (if num_starts(entries, thr, t) > 0 {
        labels[entries[t].index as int] == Label::Cluster((num_starts(entries, thr, t) - 1) as usize)
    } else {
        labels[entries[t].index as int] == Label::Noise
    }))
}

/// Everything extraction promises: each listed point is labeled exactly as
/// the walk dictates, and a point the ordering does not list is noise.
pub open spec fn extract_post(
    entries: Seq<OpticsEntry>,
    thr: int,
    n: int,
    labels: Seq<Label>,
) -> bool {
    &&& labels.len() == n
    &&& (forall|t: int| 0 <= t < entries.len() ==> #[trigger] extract_entry_ok(entries, thr, t, labels))
    &&& (forall|i: int| 0 <= i < n && !appears(entries, i) ==> labels[i] == Label::Noise)
}

/// Derives the flat cluster labeling from an ordering at the given threshold.
/// `n` is the number of points the entries index into.
#[verifier::loop_isolation(false)]
pub fn extract_clusters(entries: &Vec<OpticsEntry>, thr: i64, n: usize) -> (labels: Vec<Label>)
    requires
        thr >= 0,
        forall|t: int| 0 <= t < entries@.len() ==> (#[trigger] entries@[t]).index < n,
        forall|t1: int, t2: int|
            0 <= t1 < t2 < entries@.len() ==> entries@[t1].index != entries@[t2].index,
    ensures
        extract_post(entries@, thr as int, n as int, labels@),
{
    proof {
        assert((thr as u128) * (thr as u128) <= u128::MAX) by (nonlinear_arith)
            requires 0 <= (thr as u128) < 0x1_0000_0000_0000_0000;
        assert((thr as u128) * (thr as u128) == thr * thr) by (nonlinear_arith)
            requires thr >= 0;
    }
    let thr_sq: u128 = (thr as u128) * (thr as u128);
    let mut labels: Vec<Label> = Vec::new();
    let mut idx: usize = 0;
    while idx < n
        invariant
            idx <= n,
            labels@.len() == idx,
            forall|m: int| 0 <= m < idx ==> labels@[m] == Label::Noise,
        decreases n - idx,
    {
        labels.push(Label::Noise);
        idx = idx + 1;
    }
    let mut started: usize = 0;
    let mut t: usize = 0;
    while t < entries.len()
        invariant
            t <= entries@.len(),
            labels@.len() == n,
            started == num_starts(entries@, thr as int, t as int),
            started <= t,
            forall|s: int|
                0 <= s < t ==> #[trigger] extract_entry_ok(entries@, thr as int, s, labels@),
            forall|i: int|
                0 <= i < n && labels@[i] != Label::Noise ==> exists|s: int|
                    0 <= s < t && (#[trigger] entries@[s]).index == i,
        decreases entries@.len() - t,
    {
        proof {
            lemma_num_starts_bounds(entries@, thr as int, t as int);
        }
        let e = entries[t];
        let ghost labels_before = labels@;
        let ra = match e.reach_sq {
            None => true,
            Some(d) => (d as u128) > thr_sq,
        };
        let cw = match e.core_sq {
            None => false,
            Some(c) => (c as u128) <= thr_sq,
        };
        proof {
            assert(ra == reach_above(entries@[t as int], thr as int));
            assert(cw == core_within(entries@[t as int], thr as int));
        }
        if ra {
            if cw {
                labels.set(e.index, Label::Cluster(started));
                started = started + 1;
            } else {
                labels.set(e.index, Label::Noise);
            }
        } else {
            if started > 0 {
                labels.set(e.index, Label::Cluster(started - 1));
            } else {
                labels.set(e.index, Label::Noise);
            }
        }
        proof {
            assert forall|s: int|
                0 <= s < t + 1 implies #[trigger] extract_entry_ok(
                entries@,
                thr as int,
                s,
                labels@,
            ) by {
                if s < t {
                    assert(extract_entry_ok(entries@, thr as int, s, labels_before));
                    assert(entries@[s].index != entries@[t as int].index);
                    assert(labels@[entries@[s].index as int]
                        == labels_before[entries@[s].index as int]);
                } else {
                    let e_t = entries@[t as int];
                    assert(num_starts(entries@, thr as int, t as int) <= t);
                    if starts_new(e_t, thr as int) {
                        assert(labels@[e_t.index as int] == Label::Cluster(
                            num_starts(entries@, thr as int, t as int) as usize,
                        ));
                    } else if reach_above(e_t, thr as int) {
                        assert(labels@[e_t.index as int] == Label::Noise);
                    } else if num_starts(entries@, thr as int, t as int) > 0 {
                        assert(labels@[e_t.index as int] == Label::Cluster(
                            (num_starts(entries@, thr as int, t as int) - 1) as usize,
                        ));
                    } else {
                        assert(labels@[e_t.index as int] == Label::Noise);
                    }
                }
            }
        }
        t = t + 1;
    }
    proof {
        assert forall|i: int| 0 <= i < n && !appears(entries@, i) implies labels@[i]
            == Label::Noise by {
            if labels@[i] != Label::Noise {
                let s = choose|s: int|
                    0 <= s < entries@.len() && (#[trigger] entries@[s]).index == i;
                assert(appears(entries@, i));
            }
        }
    }
    labels
}

} // verus!
