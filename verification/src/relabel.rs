//! Dense renumbering of a labeling: cluster identifiers are replaced by
//! consecutive numbers from zero in order of first appearance, points are
//! never reordered, and noise stays noise. On the labelings the engines of
//! this library emit, whose identifiers are dense already, this is the
//! identity; it makes any labeling dense.

use vstd::prelude::*;

use crate::labels::{Label, labeled};

verus! {

/// Identifier `k` is carried somewhere in the first `t` places.
pub open spec fn id_in_prefix(labels: Seq<Label>, k: usize, t: int) -> bool {
    exists|s: int| 0 <= s < t && labels[s] == Label::Cluster(k)
}

/// Place `s` carries an identifier that no earlier place carries.
pub open spec fn is_first_occurrence(labels: Seq<Label>, s: int) -> bool {
    labels[s] is Cluster && !id_in_prefix(labels, labels[s]->Cluster_0, s)
}

/// How many distinct identifiers appear in the first `t` places.
pub open spec fn new_ids_before(labels: Seq<Label>, t: int) -> int
    decreases t,
{
    if t <= 0 {
        0
    } else {
        new_ids_before(labels, t - 1) + if is_first_occurrence(labels, t - 1) {
            1int
        } else {
            0int
        }
    }
}

pub proof fn lemma_new_ids_bounds(labels: Seq<Label>, t: int)
    ensures
        0 <= new_ids_before(labels, t),
        t >= 0 ==> new_ids_before(labels, t) <= t,
    decreases t,
{
    if t > 0 {
        lemma_new_ids_bounds(labels, t - 1);
    }
}

/// Place `s` was renumbered through the table: some table place `u` holds
/// its old identifier, and its new label is `u`.
spec fn renumbered(table: Seq<usize>, labels: Seq<Label>, r: Seq<Label>, s: int) -> bool {
    exists|u: int|
        0 <= u < table.len() && table[u] == labels[s]->Cluster_0 && r[s] == Label::Cluster(
            #[verifier::truncate] (u as usize),
        )
}

/// Everything renumbering promises: same length, noise exactly where noise
/// was, the first place of each identifier gets the next free number, equal
/// identifiers go to equal numbers, and the new identifiers stay below the
/// number of distinct old ones.
pub open spec fn relabel_post(labels: Seq<Label>, r: Seq<Label>) -> bool {
    &&& r.len() == labels.len()
    &&& (forall|i: int|
        0 <= i < labels.len() ==> ((#[trigger] labels[i]) is Noise <==> r[i] is Noise))
    &&& (forall|i: int|
        0 <= i < labels.len() && #[trigger] is_first_occurrence(labels, i) ==> r[i]
            == Label::Cluster(new_ids_before(labels, i) as usize))
    &&& (forall|i: int, j: int|
        #![trigger labels[i], labels[j]]
        0 <= i < labels.len() && 0 <= j < labels.len() && labels[i] == labels[j] ==> r[i] == r[j])
    &&& (forall|i: int, k: usize|
        #[trigger] labeled(r, i, k) ==> k < new_ids_before(labels, labels.len() as int))
}

/// Renumbers cluster identifiers densely from zero in order of first
/// appearance, preserving positions and noise.
#[verifier::loop_isolation(false)]
#[verifier::rlimit(100)]
pub fn relabel_dense(labels: &Vec<Label>) -> (r: Vec<Label>)
    ensures
        relabel_post(labels@, r@),
{
    let n = labels.len();
    let mut r: Vec<Label> = Vec::new();
    // place u of the table holds the old identifier renumbered to u
    let mut table: Vec<usize> = Vec::new();
    let mut i: usize = 0;
    while i < n
        invariant
            i <= n,
            r@.len() == i,
            table@.len() == new_ids_before(labels@, i as int),
            forall|u1: int, u2: int| 0 <= u1 < u2 < table@.len() ==> table@[u1] != table@[u2],
            forall|u: int|
                0 <= u < table@.len() ==> exists|s: int|
                    0 <= s < i && labels@[s] == Label::Cluster(#[trigger] table@[u]),
            forall|s: int|
                0 <= s < i ==> ((#[trigger] labels@[s]) is Noise <==> r@[s] is Noise),
            forall|s: int|
                0 <= s < i && (#[trigger] labels@[s]) is Cluster ==> renumbered(
                    table@,
                    labels@,
                    r@,
                    s,
                ),
            forall|s: int|
                0 <= s < i && #[trigger] is_first_occurrence(labels@, s) ==> r@[s]
                    == Label::Cluster(new_ids_before(labels@, s) as usize),
        decreases n - i,
    {
        proof {
            lemma_new_ids_bounds(labels@, i as int);
        }
        let l = labels[i];
        let ghost r0 = r@;
        let ghost table0 = table@;
        match l {
            Label::Noise => {
                r.push(Label::Noise);
                proof {
                    lemma_renumbered_carries(table0, table@, labels@, r0, r@, i as int);
                }
            },
            Label::Cluster(k) => {
                let mut u: usize = 0;
                while u < table.len() && table[u] != k
                    invariant
                        u <= table@.len(),
                        forall|v: int| 0 <= v < u ==> table@[v] != k,
                    decreases table@.len() - u,
                {
                    u = u + 1;
                }
                let found = u;
                if found < table.len() {
                    r.push(Label::Cluster(found));
                    proof {
                        assert(!is_first_occurrence(labels@, i as int)) by {
                            let s = choose|s: int|
                                0 <= s < i && labels@[s] == Label::Cluster(table@[found as int]);
                            assert(id_in_prefix(labels@, k, i as int));
                        }
                        lemma_renumbered_carries(table0, table@, labels@, r0, r@, i as int);
                        assert(renumbered(table@, labels@, r@, i as int)) by {
                            assert(0 <= found < table@.len() && table@[found as int]
                                == labels@[i as int]->Cluster_0 && r@[i as int] == Label::Cluster(
                                found,
                            ));
                        }
                    }
                } else {
                    proof {
                        assert(is_first_occurrence(labels@, i as int)) by {
                            if id_in_prefix(labels@, k, i as int) {
                                let s = choose|s: int|
                                    0 <= s < i && labels@[s] == Label::Cluster(k);
                                assert(labels@[s] is Cluster);
                                assert(renumbered(table@, labels@, r@, s));
                                let w = choose|u2: int|
                                    0 <= u2 < table@.len() && table@[u2] == labels@[s]->Cluster_0
                                        && r@[s] == Label::Cluster(
                                        #[verifier::truncate] (u2 as usize),
                                    );
                                assert(table@[w] == k);
                            }
                        }
                    }
                    let fresh = table.len();
                    r.push(Label::Cluster(fresh));
                    table.push(k);
                    proof {
                        lemma_renumbered_carries(table0, table@, labels@, r0, r@, i as int);
                        assert(renumbered(table@, labels@, r@, i as int)) by {
                            assert(table@[fresh as int] == labels@[i as int]->Cluster_0
                                && r@[i as int] == Label::Cluster(fresh));
                        }
                        assert forall|u2: int| 0 <= u2 < table@.len() implies exists|s: int|
                            0 <= s < i + 1 && labels@[s] == Label::Cluster(
                            #[trigger] table@[u2],
                        ) by {
                            if u2 == fresh {
                                assert(labels@[i as int] == Label::Cluster(table@[u2]));
                            } else {
                                let s0 = choose|s: int|
                                    0 <= s < i && labels@[s] == Label::Cluster(table0[u2]);
                                assert(labels@[s0] == Label::Cluster(table@[u2]));
                            }
                        }
                    }
                }
            },
        }
        i = i + 1;
    }
    proof {
        assert forall|i2: int, j2: int|
            #![trigger labels@[i2], labels@[j2]]
            0 <= i2 < labels@.len() && 0 <= j2 < labels@.len() && labels@[i2]
                == labels@[j2] implies r@[i2] == r@[j2] by {
            if labels@[i2] is Cluster {
                assert(renumbered(table@, labels@, r@, i2));
                assert(renumbered(table@, labels@, r@, j2));
                let u1 = choose|u: int|
                    0 <= u < table@.len() && table@[u] == labels@[i2]->Cluster_0 && r@[i2]
                        == Label::Cluster(#[verifier::truncate] (u as usize));
                let u2 = choose|u: int|
                    0 <= u < table@.len() && table@[u] == labels@[j2]->Cluster_0 && r@[j2]
                        == Label::Cluster(#[verifier::truncate] (u as usize));
                if u1 != u2 {
                    assert(table@[u1] != table@[u2]);
                }
            }
        }
        assert forall|i2: int, k: usize| #[trigger] labeled(r@, i2, k) implies k < new_ids_before(
            labels@,
            labels@.len() as int,
        ) by {
            assert(labels@[i2] is Cluster);
            assert(renumbered(table@, labels@, r@, i2));
            let u = choose|u: int|
                0 <= u < table@.len() && table@[u] == labels@[i2]->Cluster_0 && r@[i2]
                    == Label::Cluster(#[verifier::truncate] (u as usize));
        }
    }
    r
}

/// A place renumbered through the old table and labeling stays renumbered
/// after the table grows and a new place is appended to the output.
proof fn lemma_renumbered_carries(
    table0: Seq<usize>,
    table: Seq<usize>,
    labels: Seq<Label>,
    r0: Seq<Label>,
    r: Seq<Label>,
    i: int,
)
    requires
        table0.len() <= table.len(),
        forall|u: int| 0 <= u < table0.len() ==> table0[u] == table[u],
        r0.len() == i,
        r.len() == i + 1,
        forall|s: int| 0 <= s < i ==> r0[s] == r[s],
        forall|s: int|
            0 <= s < i && (#[trigger] labels[s]) is Cluster ==> renumbered(table0, labels, r0, s),
    ensures
        forall|s: int|
            0 <= s < i && (#[trigger] labels[s]) is Cluster ==> renumbered(table, labels, r, s),
{
    assert forall|s: int| 0 <= s < i && (#[trigger] labels[s]) is Cluster implies renumbered(
        table,
        labels,
        r,
        s,
    ) by {
        let u = choose|u: int|
            0 <= u < table0.len() && table0[u] == labels[s]->Cluster_0 && r0[s] == Label::Cluster(
                #[verifier::truncate] (u as usize),
            );
        assert(table[u] == labels[s]->Cluster_0 && r[s] == Label::Cluster(
            #[verifier::truncate] (u as usize),
        ));
    }
}

} // verus!
