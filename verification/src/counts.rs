//! Counting over boolean sequences: the termination measure of the expansion
//! loops, and the model of the seed-list size in the ordering engine.

use vstd::prelude::*;

verus! {

/// How many of the first `m` entries are true.
pub open spec fn count_true(s: Seq<bool>, m: int) -> int
    decreases m,
{
    if m <= 0 {
        0
    } else {
        count_true(s, m - 1) + if s[m - 1] {
            1int
        } else {
            0int
        }
    }
}

pub proof fn lemma_count_true_bounds(s: Seq<bool>, m: int)
    ensures
        0 <= count_true(s, m),
        m >= 0 ==> count_true(s, m) <= m,
    decreases m,
{
    if m > 0 {
        lemma_count_true_bounds(s, m - 1);
    }
}

/// Updating one entry moves the count by the difference of old and new value.
pub proof fn lemma_count_true_update(s: Seq<bool>, j: int, v: bool, m: int)
    requires
        0 <= j < s.len(),
        m <= s.len(),
    ensures
        j < m ==> count_true(s.update(j, v), m) == count_true(s, m) - (if s[j] {
            1int
        } else {
            0int
        }) + (if v {
            1int
        } else {
            0int
        }),
        j >= m ==> count_true(s.update(j, v), m) == count_true(s, m),
    decreases m,
{
    if m > 0 {
        lemma_count_true_update(s, j, v, m - 1);
    }
}

/// The count over the first `m` entries reads nothing beyond them.
pub proof fn lemma_count_true_prefix(s1: Seq<bool>, s2: Seq<bool>, m: int)
    requires
        forall|j: int| 0 <= j < m ==> s1[j] == s2[j],
    ensures
        count_true(s1, m) == count_true(s2, m),
    decreases m,
{
    if m > 0 {
        lemma_count_true_prefix(s1, s2, m - 1);
    }
}

/// When every entry is true the count is the length.
pub proof fn lemma_count_true_full(s: Seq<bool>, m: int)
    requires
        forall|j: int| 0 <= j < m ==> s[j],
        m >= 0,
    ensures
        count_true(s, m) == m,
    decreases m,
{
    if m > 0 {
        lemma_count_true_full(s, m - 1);
    }
}

/// One true entry makes the count positive.
pub proof fn lemma_count_true_ge_one(s: Seq<bool>, j: int, m: int)
    requires
        0 <= j < m,
        s[j],
    ensures
        count_true(s, m) >= 1,
    decreases m,
{
    lemma_count_true_bounds(s, m - 1);
    if j < m - 1 {
        lemma_count_true_ge_one(s, j, m - 1);
    }
}

/// A positive count names at least one true entry.
pub proof fn lemma_count_true_pos_exists(s: Seq<bool>, m: int)
    requires
        count_true(s, m) > 0,
        m <= s.len(),
    ensures
        exists|j: int| 0 <= j < m && s[j],
    decreases m,
{
    if m > 0 {
        if s[m - 1] {
            assert(0 <= m - 1 < m && s[m - 1]);
        } else {
            lemma_count_true_pos_exists(s, m - 1);
        }
    }
}

} // verus!
