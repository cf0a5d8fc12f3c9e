//! Half-open character ranges and a linear containment test over sorted,
//! pairwise-disjoint range lists.

use vstd::prelude::*;

verus! {

/// A half-open range of `char` positions within a text.
#[derive(Debug, Clone, Copy, PartialOrd, Ord, PartialEq, Eq, Structural)]
pub struct Range {
    pub start: usize,
    pub end: usize,
}

impl Range {
    /// `self` contains `other` (as half-open intervals).
    pub open spec fn spec_contains(self, other: Range) -> bool {
        self.start <= other.start && other.end <= self.end
    }

    /// The range covers no position.
    pub open spec fn spec_is_empty(self) -> bool {
        self.end <= self.start
    }

    pub fn contains(&self, other: Range) -> (r: bool)
        ensures
            r == self.spec_contains(other),
    {
        self.start <= other.start && other.end <= self.end
    }

    pub fn is_empty(&self) -> (r: bool)
        ensures
            r == self.spec_is_empty(),
    {
        self.end <= self.start
    }
}

/// Every range ends no later than any later range starts: the list is sorted
/// and pairwise non-overlapping (adjacency permitted).
pub open spec fn sorted_disjoint(s: Seq<Range>) -> bool {
    forall|k: int, l: int| 0 <= k < l < s.len() ==> s[k].end <= s[l].start
}

/// Every range in the list covers at least one position.
pub open spec fn all_nonempty(s: Seq<Range>) -> bool {
    forall|k: int| 0 <= k < s.len() ==> s[k].start < s[k].end
}

/// Some range of `sup`, at position `i` or later, contains `rb`.
pub open spec fn covered_from(sup: Seq<Range>, rb: Range, i: int) -> bool {
    exists|i2: int| i <= i2 < sup.len() && #[trigger] sup[i2].spec_contains(rb)
}

/// The all-pairs containment check: every range of `sub` lies inside some
/// range of `sup`.
pub open spec fn naive_subset(sup: Seq<Range>, sub: Seq<Range>) -> bool {
    forall|j: int| 0 <= j < sub.len() ==> #[trigger] covered_from(sup, sub[j], 0)
}

/// The two-pointer scan of `is_subset`, from positions `i` of `sup` and `j`
/// of `sub`: skip super-ranges that end before the current sub-range starts,
/// otherwise demand containment.
pub open spec fn subset_scan(sup: Seq<Range>, sub: Seq<Range>, i: int, j: int) -> bool
    recommends
        0 <= i <= sup.len(),
        0 <= j <= sub.len(),
    decreases sup.len() - i + sub.len() - j,
        when 0 <= i <= sup.len() && 0 <= j <= sub.len()
{
    if j == sub.len() {
        true
    } else if i == sup.len() {
        false
    } else if sup[i].end <= sub[j].start && sup[i].start < sub[j].start {
        subset_scan(sup, sub, i + 1, j)
    } else if sup[i].spec_contains(sub[j]) {
        subset_scan(sup, sub, i, j + 1)
    } else {
        false
    }
}

/// Returns true if every range yielded by `sub_set` is contained by some
/// range of `super_set`, in O(n+m) over two sorted, pairwise-disjoint lists.
/// For lists of non-empty ranges this coincides with the all-pairs check
/// (`lemma_is_subset_equals_naive`).
pub fn is_subset(super_set: &Vec<Range>, sub_set: &Vec<Range>) -> (r: bool)
    ensures
        r == subset_scan(super_set@, sub_set@, 0, 0),
{
    let mut i: usize = 0;
    let mut j: usize = 0;
    loop
        invariant
            0 <= i <= super_set@.len(),
            0 <= j <= sub_set@.len(),
            subset_scan(super_set@, sub_set@, 0, 0) == subset_scan(
                super_set@,
                sub_set@,
                i as int,
                j as int,
            ),
        decreases super_set@.len() - i + sub_set@.len() - j,
    {
        if j == sub_set.len() {
            return true;
        }
        if i == super_set.len() {
            return false;
        }
        let ra = super_set[i];
        let rb = sub_set[j];
        if ra.end <= rb.start && ra.start < rb.start {
            i += 1;
        } else if ra.contains(rb) {
            j += 1;
        } else {
            return false;
        }
    }
}

/// The all-pairs check restricted to the tails of both lists, from
/// position `i` of `sup` and `j` of `sub`.
pub open spec fn tail_covered(sup: Seq<Range>, sub: Seq<Range>, i: int, j: int) -> bool {
    forall|j2: int| j <= j2 < sub.len() ==> #[trigger] covered_from(sup, sub[j2], i)
}

/// The scan from `(i, j)` computes exactly the all-pairs check restricted to
/// the remaining ranges.
proof fn lemma_scan_equals_naive_from(sup: Seq<Range>, sub: Seq<Range>, i: int, j: int)
    requires
        sorted_disjoint(sup),
        sorted_disjoint(sub),
        all_nonempty(sup),
        all_nonempty(sub),
        0 <= i <= sup.len(),
        0 <= j <= sub.len(),
    ensures
        subset_scan(sup, sub, i, j) == tail_covered(sup, sub, i, j),
    decreases sup.len() - i + sub.len() - j,
{
    if j == sub.len() {
        // the scan is true and the tail check is vacuous
    } else if i == sup.len() {
        if tail_covered(sup, sub, i, j) {
            assert(covered_from(sup, sub[j], i));
            let w = choose|i2: int| i <= i2 < sup.len() && #[trigger] sup[i2].spec_contains(sub[j]);
            assert(false);
        }
    } else if sup[i].end <= sub[j].start && sup[i].start < sub[j].start {
        // `sup[i]` ends at or before every remaining (non-empty) sub-range
        // begins, so it contains none of them: dropping it changes nothing.
        lemma_scan_equals_naive_from(sup, sub, i + 1, j);
        assert forall|j2: int| j <= j2 < sub.len() implies #[trigger] covered_from(
            sup,
            sub[j2],
            i,
        ) == covered_from(sup, sub[j2], i + 1) by {
            if j2 > j {
                assert(sub[j].end <= sub[j2].start);
                assert(sub[j].start < sub[j].end);
            }
            assert(sub[j2].start < sub[j2].end);
            assert(!sup[i].spec_contains(sub[j2]));
            if covered_from(sup, sub[j2], i) {
                let w = choose|i2: int|
                    i <= i2 < sup.len() && #[trigger] sup[i2].spec_contains(sub[j2]);
                assert(w != i);
                assert(i + 1 <= w < sup.len() && sup[w].spec_contains(sub[j2]));
                assert(covered_from(sup, sub[j2], i + 1));
            }
            if covered_from(sup, sub[j2], i + 1) {
                let w = choose|i2: int|
                    i + 1 <= i2 < sup.len() && #[trigger] sup[i2].spec_contains(sub[j2]);
                assert(i <= w < sup.len() && sup[w].spec_contains(sub[j2]));
                assert(covered_from(sup, sub[j2], i));
            }
        }
        if tail_covered(sup, sub, i + 1, j) {
            assert forall|j2: int| j <= j2 < sub.len() implies #[trigger] covered_from(
                sup,
                sub[j2],
                i,
            ) by {}
            assert(tail_covered(sup, sub, i, j));
        }
        if tail_covered(sup, sub, i, j) {
            assert forall|j2: int| j <= j2 < sub.len() implies #[trigger] covered_from(
                sup,
                sub[j2],
                i + 1,
            ) by {
                assert(covered_from(sup, sub[j2], i));
            }
            assert(tail_covered(sup, sub, i + 1, j));
        }
    } else if sup[i].spec_contains(sub[j]) {
        lemma_scan_equals_naive_from(sup, sub, i, j + 1);
        assert(covered_from(sup, sub[j], i)) by {
            assert(i <= i < sup.len() && sup[i].spec_contains(sub[j]));
        }
        if tail_covered(sup, sub, i, j + 1) {
            assert forall|j2: int| j <= j2 < sub.len() implies #[trigger] covered_from(
                sup,
                sub[j2],
                i,
            ) by {
                if j2 > j {
                    assert(j + 1 <= j2 < sub.len());
                }
            }
            assert(tail_covered(sup, sub, i, j));
        }
        if tail_covered(sup, sub, i, j) {
            assert forall|j2: int| j + 1 <= j2 < sub.len() implies #[trigger] covered_from(
                sup,
                sub[j2],
                i,
            ) by {
                assert(j <= j2 < sub.len());
            }
            assert(tail_covered(sup, sub, i, j + 1));
        }
    } else {
        // `sup[i]` does not contain `sub[j]`, and neither can any other
        // remaining super-range: later ones start at or after `sup[i].end`,
        // which lies strictly past `sub[j].start`.
        assert(sup[i].start < sup[i].end);
        assert(sup[i].end > sub[j].start);
        assert forall|i2: int| i <= i2 < sup.len() implies !sup[i2].spec_contains(sub[j]) by {
            if i2 > i {
                assert(sup[i].end <= sup[i2].start);
            }
        }
        if tail_covered(sup, sub, i, j) {
            assert(covered_from(sup, sub[j], i));
            let w = choose|i2: int| i <= i2 < sup.len() && #[trigger] sup[i2].spec_contains(sub[j]);
            assert(!sup[w].spec_contains(sub[j]));
            assert(false);
        }
    }
}

/// For sorted, pairwise-disjoint lists of non-empty ranges, the linear scan
/// of `is_subset` agrees with the naive all-pairs containment check.
pub proof fn lemma_is_subset_equals_naive(sup: Seq<Range>, sub: Seq<Range>)
    requires
        sorted_disjoint(sup),
        sorted_disjoint(sub),
        all_nonempty(sup),
        all_nonempty(sub),
    ensures
        subset_scan(sup, sub, 0, 0) == naive_subset(sup, sub),
{
    lemma_scan_equals_naive_from(sup, sub, 0, 0);
    if tail_covered(sup, sub, 0, 0) {
        assert forall|j: int| 0 <= j < sub.len() implies #[trigger] covered_from(
            sup,
            sub[j],
            0,
        ) by {}
        assert(naive_subset(sup, sub));
    }
    if naive_subset(sup, sub) {
        assert forall|j2: int| 0 <= j2 < sub.len() implies #[trigger] covered_from(
            sup,
            sub[j2],
            0,
        ) by {}
        assert(tail_covered(sup, sub, 0, 0));
    }
}

} // verus!
