//! The live snippet session: owns the rendered tabstop ranges, remaps them
//! through every subsequent document edit, drives tabstop navigation, and
//! validates the user's selection against the active tabstop.

use vstd::prelude::*;
use vstd::pervasive::VecAdditionalExecFns;

use crate::host::{spec_map_pos, Assoc, ChangeSet, Direction, Op, Selection};
use crate::range::{
    all_nonempty,
    is_subset,
    lemma_is_subset_equals_naive,
    naive_subset,
    sorted_disjoint,
    subset_scan,
    Range,
};
use crate::render::{selection_for, RenderedSnippet, Tabstop, TabstopKind};
use crate::TabstopIdx;

verus! {

/// The set of active tabstop indices, backed by a hash set.
#[verifier::external_body]
pub struct ActiveSet {
    inner: hashbrown::HashSet<usize>,
}

/// The indices an `ActiveSet` holds.
pub uninterp spec fn active_set_view(s: ActiveSet) -> Set<usize>;

/// Relies on `hashbrown::HashSet::new`: a fresh set is empty.
#[verifier::external_body]
fn active_set_new() -> (r: ActiveSet)
    ensures
        active_set_view(r) == Set::<usize>::empty(),
{
    ActiveSet { inner: hashbrown::HashSet::new() }
}

/// Relies on `hashbrown::HashSet::insert`: afterwards the set holds the
/// element and everything it held before.
#[verifier::external_body]
fn active_set_insert(s: &mut ActiveSet, x: usize)
    ensures
        active_set_view(*final(s)) == active_set_view(*old(s)).insert(x),
{
    s.inner.insert(x);
}

/// Relies on `hashbrown::HashSet::contains`.
#[verifier::external_body]
fn active_set_contains(s: &ActiveSet, x: usize) -> (r: bool)
    ensures
        r == active_set_view(*s).contains(x),
{
    s.inner.contains(&x)
}

/// Relies on `hashbrown::HashSet::clear`: afterwards the set is empty.
#[verifier::external_body]
fn active_set_clear(s: &mut ActiveSet)
    ensures
        active_set_view(*final(s)) == Set::<usize>::empty(),
{
    s.inner.clear();
}

/// `below(n)` (the indices a table of length `n` has) is finite, with
/// exactly `n` members.
proof fn lemma_below_finite(n: nat)
    requires
        n <= usize::MAX,
    ensures
        crate::elaborate::below(n).finite(),
        crate::elaborate::below(n).len() == n,
    decreases n,
{
    if n == 0 {
        assert(crate::elaborate::below(0) =~= Set::<usize>::empty());
    } else {
        lemma_below_finite((n - 1) as nat);
        assert(!crate::elaborate::below((n - 1) as nat).contains((n - 1) as usize));
        vstd::set::axiom_set_insert_finite(
            crate::elaborate::below((n - 1) as nat),
            (n - 1) as usize,
        );
        vstd::set::axiom_set_insert_len(crate::elaborate::below((n - 1) as nat), (n - 1) as usize);
        assert(crate::elaborate::below(n) =~= crate::elaborate::below((n - 1) as nat).insert(
            (n - 1) as usize,
        ));
    }
}

/// Every range of the tabstop is empty.
pub open spec fn all_ranges_empty(rs: Seq<Range>) -> bool {
    forall|k: int| 0 <= k < rs.len() ==> (#[trigger] rs[k]).spec_is_empty()
}

/// A tabstop that cannot be activated: it has no ranges left, or it offers
/// placeholder or choice content but all its current ranges are empty, so
/// there is nothing to select.
pub open spec fn spec_vacuous(t: Tabstop) -> bool {
    t.ranges@.len() == 0 || ((t.kind is Choice || t.kind is Placeholder) && all_ranges_empty(
        t.ranges@,
    ))
}

/// The `(start, end)` bounds of a selection's ranges, in order.
pub open spec fn sel_bounds(s: Selection) -> Seq<Range> {
    s.ranges@.map_values(
        |sr: crate::host::SelRange| Range { start: sr.spec_min(), end: sr.spec_max() },
    )
}

/// The first top-level range containing `pr`, or 0 if none does.
pub open spec fn find_containing(rs: Seq<Range>, pr: Range, i: int) -> int
    decreases rs.len() - i,
    when 0 <= i <= rs.len()
{
    if i == rs.len() {
        0
    } else if rs[i].spec_contains(pr) {
        i
    } else {
        find_containing(rs, pr, i + 1)
    }
}

/// The live session for one inserted snippet.
pub struct ActiveSnippet {
    ranges: Vec<Range>,
    active_tabstops: ActiveSet,
    active_tabstop: TabstopIdx,
    tabstops: Vec<Tabstop>,
}

impl ActiveSnippet {
    pub closed spec fn spec_ranges(self) -> Seq<Range> {
        self.ranges@
    }

    pub closed spec fn spec_tabstops(self) -> Seq<Tabstop> {
        self.tabstops@
    }

    /// The resolved index of the active tabstop.
    pub closed spec fn spec_active(self) -> usize {
        self.active_tabstop.0
    }

    /// The active set: the active tabstop together with its ancestors.
    pub closed spec fn spec_active_set(self) -> Set<usize> {
        active_set_view(self.active_tabstops)
    }

    /// Parent links point into the table, the active index is in range,
    /// and at least one tabstop and one insertion range exist. Parent
    /// chains are not assumed acyclic: a template that reuses a raw number
    /// inside its own placeholder yields a self-referential parent link,
    /// so the ancestor walk closes the active set by membership instead of
    /// following chains to their end.
    pub open spec fn wf(self) -> bool {
        &&& self.spec_tabstops().len() >= 1
        &&& self.spec_active() < self.spec_tabstops().len()
        &&& self.spec_ranges().len() >= 1
        &&& forall|t: int|
            0 <= t < self.spec_tabstops().len() ==> (match (#[trigger] self.spec_tabstops()[t]).parent {
                Some(p) => p.0 < self.spec_tabstops().len(),
                None => true,
            })
    }

    /// The active set is the active tabstop closed under parent links, and
    /// holds nothing else.
    pub open spec fn active_set_ok(self) -> bool {
        &&& self.spec_active_set().contains(self.spec_active())
        &&& forall|y: usize|
            self.spec_active_set().contains(y) ==> y < self.spec_tabstops().len()
        &&& forall|y: usize|
            #[trigger] self.spec_active_set().contains(y) ==> (match self.spec_tabstops()[y as int].parent {
                Some(p) => self.spec_active_set().contains(p.0),
                None => true,
            })
        &&& forall|y: usize|
            #[trigger] self.spec_active_set().contains(y) ==> (y == self.spec_active() || exists|z: usize|
                self.spec_active_set().contains(z) && (#[trigger] self.spec_tabstops()[z as int].parent)
                    == Some(TabstopIdx(y)))
    }

    /// Creates the session from a freshly rendered snippet, activating the
    /// first tabstop. Returns no session when the snippet has a single
    /// tabstop (the terminal one): there is nothing to navigate.
    pub fn new(primary_idx: usize, direction: Direction, snippet: RenderedSnippet) -> (r: (
        Option<ActiveSnippet>,
        Selection,
    ))
        requires
            snippet.tabstops@.len() >= 1,
            snippet.ranges@.len() >= 1,
            primary_idx < snippet.ranges@.len(),
            forall|t: int|
                0 <= t < snippet.tabstops@.len() ==> (match (#[trigger] snippet.tabstops@[t]).parent {
                    Some(p) => p.0 < snippet.tabstops@.len(),
                    None => true,
                }),
            !spec_vacuous(snippet.tabstops@[0]),
        ensures
            (r.0 is Some) == (snippet.tabstops@.len() != 1),
            r.0 matches Some(s) ==> s.wf() && s.active_set_ok() && s.spec_active() == 0
                && s.spec_tabstops() == snippet.tabstops@ && s.spec_ranges() == snippet.ranges@,
            r.1.wf(),
            selection_for(
                r.1,
                snippet.tabstops@[0],
                direction,
                primary_idx,
                snippet.ranges@.len() as usize,
            ),
    {
        let RenderedSnippet { tabstops, ranges } = snippet;
        let mut session = ActiveSnippet {
            ranges,
            tabstops,
            active_tabstops: active_set_new(),
            active_tabstop: TabstopIdx(0),
        };
        proof {
            assert(session.spec_tabstops() == snippet.tabstops@);
            assert(session.spec_ranges() == snippet.ranges@);
            assert(session.spec_active() == 0);
        }
        let selection = session.activate_tabstop(primary_idx, direction);
        let selection = match selection {
            Some(sel) => sel,
            None => {
                proof {
                    // unreachable: the first tabstop is not vacuous
                    assert(false);
                }
                Selection { ranges: Vec::new(), primary_index: 0 }
            },
        };
        if session.tabstops.len() != 1 {
            (Some(session), selection)
        } else {
            (None, selection)
        }
    }

    /// The resolved index of the active tabstop.
    pub fn active_index(&self) -> (r: usize)
        ensures
            r == self.spec_active(),
    {
        self.active_tabstop.0
    }

    /// Whether the tabstop at `idx` is in the active set.
    pub fn is_active(&self, idx: usize) -> (r: bool)
        ensures
            r == self.spec_active_set().contains(idx),
    {
        active_set_contains(&self.active_tabstops, idx)
    }

    /// The rendered tabstop at a resolved index.
    pub fn tabstop(&self, idx: TabstopIdx) -> (r: &Tabstop)
        requires
            idx.0 < self.spec_tabstops().len(),
        ensures
            *r == self.spec_tabstops()[idx.0 as int],
    {
        &self.tabstops[idx.0]
    }

    /// The number of tabstops tracked by the session.
    pub fn tabstop_count(&self) -> (r: usize)
        ensures
            r == self.spec_tabstops().len(),
    {
        self.tabstops.len()
    }

    /// The top-level insertion ranges.
    pub fn insertion_ranges(&self) -> (r: &Vec<Range>)
        ensures
            r@ == self.spec_ranges(),
    {
        &self.ranges
    }

    /// True iff every range of the given selection lies inside some range
    /// of the active tabstop: the authoritative check that the session is
    /// still meaningful after arbitrary selection changes.
    pub fn is_valid(&self, new_selection: &Selection) -> (r: bool)
        requires
            self.wf(),
        ensures
            r == subset_scan(
                self.spec_tabstops()[self.spec_active() as int].ranges@,
                sel_bounds(*new_selection),
                0,
                0,
            ),
            (sorted_disjoint(self.spec_tabstops()[self.spec_active() as int].ranges@)
                && sorted_disjoint(sel_bounds(*new_selection)) && all_nonempty(
                self.spec_tabstops()[self.spec_active() as int].ranges@,
            ) && all_nonempty(sel_bounds(*new_selection))) ==> r == naive_subset(
                self.spec_tabstops()[self.spec_active() as int].ranges@,
                sel_bounds(*new_selection),
            ),
    {
        let bounds = new_selection.range_bounds();
        proof {
            assert(bounds@ =~= sel_bounds(*new_selection));
            let sup = self.spec_tabstops()[self.spec_active() as int].ranges@;
            if sorted_disjoint(sup) && sorted_disjoint(bounds@) && all_nonempty(sup)
                && all_nonempty(bounds@) {
                lemma_is_subset_equals_naive(sup, bounds@);
            }
        }
        is_subset(&self.tabstops[self.active_tabstop.0].ranges, &bounds)
    }

    /// The insertion-range index that navigation derives from the current
    /// selection: the first top-level range containing the primary cursor,
    /// or the first range when none does.
    pub open spec fn spec_primary_idx(self, current_selection: Selection) -> int {
        find_containing(
            self.spec_ranges(),
            (Range {
                start: current_selection.ranges@[current_selection.primary_index as int].spec_min(),
                end: current_selection.ranges@[current_selection.primary_index as int].spec_max(),
            }),
            0,
        )
    }

    /// The index of the top-level insertion range containing the primary
    /// cursor. Falls back to the first range when the selection has left
    /// the tracked ranges, a state the caller detects with `is_valid`.
    fn primary_idx(&self, current_selection: &Selection) -> (r: usize)
        requires
            self.wf(),
            current_selection.wf(),
        ensures
            r < self.spec_ranges().len(),
            r as int == self.spec_primary_idx(*current_selection),
    {
        let primary = current_selection.primary().to_range();
        let mut i: usize = 0;
        while i < self.ranges.len()
            invariant
                0 <= i <= self.ranges@.len(),
                primary.start == current_selection.ranges@[current_selection.primary_index as int].spec_min(),
                primary.end == current_selection.ranges@[current_selection.primary_index as int].spec_max(),
                find_containing(self.ranges@, primary, 0) == find_containing(
                    self.ranges@,
                    primary,
                    i as int,
                ),
            decreases self.ranges@.len() - i,
        {
            if self.ranges[i].contains(primary) {
                return i;
            }
            i += 1;
        }
        0
    }

    /// Activates the tabstop at the current index: refuses (returning
    /// `None`) when it is vacuous, otherwise rebuilds the active set as the
    /// tabstop plus all its ancestors and returns the selection covering
    /// its ranges, flipped when navigating backward.
    fn activate_tabstop(&mut self, primary_idx: usize, direction: Direction) -> (r: Option<
        Selection,
    >)
        requires
            old(self).wf(),
            primary_idx < old(self).spec_ranges().len(),
        ensures
            final(self).wf(),
            final(self).spec_tabstops() == old(self).spec_tabstops(),
            final(self).spec_ranges() == old(self).spec_ranges(),
            final(self).spec_active() == old(self).spec_active(),
            (r is None) == spec_vacuous(
                old(self).spec_tabstops()[old(self).spec_active() as int],
            ),
            r is None ==> final(self).spec_active_set() == old(self).spec_active_set(),
            r is Some ==> final(self).active_set_ok(),
            r matches Some(sel) ==> sel.wf() && selection_for(
                sel,
                old(self).spec_tabstops()[old(self).spec_active() as int],
                direction,
                primary_idx,
                old(self).spec_ranges().len() as usize,
            ),
    {
        let idx = self.active_tabstop.0;
        let n = self.tabstops.len();
        if self.tabstops[idx].ranges.len() == 0 {
            return None;
        }
        if self.tabstops[idx].has_placeholder() {
            let rs = &self.tabstops[idx].ranges;
            let mut all_empty = true;
            let mut k: usize = 0;
            while k < rs.len()
                invariant
                    0 <= k <= rs@.len(),
                    all_empty == all_ranges_empty(rs@.subrange(0, k as int)),
                decreases rs@.len() - k,
            {
                proof {
                    assert(rs@.subrange(0, k + 1) =~= rs@.subrange(0, k as int).push(
                        rs@[k as int],
                    ));
                    assert forall|q: int| 0 <= q < k + 1 implies rs@.subrange(0, k + 1)[q]
                        == rs@[q] by {}
                }
                if !rs[k].is_empty() {
                    all_empty = false;
                }
                k += 1;
            }
            proof {
                assert(rs@.subrange(0, rs@.len() as int) =~= rs@);
            }
            if all_empty {
                return None;
            }
        }
        // rebuild the active set: the tabstop and every ancestor
        active_set_clear(&mut self.active_tabstops);
        active_set_insert(&mut self.active_tabstops, idx);
        proof {
            lemma_below_finite(n as nat);
            vstd::set::axiom_set_insert_finite(Set::<usize>::empty(), idx);
            vstd::set::axiom_set_insert_len(Set::<usize>::empty(), idx);
        }
        let mut cur = idx;
        let mut done = false;
        while !done
            invariant
                n == self.tabstops@.len(),
                self.wf(),
                self.spec_tabstops() == old(self).spec_tabstops(),
                self.spec_ranges() == old(self).spec_ranges(),
                self.spec_active() == old(self).spec_active(),
                idx == self.spec_active(),
                cur < n,
                self.spec_active_set().contains(idx),
                self.spec_active_set().contains(cur),
                self.spec_active_set().finite(),
                forall|y: usize| self.spec_active_set().contains(y) ==> y < n,
                self.spec_active_set().subset_of(crate::elaborate::below(n as nat)),
                forall|y: usize|
                    #[trigger] self.spec_active_set().contains(y) ==> ((y == cur && !done) || (
                    match self.spec_tabstops()[y as int].parent {
                        Some(p) => self.spec_active_set().contains(p.0),
                        None => true,
                    })),
                forall|y: usize|
                    #[trigger] self.spec_active_set().contains(y) ==> (y == idx || exists|z: usize|
                        self.spec_active_set().contains(z) && (
                        #[trigger] self.spec_tabstops()[z as int].parent) == Some(TabstopIdx(y))),
            decreases n - self.spec_active_set().len(), (if done {
                0int
            } else {
                1int
            }),
    {
            proof {
                lemma_below_finite(n as nat);
                vstd::set_lib::lemma_len_subset(
                    self.spec_active_set(),
                    crate::elaborate::below(n as nat),
                );
            }
            match self.tabstops[cur].parent {
                None => {
                    done = true;
                },
                Some(p) => {
                    let pi = p.0;
                    if active_set_contains(&self.active_tabstops, pi) {
                        done = true;
                    } else {
                        proof {
                            vstd::set::axiom_set_insert_finite(self.spec_active_set(), pi);
                            vstd::set::axiom_set_insert_len(self.spec_active_set(), pi);
                        }
                        active_set_insert(&mut self.active_tabstops, pi);
                        cur = pi;
                        proof {
                            lemma_below_finite(n as nat);
                            vstd::set_lib::lemma_len_subset(
                                self.spec_active_set(),
                                crate::elaborate::below(n as nat),
                            );
                        }
                    }
                },
            }
        }
        let sel = self.tabstops[idx].selection(direction, primary_idx, self.ranges.len());
        Some(sel)
    }

    /// Moves forward to the next activatable tabstop, skipping vacuous
    /// ones. Returns the new selection and whether the session is complete
    /// (the terminal tabstop, which sits last, was reached); `None` when no
    /// tabstop remains.
    pub fn next_tabstop(&mut self, current_selection: &Selection) -> (r: Option<(Selection, bool)>)
        requires
            old(self).wf(),
            current_selection.wf(),
        ensures
            final(self).wf(),
            final(self).spec_tabstops() == old(self).spec_tabstops(),
            final(self).spec_ranges() == old(self).spec_ranges(),
            r matches Some((sel, last)) ==> {
                &&& old(self).spec_active() < final(self).spec_active()
                &&& final(self).spec_active() < final(self).spec_tabstops().len()
                &&& !spec_vacuous(
                    final(self).spec_tabstops()[final(self).spec_active() as int],
                )
                &&& forall|j: int|
                    old(self).spec_active() < j < final(self).spec_active()
                        ==> spec_vacuous(#[trigger] final(self).spec_tabstops()[j])
                &&& last == (final(self).spec_active() + 1 == final(self).spec_tabstops().len())
                &&& final(self).active_set_ok()
                &&& sel.wf()
                &&& selection_for(
                    sel,
                    final(self).spec_tabstops()[final(self).spec_active() as int],
                    Direction::Forward,
                    old(self).spec_primary_idx(*current_selection) as usize,
                    final(self).spec_ranges().len() as usize,
                )
            },
            r is None ==> forall|j: int|
                old(self).spec_active() < j < final(self).spec_tabstops().len()
                    ==> spec_vacuous(#[trigger] final(self).spec_tabstops()[j]),
    {
        let primary_idx = self.primary_idx(current_selection);
        let ghost entry_active = self.spec_active();
        let n = self.tabstops.len();
        while self.active_tabstop.0 + 1 < n
            invariant
                self.wf(),
                n == self.tabstops@.len(),
                self.active_tabstop.0 < n,
                entry_active == old(self).spec_active(),
                self.spec_tabstops() == old(self).spec_tabstops(),
                self.spec_ranges() == old(self).spec_ranges(),
                primary_idx < self.spec_ranges().len(),
                primary_idx as int == old(self).spec_primary_idx(*current_selection),
                entry_active <= self.spec_active(),
                forall|j: int|
                    entry_active < j <= self.spec_active() ==> spec_vacuous(
                        #[trigger] self.spec_tabstops()[j],
                    ),
            decreases self.spec_tabstops().len() - self.spec_active(),
        {
            self.active_tabstop = TabstopIdx(self.active_tabstop.0 + 1);
            let selection = self.activate_tabstop(primary_idx, Direction::Forward);
            match selection {
                Some(sel) => {
                    let last = self.active_tabstop.0 + 1 == self.tabstops.len();
                    return Some((sel, last));
                },
                None => {},
            }
        }
        None
    }

    /// Moves backward to the previous activatable tabstop, skipping
    /// vacuous ones; `None` when none remains.
    pub fn prev_tabstop(&mut self, current_selection: &Selection) -> (r: Option<Selection>)
        requires
            old(self).wf(),
            current_selection.wf(),
        ensures
            final(self).wf(),
            final(self).spec_tabstops() == old(self).spec_tabstops(),
            final(self).spec_ranges() == old(self).spec_ranges(),
            r matches Some(sel) ==> {
                &&& final(self).spec_active() < old(self).spec_active()
                &&& !spec_vacuous(
                    final(self).spec_tabstops()[final(self).spec_active() as int],
                )
                &&& forall|j: int|
                    final(self).spec_active() < j < old(self).spec_active() ==> spec_vacuous(
                        #[trigger] final(self).spec_tabstops()[j],
                    )
                &&& final(self).active_set_ok()
                &&& sel.wf()
                &&& selection_for(
                    sel,
                    final(self).spec_tabstops()[final(self).spec_active() as int],
                    Direction::Backward,
                    old(self).spec_primary_idx(*current_selection) as usize,
                    final(self).spec_ranges().len() as usize,
                )
            },
            r is None ==> forall|j: int|
                0 <= j < old(self).spec_active() ==> spec_vacuous(
                    #[trigger] final(self).spec_tabstops()[j],
                ),
    {
        let primary_idx = self.primary_idx(current_selection);
        let ghost entry_active = self.spec_active();
        while self.active_tabstop.0 != 0
            invariant
                self.wf(),
                entry_active == old(self).spec_active(),
                self.spec_tabstops() == old(self).spec_tabstops(),
                self.spec_ranges() == old(self).spec_ranges(),
                primary_idx < self.spec_ranges().len(),
                primary_idx as int == old(self).spec_primary_idx(*current_selection),
                self.spec_active() <= entry_active,
                forall|j: int|
                    self.spec_active() <= j < entry_active ==> spec_vacuous(
                        #[trigger] self.spec_tabstops()[j],
                    ),
            decreases self.spec_active(),
        {
            self.active_tabstop = TabstopIdx(self.active_tabstop.0 - 1);
            let selection = self.activate_tabstop(primary_idx, Direction::Backward);
            match selection {
                Some(sel) => {
                    return Some(sel);
                },
                None => {},
            }
        }
        None
    }
}

/// Each range is ordered and the list is sorted and pairwise disjoint.
pub open spec fn ranges_ordered(rs: Seq<Range>) -> bool {
    (forall|k: int| 0 <= k < rs.len() ==> (#[trigger] rs[k]).start <= rs[k].end) && sorted_disjoint(
        rs,
    )
}

/// The bias pair `(start, end)` for one tracked tabstop range: inward for
/// a tabstop in the active set, so text typed at either boundary is
/// absorbed and an empty range still grows; outward otherwise, so edits at
/// the boundary do not silently expand the range.
pub open spec fn spec_range_bias(r: Range, active: bool) -> (Assoc, Assoc) {
    if active {
        (Assoc::Before, Assoc::After)
    } else {
        (Assoc::After, if r.start == r.end {
            Assoc::After
        } else {
            Assoc::Before
        })
    }
}

/// Every endpoint mapped through the batch under its bias.
pub open spec fn spec_mapped_ranges(ops: Seq<Op>, rs: Seq<Range>, active: bool) -> Seq<Range> {
    rs.map_values(
        |r: Range|
            Range {
                start: spec_map_pos(ops, r.start as int, spec_range_bias(r, active).0) as usize,
                end: spec_map_pos(ops, r.end as int, spec_range_bias(r, active).1) as usize,
            },
    )
}

/// The insertion group a tabstop's range at position `i` belongs to, with
/// the trailing group absorbing any remainder.
pub open spec fn spec_group_of(i: int, num: int, groups: int) -> int {
    let g = if num == 0 {
        0
    } else {
        i / num
    };
    if g < groups {
        g
    } else {
        groups - 1
    }
}

/// One range clamped into its owning insertion range and pushed behind the
/// previous range's end: the best-effort repair of `map`.
pub open spec fn spec_clamp_one(r: Range, sr: Range, prev_end: usize) -> Range {
    let s1: usize = if r.start < sr.start {
        sr.start
    } else {
        r.start
    };
    let e1: usize = if r.end < s1 {
        s1
    } else {
        r.end
    };
    let e2: usize = if e1 > sr.end {
        sr.end
    } else {
        e1
    };
    let e3: usize = if e2 < s1 {
        s1
    } else {
        e2
    };
    if prev_end > s1 {
        Range {
            start: prev_end,
            end: (if e3 < prev_end {
                prev_end
            } else {
                e3
            }),
        }
    } else {
        Range { start: s1, end: e3 }
    }
}

/// The clamp-retain-repair pass over one tabstop's remapped ranges:
/// ranges whose owning insertion range has become inverted (its region was
/// deleted) are dropped, the rest clamped and kept in order.
pub open spec fn spec_clamp_ranges(
    rs: Seq<Range>,
    tops: Seq<Range>,
    num: int,
    i: int,
    prev_end: usize,
) -> Seq<Range>
    decreases rs.len() - i,
    when 0 <= i <= rs.len() && tops.len() >= 1
{
    if i == rs.len() {
        Seq::empty()
    } else {
        let sr = tops[spec_group_of(i, num, tops.len() as int)];
        if sr.start <= sr.end {
            let c = spec_clamp_one(rs[i], sr, prev_end);
            seq![c] + spec_clamp_ranges(rs, tops, num, i + 1, c.end)
        } else {
            spec_clamp_ranges(rs, tops, num, i + 1, prev_end)
        }
    }
}

impl ActiveSnippet {
    /// Remaps every tracked range through an externally applied edit batch.
    /// Top-level insertion ranges use outward bias, so edits exactly at the
    /// snippet's outer boundary fall outside it. Ranges of tabstops in the
    /// active set use inward bias, absorbing text typed at their boundary;
    /// all other tabstops use outward bias. Afterwards each tabstop's
    /// ranges are clamped into their owning insertion range, ranges whose
    /// insertion range was entirely deleted are dropped, and ordering is
    /// repaired best-effort, so the ranges come out sorted and disjoint.
    pub fn map(&mut self, changes: &ChangeSet)
        requires
            old(self).wf(),
        ensures
            final(self).wf(),
            final(self).spec_active() == old(self).spec_active(),
            final(self).spec_active_set() == old(self).spec_active_set(),
            final(self).spec_ranges().len() == old(self).spec_ranges().len(),
            forall|k: int|
                0 <= k < old(self).spec_ranges().len() ==> ((
                #[trigger] final(self).spec_ranges()[k]).start as int == spec_map_pos(
                    changes.ops@,
                    old(self).spec_ranges()[k].start as int,
                    Assoc::After,
                ) && final(self).spec_ranges()[k].end as int == spec_map_pos(
                    changes.ops@,
                    old(self).spec_ranges()[k].end as int,
                    Assoc::Before,
                )),
            final(self).spec_tabstops().len() == old(self).spec_tabstops().len(),
            forall|t: int|
                0 <= t < old(self).spec_tabstops().len() ==> (#[trigger] final(self).spec_tabstops()[t]).parent == old(self).spec_tabstops()[t].parent && final(self).spec_tabstops()[t].kind == old(self).spec_tabstops()[t].kind,
            forall|t: int|
                0 <= t < final(self).spec_tabstops().len() ==> ranges_ordered(
                    (#[trigger] final(self).spec_tabstops()[t]).ranges@,
                ),
            forall|t: int|
                0 <= t < old(self).spec_tabstops().len() ==> (#[trigger] final(self).spec_tabstops()[t]).ranges@ == spec_clamp_ranges(
                    spec_mapped_ranges(
                        changes.ops@,
                        old(self).spec_tabstops()[t].ranges@,
                        old(self).spec_active_set().contains(t as usize),
                    ),
                    final(self).spec_ranges(),
                    old(self).spec_tabstops()[t].ranges@.len() as int / old(self).spec_ranges().len() as int,
                    0,
                    0,
                ),
    {
        let ghost old_top = self.ranges@;
        let mut new_ranges: Vec<Range> = Vec::new();
        let mut k: usize = 0;
        while k < self.ranges.len()
            invariant
                0 <= k <= self.ranges@.len(),
                self.ranges@ == old_top,
                new_ranges@.len() == k,
                forall|j: int|
                    0 <= j < k ==> ((#[trigger] new_ranges@[j]).start as int == spec_map_pos(
                        changes.ops@,
                        old_top[j].start as int,
                        Assoc::After,
                    ) && new_ranges@[j].end as int == spec_map_pos(
                        changes.ops@,
                        old_top[j].end as int,
                        Assoc::Before,
                    )),
            decreases self.ranges@.len() - k,
        {
            let r = self.ranges[k];
            let start = changes.map_pos(r.start, Assoc::After);
            let end = changes.map_pos(r.end, Assoc::Before);
            new_ranges.push(Range { start, end });
            k += 1;
        }
        self.ranges = new_ranges;
        let n_groups = self.ranges.len();
        let ghost old_tabs = self.tabstops@;
        let mut t: usize = 0;
        while t < self.tabstops.len()
            invariant
                0 <= t <= self.tabstops@.len(),
                n_groups == self.ranges@.len(),
                n_groups >= 1,
                self.spec_active() == old(self).spec_active(),
                self.spec_active_set() == old(self).spec_active_set(),
                self.spec_active() < self.tabstops@.len(),
                self.ranges@.len() == old_top.len(),
                old_top == old(self).spec_ranges(),
                forall|j: int|
                    0 <= j < old_top.len() ==> ((#[trigger] self.ranges@[j]).start as int
                        == spec_map_pos(changes.ops@, old_top[j].start as int, Assoc::After)
                        && self.ranges@[j].end as int == spec_map_pos(
                        changes.ops@,
                        old_top[j].end as int,
                        Assoc::Before,
                    )),
                old_tabs == old(self).spec_tabstops(),
                self.tabstops@.len() == old_tabs.len(),
                forall|s: int|
                    0 <= s < old_tabs.len() ==> (#[trigger] self.tabstops@[s]).parent
                        == old_tabs[s].parent && self.tabstops@[s].kind == old_tabs[s].kind,
                forall|s: int| t <= s < old_tabs.len() ==> #[trigger] self.tabstops@[s] == old_tabs[s],
                forall|s: int|
                    0 <= s < t ==> ranges_ordered((#[trigger] self.tabstops@[s]).ranges@),
                forall|s: int|
                    0 <= s < t ==> (#[trigger] self.tabstops@[s]).ranges@ == spec_clamp_ranges(
                        spec_mapped_ranges(
                            changes.ops@,
                            old_tabs[s].ranges@,
                            old(self).spec_active_set().contains(s as usize),
                        ),
                        self.ranges@,
                        old_tabs[s].ranges@.len() as int / n_groups as int,
                        0,
                        0,
                    ),
            decreases self.tabstops@.len() - t,
        {
            let mut tmp = Tabstop { ranges: Vec::new(), parent: None, kind: TabstopKind::Empty };
            self.tabstops.set_and_swap(t, &mut tmp);
            let is_active = active_set_contains(&self.active_tabstops, t);
            let ghost mapped = spec_mapped_ranges(changes.ops@, tmp.ranges@, is_active);
            // remap each endpoint with its bias
            let mut rs: Vec<Range> = Vec::new();
            let mut i: usize = 0;
            while i < tmp.ranges.len()
                invariant
                    0 <= i <= tmp.ranges@.len(),
                    rs@.len() == i,
                    mapped == spec_mapped_ranges(changes.ops@, tmp.ranges@, is_active),
                    forall|j: int| 0 <= j < i ==> #[trigger] rs@[j] == mapped[j],
                decreases tmp.ranges@.len() - i,
            {
                let r = tmp.ranges[i];
                let sa = if is_active {
                    Assoc::Before
                } else {
                    Assoc::After
                };
                let ea = if is_active {
                    // an empty active range is still biased to grow, so
                    // text typed at it is absorbed
                    Assoc::After
                } else if r.start == r.end {
                    Assoc::After
                } else {
                    Assoc::Before
                };
                proof {
                    assert(sa == spec_range_bias(tmp.ranges@[i as int], is_active).0);
                    assert(ea == spec_range_bias(tmp.ranges@[i as int], is_active).1);
                }
                rs.push(
                    Range { start: changes.map_pos(r.start, sa), end: changes.map_pos(r.end, ea) },
                );
                i += 1;
            }
            proof {
                assert(rs@ =~= mapped);
            }
            // clamp into the owning insertion range, drop ranges whose
            // insertion was deleted, and repair ordering
            let num_ranges = rs.len() / n_groups;
            let mut out: Vec<Range> = Vec::new();
            let mut prev_end: usize = 0;
            let mut i2: usize = 0;
            let ghost target = spec_clamp_ranges(rs@, self.ranges@, num_ranges as int, 0, 0);
            while i2 < rs.len()
                invariant
                    0 <= i2 <= rs@.len(),
                    n_groups == self.ranges@.len(),
                    n_groups >= 1,
                    num_ranges as int == rs@.len() as int / n_groups as int,
                    target == spec_clamp_ranges(rs@, self.ranges@, num_ranges as int, 0, 0),
                    out@ + spec_clamp_ranges(
                        rs@,
                        self.ranges@,
                        num_ranges as int,
                        i2 as int,
                        prev_end,
                    ) == target,
                    forall|q: int|
                        0 <= q < out@.len() ==> (#[trigger] out@[q]).start <= out@[q].end,
                    forall|q: int| 0 <= q < out@.len() ==> (#[trigger] out@[q]).end <= prev_end,
                    sorted_disjoint(out@),
                decreases rs@.len() - i2,
            {
                let gi0: usize = if num_ranges == 0 {
                    0
                } else {
                    i2 / num_ranges
                };
                let gi: usize = if gi0 < n_groups {
                    gi0
                } else {
                    n_groups - 1
                };
                proof {
                    assert(gi as int == spec_group_of(
                        i2 as int,
                        num_ranges as int,
                        self.ranges@.len() as int,
                    ));
                }
                let sr = self.ranges[gi];
                let ghost suffix_before = spec_clamp_ranges(
                    rs@,
                    self.ranges@,
                    num_ranges as int,
                    i2 as int,
                    prev_end,
                );
                if sr.start <= sr.end {
                    let mut start = rs[i2].start;
                    if start < sr.start {
                        start = sr.start;
                    }
                    let mut end = rs[i2].end;
                    if end < start {
                        end = start;
                    }
                    if end > sr.end {
                        end = sr.end;
                    }
                    if end < start {
                        end = start;
                    }
                    if prev_end > start {
                        start = prev_end;
                        if end < start {
                            end = start;
                        }
                    }
                    let ghost before_out = out@;
                    let ghost pe0 = prev_end;
                    proof {
                        assert((Range { start, end }) == spec_clamp_one(
                            rs@[i2 as int],
                            sr,
                            pe0,
                        ));
                    }
                    out.push(Range { start, end });
                    prev_end = end;
                    proof {
                        assert(suffix_before =~= seq![Range { start, end }] + spec_clamp_ranges(
                            rs@,
                            self.ranges@,
                            num_ranges as int,
                            i2 + 1,
                            end,
                        ));
                        assert(out@ + spec_clamp_ranges(
                            rs@,
                            self.ranges@,
                            num_ranges as int,
                            i2 + 1,
                            end,
                        ) =~= target);
                        assert(pe0 <= start);
                        assert forall|a: int, b: int|
                            0 <= a < b < out@.len() implies (#[trigger] out@[a]).end <= (
                        #[trigger] out@[b]).start by {
                            if b < out@.len() - 1 {
                                assert(out@[a] == before_out[a] && out@[b] == before_out[b]);
                            } else {
                                assert(out@[a] == before_out[a]);
                                assert(before_out[a].end <= pe0);
                            }
                        }
                    }
                }
                i2 += 1;
            }
            tmp.ranges = out;
            self.tabstops.set_and_swap(t, &mut tmp);
            t += 1;
        }
    }

    /// Splices a freshly rendered snippet's tabstops into this session at
    /// the active tabstop's position: the inserted snippet's internal
    /// parent links shift by the insertion offset, and its top-level
    /// tabstops are re-parented to the active tabstop's own parent, so the
    /// outer ancestor chain is unaffected. The tabstop count grows by
    /// exactly the inserted snippet's count.
    pub fn insert_snippet(&mut self, snippet: RenderedSnippet)
        requires
            old(self).wf(),
            forall|t: int|
                0 <= t < snippet.tabstops@.len() ==> (match (#[trigger] snippet.tabstops@[t]).parent {
                    Some(p) => p.0 < snippet.tabstops@.len(),
                    None => true,
                }),
            snippet.tabstops@.len() + old(self).spec_tabstops().len() <= usize::MAX,
        ensures
            final(self).wf(),
            final(self).spec_active() == old(self).spec_active(),
            final(self).spec_active_set() == old(self).spec_active_set(),
            final(self).spec_ranges() == old(self).spec_ranges(),
            final(self).spec_tabstops().len() == old(self).spec_tabstops().len()
                + snippet.tabstops@.len(),
            forall|k: int|
                0 <= k < old(self).spec_active() ==> #[trigger] final(self).spec_tabstops()[k]
                    == old(self).spec_tabstops()[k],
            forall|k: int|
                0 <= k < snippet.tabstops@.len() ==> ((#[trigger] final(self).spec_tabstops()[old(self).spec_active() + k]).ranges == snippet.tabstops@[k].ranges && final(self).spec_tabstops()[old(self).spec_active() + k].kind == snippet.tabstops@[k].kind
                    && final(self).spec_tabstops()[old(self).spec_active() + k].parent == (
                match snippet.tabstops@[k].parent {
                    Some(p) => Some(TabstopIdx((p.0 + old(self).spec_active()) as usize)),
                    None => old(self).spec_tabstops()[old(self).spec_active() as int].parent,
                })),
            forall|k: int|
                old(self).spec_active() + snippet.tabstops@.len() <= k < final(self).spec_tabstops().len() ==> #[trigger] final(self).spec_tabstops()[k] == old(self).spec_tabstops()[k - snippet.tabstops@.len() as int],
    {
        let pos = self.active_tabstop.0;
        let outer_parent = self.tabstops[pos].parent;
        let mut old_tabs: Vec<Tabstop> = Vec::new();
        core::mem::swap(&mut self.tabstops, &mut old_tabs);
        let old_len = old_tabs.len();
        let ghost old_view = old_tabs@;
        let RenderedSnippet { tabstops: ins, ranges: _ } = snippet;
        let mut ins = ins;
        let ins_len = ins.len();
        let ghost ins_view = ins@;
        let ghost n_ins = ins@.len();
        let mut out: Vec<Tabstop> = Vec::new();
        let mut k: usize = 0;
        while k < pos
            invariant
                0 <= k <= pos,
                pos < old_view.len(),
                old_view.len() == old_len,
                n_ins == ins_len,
                out@.len() == k,
                old_tabs@ =~= old_view.subrange(k as int, old_view.len() as int),
                forall|j: int| 0 <= j < k ==> #[trigger] out@[j] == old_view[j],
            decreases pos - k,
        {
            proof {
                assert(old_tabs@[0] == old_view[k as int]);
            }
            let rec = old_tabs.remove(0);
            proof {
                assert(old_tabs@ =~= old_view.subrange(k + 1, old_view.len() as int));
            }
            out.push(rec);
            k += 1;
        }
        let mut j: usize = 0;
        while ins.len() > 0
            invariant
                0 <= j <= n_ins,
                old_view.len() == old_len,
                n_ins == ins_len,
                old_tabs@ =~= old_view.subrange(pos as int, old_view.len() as int),
                j + ins@.len() == n_ins,
                ins@ =~= ins_view.subrange(j as int, n_ins as int),
                pos < old_view.len(),
                pos + n_ins <= usize::MAX,
                forall|t: int|
                    0 <= t < ins_view.len() ==> (match (#[trigger] ins_view[t]).parent {
                        Some(p) => p.0 < ins_view.len(),
                        None => true,
                    }),
                n_ins == ins_view.len(),
                out@.len() == pos + j,
                forall|q: int| 0 <= q < pos ==> #[trigger] out@[q] == old_view[q],
                forall|q: int|
                    0 <= q < j ==> ((#[trigger] out@[pos + q]).ranges == ins_view[q].ranges
                        && out@[pos + q].kind == ins_view[q].kind && out@[pos + q].parent == (
                    match ins_view[q].parent {
                        Some(p) => Some(TabstopIdx((p.0 + pos) as usize)),
                        None => old_view[pos as int].parent,
                    })),
                outer_parent == old_view[pos as int].parent,
            decreases ins@.len(),
        {
            proof {
                assert(ins@[0] == ins_view[j as int]);
            }
            let mut rec = ins.remove(0);
            proof {
                assert(ins@ =~= ins_view.subrange(j + 1, n_ins as int));
            }
            // only the parent link changes: internal parents shift by the
            // insertion offset, top-level ones anchor to the outer parent
            let parent = match rec.parent {
                Some(p) => Some(TabstopIdx(p.0 + pos)),
                None => outer_parent,
            };
            rec.parent = parent;
            out.push(rec);
            j += 1;
        }
        let mut m: usize = 0;
        while old_tabs.len() > 0
            invariant
                0 <= m,
                pos < old_view.len(),
                old_view.len() == old_len,
                n_ins == ins_len,
                n_ins == ins_view.len(),
                pos + n_ins <= usize::MAX,
                m + old_tabs@.len() + pos == old_view.len(),
                old_tabs@ =~= old_view.subrange(pos + m, old_view.len() as int),
                out@.len() == pos + n_ins + m,
                forall|q: int| 0 <= q < pos ==> #[trigger] out@[q] == old_view[q],
                forall|q: int|
                    0 <= q < n_ins ==> ((#[trigger] out@[pos + q]).ranges == ins_view[q].ranges
                        && out@[pos + q].kind == ins_view[q].kind && out@[pos + q].parent == (
                    match ins_view[q].parent {
                        Some(p) => Some(TabstopIdx((p.0 + pos) as usize)),
                        None => old_view[pos as int].parent,
                    })),
                forall|t2: int|
                    0 <= t2 < ins_view.len() ==> (match (#[trigger] ins_view[t2]).parent {
                        Some(p) => p.0 < ins_view.len(),
                        None => true,
                    }),
                forall|q: int|
                    0 <= q < m ==> #[trigger] out@[pos + n_ins + q] == old_view[pos + q],
            decreases old_tabs@.len(),
        {
            proof {
                assert(old_tabs@[0] == old_view[pos + m]);
            }
            let rec = old_tabs.remove(0);
            proof {
                assert(old_tabs@ =~= old_view.subrange(pos + m + 1, old_view.len() as int));
            }
            out.push(rec);
            m += 1;
        }
        proof {
            assert(old_view == old(self).spec_tabstops());
            assert(pos == old(self).spec_active());
            assert(out@.len() == old_view.len() + n_ins);
            assert forall|t2: int|
                0 <= t2 < out@.len() implies (match (#[trigger] out@[t2]).parent {
                Some(p) => p.0 < out@.len(),
                None => true,
            }) by {
                if t2 < pos {
                    assert(out@[t2] == old_view[t2]);
                    assert((match old_view[t2].parent {
                        Some(p) => p.0 < old_view.len(),
                        None => true,
                    }));
                } else if t2 < pos + n_ins {
                    let q = t2 - pos;
                    assert(0 <= q < n_ins);
                    assert((#[trigger] out@[pos + q]).ranges == ins_view[q].ranges);
                    assert((match ins_view[q].parent {
                        Some(p) => p.0 < ins_view.len(),
                        None => true,
                    }));
                } else {
                    let q = t2 - pos - n_ins;
                    assert(0 <= q < old_view.len() - pos);
                    assert(out@[pos + n_ins + q] == old_view[pos + q]);
                    assert(out@[t2] == old_view[t2 - n_ins]);
                    assert((match old_view[t2 - n_ins].parent {
                        Some(p) => p.0 < old_view.len(),
                        None => true,
                    }));
                }
            }
            assert forall|k2: int|
                0 <= k2 < n_ins implies ((#[trigger] out@[pos + k2]).ranges
                == ins_view[k2].ranges && out@[pos + k2].kind == ins_view[k2].kind && out@[pos
                + k2].parent == (match ins_view[k2].parent {
                Some(p) => Some(TabstopIdx((p.0 + pos) as usize)),
                None => old_view[pos as int].parent,
            })) by {}
            assert forall|k2: int|
                pos + n_ins <= k2 < out@.len() implies #[trigger] out@[k2] == old_view[k2
                - n_ins] by {
                let q = k2 - pos - n_ins;
                assert(0 <= q < old_view.len() - pos);
                assert(out@[pos + n_ins + q] == old_view[pos + q]);
            }
        }
        self.tabstops = out;
    }
}

} // verus!
