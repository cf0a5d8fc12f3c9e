//! Host-facing value types: navigation direction, selections, and the edit
//! batch abstraction that remaps character positions with a directional
//! bias.

use vstd::prelude::*;

use crate::range::Range;

verus! {

/// The direction of tabstop navigation.
#[derive(Debug, Clone, Copy, PartialEq, Eq, Structural)]
pub enum Direction {
    Forward,
    Backward,
}

/// One selection range: an anchor and a head, either order.
#[derive(Debug, Clone, Copy, PartialEq, Eq, Structural)]
pub struct SelRange {
    pub anchor: usize,
    pub head: usize,
}

impl SelRange {
    pub open spec fn spec_min(self) -> usize {
        if self.anchor <= self.head {
            self.anchor
        } else {
            self.head
        }
    }

    pub open spec fn spec_max(self) -> usize {
        if self.anchor <= self.head {
            self.head
        } else {
            self.anchor
        }
    }

    pub fn new(anchor: usize, head: usize) -> (r: SelRange)
        ensures
            r.anchor == anchor,
            r.head == head,
    {
        SelRange { anchor, head }
    }

    /// Swaps anchor and head.
    pub fn flip(self) -> (r: SelRange)
        ensures
            r.anchor == self.head,
            r.head == self.anchor,
    {
        SelRange { anchor: self.head, head: self.anchor }
    }

    /// The equivalent ordered half-open range.
    pub fn to_range(self) -> (r: Range)
        ensures
            r.start == self.spec_min(),
            r.end == self.spec_max(),
    {
        if self.anchor <= self.head {
            Range { start: self.anchor, end: self.head }
        } else {
            Range { start: self.head, end: self.anchor }
        }
    }
}

/// An ordered set of selection ranges with one designated primary range.
#[derive(Debug, PartialEq)]
pub struct Selection {
    pub ranges: Vec<SelRange>,
    pub primary_index: usize,
}

impl Selection {
    /// At least one range, and the primary index points at one of them.
    pub open spec fn wf(self) -> bool {
        self.ranges@.len() > 0 && self.primary_index < self.ranges@.len()
    }

    pub fn new(ranges: Vec<SelRange>, primary_index: usize) -> (r: Selection)
        requires
            ranges@.len() > 0,
            primary_index < ranges@.len(),
        ensures
            r.ranges == ranges,
            r.primary_index == primary_index,
            r.wf(),
    {
        Selection { ranges, primary_index }
    }

    pub fn primary(&self) -> (r: SelRange)
        requires
            self.wf(),
        ensures
            r == self.ranges@[self.primary_index as int],
    {
        self.ranges[self.primary_index]
    }

    /// The ordered `(start, end)` bounds of every range, in order.
    pub fn range_bounds(&self) -> (r: Vec<Range>)
        ensures
            r@.len() == self.ranges@.len(),
            forall|i: int|
                0 <= i < r@.len() ==> (#[trigger] r@[i]).start == self.ranges@[i].spec_min()
                    && r@[i].end == self.ranges@[i].spec_max(),
    {
        let mut out: Vec<Range> = Vec::new();
        let mut i: usize = 0;
        while i < self.ranges.len()
            invariant
                0 <= i <= self.ranges@.len(),
                out@.len() == i,
                forall|k: int|
                    0 <= k < i ==> (#[trigger] out@[k]).start == self.ranges@[k].spec_min()
                        && out@[k].end == self.ranges@[k].spec_max(),
            decreases self.ranges@.len() - i,
        {
            out.push(self.ranges[i].to_range());
            i += 1;
        }
        out
    }
}

/// The directional bias of a mapped position: whether text inserted exactly
/// at the position lands after it (`Before` keeps the position in front of
/// the insertion) or before it (`After` pushes the position past it).
#[derive(Debug, Clone, Copy, PartialEq, Eq, Structural)]
pub enum Assoc {
    Before,
    After,
}

/// One primitive operation of an edit batch, in document order.
#[derive(Debug, Clone, Copy, PartialEq, Eq, Structural)]
pub enum Op {
    /// Keep the next `n` characters.
    Retain(usize),
    /// Insert `n` characters at the current position.
    Insert(usize),
    /// Delete the next `n` characters.
    Delete(usize),
}

/// An edit batch: a sequence of retain, insert and delete operations
/// applied left to right over the document.
#[derive(Debug, PartialEq)]
pub struct ChangeSet {
    pub ops: Vec<Op>,
}

/// Where `pos` lands after the batch, starting from old-text offset
/// `old_off` and new-text offset `new_off`. A position inside a deleted
/// span collapses to the deletion point; a position exactly at an insertion
/// stays before the inserted text under `Assoc::Before` and moves after it
/// under `Assoc::After`.
pub open spec fn spec_map_pos_from(
    ops: Seq<Op>,
    pos: int,
    assoc: Assoc,
    old_off: int,
    new_off: int,
) -> int
    decreases ops.len(),
{
    if ops.len() == 0 {
        new_off + (pos - old_off)
    } else {
        match ops[0] {
            Op::Retain(n) => if pos < old_off + n {
                new_off + (pos - old_off)
            } else {
                spec_map_pos_from(ops.drop_first(), pos, assoc, old_off + n, new_off + n)
            },
            Op::Delete(n) => if pos < old_off + n {
                new_off
            } else {
                spec_map_pos_from(ops.drop_first(), pos, assoc, old_off + n, new_off)
            },
            Op::Insert(n) => if pos == old_off && assoc is Before {
                new_off
            } else {
                spec_map_pos_from(ops.drop_first(), pos, assoc, old_off, new_off + n)
            },
        }
    }
}

/// The mapped position, saturated to `usize::MAX`.
pub open spec fn spec_map_pos(ops: Seq<Op>, pos: int, assoc: Assoc) -> int {
    let exact = spec_map_pos_from(ops, pos, assoc, 0, 0);
    if exact <= usize::MAX {
        exact
    } else {
        usize::MAX as int
    }
}

/// The mapped position never falls below the running new-text offset.
proof fn lemma_map_pos_lower(ops: Seq<Op>, pos: int, assoc: Assoc, old_off: int, new_off: int)
    requires
        pos >= old_off,
    ensures
        spec_map_pos_from(ops, pos, assoc, old_off, new_off) >= new_off,
    decreases ops.len(),
{
    if ops.len() > 0 {
        match ops[0] {
            Op::Retain(n) => {
                if !(pos < old_off + n) {
                    lemma_map_pos_lower(ops.drop_first(), pos, assoc, old_off + n, new_off + n);
                }
            },
            Op::Delete(n) => {
                if !(pos < old_off + n) {
                    lemma_map_pos_lower(ops.drop_first(), pos, assoc, old_off + n, new_off);
                }
            },
            Op::Insert(n) => {
                if !(pos == old_off && assoc is Before) {
                    lemma_map_pos_lower(ops.drop_first(), pos, assoc, old_off, new_off + n);
                }
            },
        }
    }
}

impl ChangeSet {
    pub fn new(ops: Vec<Op>) -> (r: ChangeSet)
        ensures
            r.ops == ops,
    {
        ChangeSet { ops }
    }

    /// Remaps one position through the batch with the given bias. The
    /// result saturates at `usize::MAX` if the mapped position does not
    /// fit, which cannot happen for positions inside a real document.
    pub fn map_pos(&self, pos: usize, assoc: Assoc) -> (r: usize)
        ensures
            r as int == spec_map_pos(self.ops@, pos as int, assoc),
    {
        let mut old_off: usize = 0;
        let mut new_off: usize = 0;
        let mut k: usize = 0;
        let n = self.ops.len();
        proof {
            assert(self.ops@.subrange(0, n as int) =~= self.ops@);
        }
        loop
            invariant
                0 <= k <= n,
                n == self.ops@.len(),
                pos >= old_off,
                spec_map_pos_from(self.ops@, pos as int, assoc, 0, 0) == spec_map_pos_from(
                    self.ops@.subrange(k as int, n as int),
                    pos as int,
                    assoc,
                    old_off as int,
                    new_off as int,
                ),
            decreases n - k,
        {
            let ghost rest = self.ops@.subrange(k as int, n as int);
            if k == n {
                proof {
                    assert(rest.len() == 0);
                }
                let delta = pos - old_off;
                if new_off <= usize::MAX - delta {
                    return new_off + delta;
                } else {
                    return usize::MAX;
                }
            }
            let op = self.ops[k];
            proof {
                assert(rest[0] == self.ops@[k as int]);
                assert(rest.drop_first() =~= self.ops@.subrange(k + 1, n as int));
            }
            match op {
                Op::Retain(len) => {
                    if pos - old_off < len {
                        let delta = pos - old_off;
                        if new_off <= usize::MAX - delta {
                            return new_off + delta;
                        } else {
                            return usize::MAX;
                        }
                    }
                    old_off = old_off + len;
                    if new_off <= usize::MAX - len {
                        new_off = new_off + len;
                    } else {
                        proof {
                            lemma_map_pos_lower(
                                rest.drop_first(),
                                pos as int,
                                assoc,
                                old_off as int,
                                new_off as int + len as int,
                            );
                        }
                        return usize::MAX;
                    }
                },
                Op::Delete(len) => {
                    if pos - old_off < len {
                        return new_off;
                    }
                    old_off = old_off + len;
                },
                Op::Insert(len) => {
                    if pos == old_off && matches!(assoc, Assoc::Before) {
                        return new_off;
                    }
                    if new_off <= usize::MAX - len {
                        new_off = new_off + len;
                    } else {
                        proof {
                            lemma_map_pos_lower(
                                rest.drop_first(),
                                pos as int,
                                assoc,
                                old_off as int,
                                new_off as int + len as int,
                            );
                        }
                        return usize::MAX;
                    }
                },
            }
            k += 1;
        }
    }
}

} // verus!
