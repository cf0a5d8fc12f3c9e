//! Rendering: an elaborated snippet plus variable values and an
//! indentation-aware newline produce inserted text and, per tabstop, the
//! character ranges it occupies in that text. Multiple insertion points are
//! rendered in one pass.

use vstd::prelude::*;
use vstd::pervasive::VecAdditionalExecFns;

use crate::elaborate;
use crate::elaborate::{below, elem_closed, elems_closed, Snippet, SnippetElement};
use crate::host::{Direction, SelRange, Selection};
use crate::range::Range;
use crate::transform::{
    clone_chars,
    push_chars,
    regex_builds,
    spec_apply_transform,
    transform_eq,
    Transform,
};
use crate::TabstopIdx;

verus! {

/// What a rendered tabstop offers. `Placeholder` is assigned lazily: a
/// tabstop starts as `Empty` and is promoted only when rendering its
/// default produced text.
#[derive(Debug, PartialEq)]
pub enum TabstopKind {
    Choice { choices: Vec<Vec<char>> },
    Placeholder,
    Empty,
    Transform(Transform),
}

/// A rendered tabstop: its character ranges in the rendered text (one or
/// more per insertion point, in order), its parent and its kind.
#[derive(Debug, PartialEq)]
pub struct Tabstop {
    pub ranges: Vec<Range>,
    pub parent: Option<TabstopIdx>,
    pub kind: TabstopKind,
}

/// The rendered tabstop table plus one top-level range per insertion point.
#[derive(Debug, PartialEq)]
pub struct RenderedSnippet {
    pub tabstops: Vec<Tabstop>,
    pub ranges: Vec<Range>,
}

/// Elementwise view equality of choice lists.
pub open spec fn choices_eq(a: Seq<Vec<char>>, b: Seq<Vec<char>>) -> bool {
    a.len() == b.len() && forall|i: int| 0 <= i < a.len() ==> (#[trigger] a[i])@ == (
    #[trigger] b[i])@
}

/// The rendered kind a tabstop starts with, given its elaborated kind.
pub open spec fn kind_matches(src: elaborate::TabstopKind, dst: TabstopKind) -> bool {
    match src {
        elaborate::TabstopKind::Choice { choices } => dst matches TabstopKind::Choice {
            choices: c2 } && choices_eq(choices@, c2@),
        elaborate::TabstopKind::Placeholder { .. } => dst is Empty,
        elaborate::TabstopKind::Empty => dst is Empty,
        elaborate::TabstopKind::Transform(t) => dst matches TabstopKind::Transform(t2)
            && transform_eq(t, t2),
    }
}

/// Rendering may only promote an `Empty` rendered kind to `Placeholder`,
/// and only where the elaborated kind is a placeholder.
pub open spec fn kinds_consistent(src: Seq<elaborate::Tabstop>, dst: Seq<Tabstop>) -> bool {
    dst.len() == src.len() && forall|t: int|
        0 <= t < src.len() ==> (((#[trigger] dst[t]).kind is Placeholder) ==> (
        #[trigger] src[t]).kind is Placeholder) && ((src[t].kind is Placeholder) ==> (
        dst[t].kind is Empty || dst[t].kind is Placeholder))
}

/// `y` is `x` with zero or more ranges appended, all lying inside the
/// window `[lo, hi]`, and possibly a promotion from `Empty` to
/// `Placeholder`.
pub open spec fn tabstop_extended(x: Tabstop, y: Tabstop, lo: int, hi: int) -> bool {
    &&& y.parent == x.parent
    &&& (y.kind == x.kind || (x.kind is Empty && y.kind is Placeholder))
    &&& x.ranges@.is_prefix_of(y.ranges@)
    &&& forall|k: int|
        x.ranges@.len() <= k < y.ranges@.len() ==> lo <= (#[trigger] y.ranges@[k]).start
            && y.ranges@[k].start <= y.ranges@[k].end && y.ranges@[k].end <= hi
}

pub open spec fn tabstops_extended(a: Seq<Tabstop>, b: Seq<Tabstop>, lo: int, hi: int) -> bool {
    b.len() == a.len() && forall|t: int|
        0 <= t < a.len() ==> tabstop_extended(#[trigger] a[t], b[t], lo, hi)
}

proof fn lemma_extended_trans(
    a: Seq<Tabstop>,
    b: Seq<Tabstop>,
    c: Seq<Tabstop>,
    lo: int,
    mid: int,
    hi: int,
)
    requires
        tabstops_extended(a, b, lo, mid),
        tabstops_extended(b, c, mid, hi),
        lo <= mid <= hi,
    ensures
        tabstops_extended(a, c, lo, hi),
{
    assert forall|t: int| 0 <= t < a.len() implies tabstop_extended(
        #[trigger] a[t],
        c[t],
        lo,
        hi,
    ) by {
        assert(tabstop_extended(a[t], b[t], lo, mid));
        assert(tabstop_extended(b[t], c[t], mid, hi));
        let ar = a[t].ranges@;
        let br = b[t].ranges@;
        let cr = c[t].ranges@;
        assert(ar.is_prefix_of(cr)) by {
            assert forall|k: int| 0 <= k < ar.len() implies ar[k] == cr[k] by {
                assert(ar[k] == br.subrange(0, ar.len() as int)[k]);
                assert(br[k] == cr.subrange(0, br.len() as int)[k]);
            }
            assert(ar =~= cr.subrange(0, ar.len() as int));
        }
        assert forall|k: int| ar.len() <= k < cr.len() implies lo <= (#[trigger] cr[k]).start
            && cr[k].start <= cr[k].end && cr[k].end <= hi by {
            if k < br.len() {
                assert(br[k] == cr.subrange(0, br.len() as int)[k]);
                assert(cr[k] == br[k]);
            }
        }
    }
}

/// Saturating addition on character offsets.
pub open spec fn sat_add(a: int, b: int) -> int {
    if a + b <= usize::MAX {
        a + b
    } else {
        usize::MAX as int
    }
}

fn sat_add_usize(a: usize, b: usize) -> (r: usize)
    ensures
        r as int == sat_add(a as int, b as int),
{
    if a <= usize::MAX - b {
        a + b
    } else {
        usize::MAX
    }
}

/// Appends one range to a tabstop's list, optionally promoting its kind to
/// `Placeholder`, leaving every other tabstop unchanged.
fn push_tabstop_range(tabstops: &mut Vec<Tabstop>, i: usize, rg: Range, promote: bool)
    requires
        i < old(tabstops)@.len(),
    ensures
        final(tabstops)@.len() == old(tabstops)@.len(),
        final(tabstops)@[i as int].ranges@ == old(tabstops)@[i as int].ranges@.push(rg),
        final(tabstops)@[i as int].parent == old(tabstops)@[i as int].parent,
        promote ==> final(tabstops)@[i as int].kind is Placeholder,
        !promote ==> final(tabstops)@[i as int].kind == old(tabstops)@[i as int].kind,
        forall|t: int|
            0 <= t < old(tabstops)@.len() && t != i ==> final(tabstops)@[t] == old(tabstops)@[t],
{
    let mut tmp = Tabstop { ranges: Vec::new(), parent: None, kind: TabstopKind::Empty };
    tabstops.set_and_swap(i, &mut tmp);
    tmp.ranges.push(rg);
    if promote {
        tmp.kind = TabstopKind::Placeholder;
    }
    tabstops.set_and_swap(i, &mut tmp);
}

/// The literal text `t` with every line break replaced by the
/// caller-supplied newline-plus-indentation `nl`. A carriage return
/// immediately before a line break, or ending the text (the end of its
/// line), is dropped; any other `'\r'` is kept.
pub open spec fn expand_text_from(t: Seq<char>, nl: Seq<char>, i: int) -> Seq<char>
    decreases t.len() - i,
    when 0 <= i <= t.len()
{
    if i == t.len() {
        Seq::empty()
    } else if t[i] == '\r' && (i + 1 == t.len() || t[i + 1] == '\n') {
        expand_text_from(t, nl, i + 1)
    } else if t[i] == '\n' {
        nl + expand_text_from(t, nl, i + 1)
    } else {
        seq![t[i]] + expand_text_from(t, nl, i + 1)
    }
}

/// Appends a literal text run, re-indenting line breaks.
fn render_text_run(t: &Vec<char>, nl: &Vec<char>, text: &mut Vec<char>)
    ensures
        final(text)@ == old(text)@ + expand_text_from(t@, nl@, 0),
{
    let ghost entry = text@;
    let mut i: usize = 0;
    while i < t.len()
        invariant
            0 <= i <= t@.len(),
            entry + expand_text_from(t@, nl@, 0) == text@ + expand_text_from(t@, nl@, i as int),
        decreases t@.len() - i,
    {
        let c = t[i];
        if c == '\r' && (i + 1 == t.len() || t[i + 1] == '\n') {
            // dropped: the end of its line
        } else if c == '\n' {
            push_chars(text, nl);
        } else {
            text.push(c);
            proof {
                assert(seq![t@[i as int]] + expand_text_from(t@, nl@, i + 1) =~= seq![
                    t@[i as int],
                ].add(expand_text_from(t@, nl@, i + 1)));
            }
        }
        i += 1;
    }
    proof {
        assert(expand_text_from(t@, nl@, t@.len() as int) =~= Seq::<char>::empty());
        assert(text@ =~= text@ + Seq::<char>::empty());
        assert(final(text)@ == text@);
    }
}

/// Variable values supplied by the host, by name.
#[derive(Debug, PartialEq)]
pub struct VarBindings {
    pub entries: Vec<(Vec<char>, Vec<char>)>,
}

/// The first value bound to `name`, if any.
pub open spec fn spec_resolve(entries: Seq<(Vec<char>, Vec<char>)>, name: Seq<char>) -> Option<
    Seq<char>,
>
    decreases entries.len(),
{
    if entries.len() == 0 {
        None
    } else if entries[0].0@ == name {
        Some(entries[0].1@)
    } else {
        spec_resolve(entries.drop_first(), name)
    }
}

fn chars_eq(a: &Vec<char>, b: &Vec<char>) -> (r: bool)
    ensures
        r == (a@ == b@),
{
    if a.len() != b.len() {
        return false;
    }
    let mut i: usize = 0;
    while i < a.len()
        invariant
            0 <= i <= a@.len(),
            a@.len() == b@.len(),
            forall|k: int| 0 <= k < i ==> a@[k] == b@[k],
        decreases a@.len() - i,
    {
        if a[i] != b[i] {
            return false;
        }
        i += 1;
    }
    proof {
        assert(a@ =~= b@);
    }
    true
}

impl VarBindings {
    pub fn new(entries: Vec<(Vec<char>, Vec<char>)>) -> (r: VarBindings)
        ensures
            r.entries == entries,
    {
        VarBindings { entries }
    }

    /// Looks the variable up by name.
    pub fn resolve(&self, name: &Vec<char>) -> (r: Option<&Vec<char>>)
        ensures
            match r {
                Some(v) => spec_resolve(self.entries@, name@) == Some(v@),
                None => spec_resolve(self.entries@, name@) is None,
            },
    {
        let mut i: usize = 0;
        proof {
            assert(self.entries@.subrange(0, self.entries@.len() as int) =~= self.entries@);
        }
        while i < self.entries.len()
            invariant
                0 <= i <= self.entries@.len(),
                spec_resolve(self.entries@, name@) == spec_resolve(
                    self.entries@.subrange(i as int, self.entries@.len() as int),
                    name@,
                ),
            decreases self.entries@.len() - i,
        {
            let ghost rest = self.entries@.subrange(i as int, self.entries@.len() as int);
            proof {
                assert(rest[0] == self.entries@[i as int]);
                assert(rest.drop_first() =~= self.entries@.subrange(
                    i + 1,
                    self.entries@.len() as int,
                ));
            }
            if chars_eq(&self.entries[i].0, name) {
                return Some(&self.entries[i].1);
            }
            i += 1;
        }
        proof {
            assert(self.entries@.subrange(
                self.entries@.len() as int,
                self.entries@.len() as int,
            ).len() == 0);
        }
        None
    }
}

/// `sel` is exactly the selection covering `t`'s ranges: one selection
/// range per tabstop range in order, anchor and head swapped when moving
/// backward, and the primary cursor scaled to `t`'s sub-ranges per
/// insertion point.
pub open spec fn selection_for(
    sel: Selection,
    t: Tabstop,
    direction: Direction,
    primary_idx: usize,
    snippet_ranges: usize,
) -> bool {
    &&& sel.ranges@.len() == t.ranges@.len()
    &&& forall|i: int|
        0 <= i < sel.ranges@.len() ==> (#[trigger] sel.ranges@[i]) == (match direction {
            Direction::Forward => SelRange { anchor: t.ranges@[i].start, head: t.ranges@[i].end },
            Direction::Backward => SelRange { anchor: t.ranges@[i].end, head: t.ranges@[i].start },
        })
    &&& sel.primary_index as int == primary_idx as int * (t.ranges@.len() as int
        / snippet_ranges as int)
}

impl Tabstop {
    /// The tabstop carries content to select on activation.
    pub fn has_placeholder(&self) -> (r: bool)
        ensures
            r == (self.kind is Choice || self.kind is Placeholder),
    {
        matches!(self.kind, TabstopKind::Choice { .. } | TabstopKind::Placeholder)
    }

    /// The selection covering this tabstop's ranges, flipped when moving
    /// backward, with the primary cursor scaled to this tabstop's number of
    /// sub-ranges per insertion point.
    pub fn selection(&self, direction: Direction, primary_idx: usize, snippet_ranges: usize) -> (r:
        Selection)
        requires
            self.ranges@.len() > 0,
            snippet_ranges > 0,
            primary_idx < snippet_ranges,
        ensures
            r.wf(),
            selection_for(r, *self, direction, primary_idx, snippet_ranges),
    {
        let mut ranges: Vec<SelRange> = Vec::new();
        let mut i: usize = 0;
        while i < self.ranges.len()
            invariant
                0 <= i <= self.ranges@.len(),
                ranges@.len() == i,
                forall|k: int|
                    0 <= k < i ==> (#[trigger] ranges@[k]) == (match direction {
                        Direction::Forward => SelRange {
                            anchor: self.ranges@[k].start,
                            head: self.ranges@[k].end,
                        },
                        Direction::Backward => SelRange {
                            anchor: self.ranges@[k].end,
                            head: self.ranges@[k].start,
                        },
                    }),
            decreases self.ranges@.len() - i,
        {
            let rg = self.ranges[i];
            let sel = match direction {
                Direction::Forward => SelRange { anchor: rg.start, head: rg.end },
                Direction::Backward => SelRange { anchor: rg.end, head: rg.start },
            };
            ranges.push(sel);
            i += 1;
        }
        let per_group = self.ranges.len() / snippet_ranges;
        proof {
            assert((primary_idx as int) * (per_group as int) < self.ranges@.len() as int) by (nonlinear_arith)
                requires
                    per_group as int == self.ranges@.len() as int / snippet_ranges as int,
                    0 < snippet_ranges,
                    primary_idx < snippet_ranges,
                    self.ranges@.len() > 0;
        }
        let primary = primary_idx * per_group;
        Selection::new(ranges, primary)
    }
}

impl RenderedSnippet {
    /// The selection of the first tabstop in the table.
    pub fn first_selection(&self, direction: Direction, primary_idx: usize) -> (r: Selection)
        requires
            self.tabstops@.len() > 0,
            self.tabstops@[0].ranges@.len() > 0,
            self.ranges@.len() > 0,
            primary_idx < self.ranges@.len(),
        ensures
            r.wf(),
            selection_for(r, self.tabstops@[0], direction, primary_idx, self.ranges@.len() as usize),
    {
        self.tabstops[0].selection(direction, primary_idx, self.ranges.len())
    }
}

impl Snippet {
    /// Allocates one rendered tabstop per elaborated tabstop, with empty
    /// range lists, carrying parents over and pre-populating the kinds of
    /// choices and transforms.
    pub fn prepare_render(&self) -> (r: RenderedSnippet)
        ensures
            r.tabstops@.len() == self.spec_tabstops().len(),
            forall|i: int|
                0 <= i < r.tabstops@.len() ==> (#[trigger] r.tabstops@[i]).parent
                    == self.spec_tabstops()[i].parent,
            forall|i: int|
                0 <= i < r.tabstops@.len() ==> (#[trigger] r.tabstops@[i]).ranges@.len() == 0,
            forall|i: int|
                0 <= i < r.tabstops@.len() ==> kind_matches(
                    self.spec_tabstops()[i].kind,
                    (#[trigger] r.tabstops@[i]).kind,
                ),
            kinds_consistent(self.spec_tabstops(), r.tabstops@),
            r.ranges@.len() == 0,
    {
        let src = self.tabstops();
        let mut tabstops: Vec<Tabstop> = Vec::new();
        let mut i: usize = 0;
        while i < src.len()
            invariant
                0 <= i <= src@.len(),
                src@ == self.spec_tabstops(),
                tabstops@.len() == i,
                forall|k: int|
                    0 <= k < i ==> (#[trigger] tabstops@[k]).parent == src@[k].parent,
                forall|k: int| 0 <= k < i ==> (#[trigger] tabstops@[k]).ranges@.len() == 0,
                forall|k: int|
                    0 <= k < i ==> kind_matches(src@[k].kind, (#[trigger] tabstops@[k]).kind),
            decreases src@.len() - i,
        {
            let kind = match &src[i].kind {
                elaborate::TabstopKind::Choice { choices } => {
                    let mut cs: Vec<Vec<char>> = Vec::new();
                    let mut j: usize = 0;
                    while j < choices.len()
                        invariant
                            0 <= j <= choices@.len(),
                            cs@.len() == j,
                            forall|k: int| 0 <= k < j ==> (#[trigger] cs@[k])@ == choices@[k]@,
                        decreases choices@.len() - j,
                    {
                        cs.push(clone_chars(&choices[j]));
                        j += 1;
                    }
                    TabstopKind::Choice { choices: cs }
                },
                elaborate::TabstopKind::Placeholder { .. } => TabstopKind::Empty,
                elaborate::TabstopKind::Empty => TabstopKind::Empty,
                elaborate::TabstopKind::Transform(t) => TabstopKind::Transform(t.clone()),
            };
            tabstops.push(Tabstop { ranges: Vec::new(), parent: src[i].parent, kind });
            i += 1;
        }
        RenderedSnippet { tabstops, ranges: Vec::new() }
    }
}

/// The text one element contributes: literal runs re-indented, a resolved
/// variable's value (with its transform applied where its pattern builds),
/// an unresolved variable's rendered default, and a placeholder tabstop's
/// rendered default content.
pub open spec fn spec_render_elem(
    ts: Seq<elaborate::Tabstop>,
    e: SnippetElement,
    depth: nat,
    nl: Seq<char>,
    vars: Seq<(Vec<char>, Vec<char>)>,
) -> Seq<char>
    decreases depth, e, 0int,
{
    match e {
        SnippetElement::Text(t) => expand_text_from(t@, nl, 0),
        SnippetElement::Variable { name, default, transform } => match spec_resolve(vars, name@) {
            Some(v) => match transform {
                Some(tr) => if regex_builds(tr.pattern@, tr.case_insensitive, tr.multi_line) {
                    spec_apply_transform(tr, v)
                } else {
                    Seq::empty()
                },
                None => v,
            },
            None => match default {
                Some(d) => spec_render_list(ts, d@, depth, nl, vars),
                None => Seq::empty(),
            },
        },
        SnippetElement::Tabstop { idx } => if idx.0 < ts.len() {
            match ts[idx.0 as int].kind {
                elaborate::TabstopKind::Placeholder { default } => if default@.len() > 0 && depth
                    > 0 {
                    spec_render_list(ts, default@, (depth - 1) as nat, nl, vars)
                } else {
                    Seq::empty()
                },
                _ => Seq::empty(),
            }
        } else {
            Seq::empty()
        },
    }
}

/// The text an element list contributes, left to right.
pub open spec fn spec_render_list(
    ts: Seq<elaborate::Tabstop>,
    es: Seq<SnippetElement>,
    depth: nat,
    nl: Seq<char>,
    vars: Seq<(Vec<char>, Vec<char>)>,
) -> Seq<char>
    decreases depth, es, 1int,
{
    if es.len() == 0 {
        Seq::empty()
    } else {
        spec_render_elem(ts, es[0], depth, nl, vars) + spec_render_list(
            ts,
            es.drop_first(),
            depth,
            nl,
            vars,
        )
    }
}

/// How many ranges the renderer records for tabstop `t` while walking one
/// element: one per reference to `t` reached, including references inside
/// a rendered placeholder default (under the depth guard) and inside an
/// unresolved variable's default.
pub open spec fn spec_ref_count(
    ts: Seq<elaborate::Tabstop>,
    e: SnippetElement,
    t: int,
    depth: nat,
    vars: Seq<(Vec<char>, Vec<char>)>,
) -> nat
    decreases depth, e, 0int,
{
    match e {
        SnippetElement::Text(_) => 0,
        SnippetElement::Variable { name, default, .. } => match spec_resolve(vars, name@) {
            Some(_) => 0,
            None => match default {
                Some(d) => spec_ref_counts(ts, d@, t, depth, vars),
                None => 0,
            },
        },
        SnippetElement::Tabstop { idx } => ((if idx.0 == t {
            1nat
        } else {
            0nat
        }) + (if idx.0 < ts.len() {
            match ts[idx.0 as int].kind {
                elaborate::TabstopKind::Placeholder { default } => if default@.len() > 0 && depth
                    > 0 {
                    spec_ref_counts(ts, default@, t, (depth - 1) as nat, vars)
                } else {
                    0nat
                },
                _ => 0nat,
            }
        } else {
            0nat
        })) as nat,
    }
}

pub open spec fn spec_ref_counts(
    ts: Seq<elaborate::Tabstop>,
    es: Seq<SnippetElement>,
    t: int,
    depth: nat,
    vars: Seq<(Vec<char>, Vec<char>)>,
) -> nat
    decreases depth, es, 1int,
{
    if es.len() == 0 {
        0
    } else {
        (spec_ref_count(ts, es[0], t, depth, vars) + spec_ref_counts(
            ts,
            es.drop_first(),
            t,
            depth,
            vars,
        )) as nat
    }
}

/// An offset clamped to `usize`.
pub open spec fn sat_usize(x: int) -> usize {
    if x <= usize::MAX {
        x as usize
    } else {
        usize::MAX
    }
}

/// The ranges recorded for tabstop `t` while rendering one element at
/// running character offset `off`: nothing for text and resolved
/// variables; an unresolved variable's default in place; for a tabstop
/// reference, the ranges recorded inside its rendered default followed by
/// its own range, spanning exactly the text the element contributes.
pub open spec fn spec_elem_ranges(
    ts: Seq<elaborate::Tabstop>,
    e: SnippetElement,
    t: int,
    depth: nat,
    nl: Seq<char>,
    vars: Seq<(Vec<char>, Vec<char>)>,
    off: int,
) -> Seq<Range>
    decreases depth, e, 0int,
{
    match e {
        SnippetElement::Text(_) => Seq::empty(),
        SnippetElement::Variable { name, default, .. } => match spec_resolve(vars, name@) {
            Some(_) => Seq::empty(),
            None => match default {
                Some(d) => spec_list_ranges(ts, d@, t, depth, nl, vars, off),
                None => Seq::empty(),
            },
        },
        SnippetElement::Tabstop { idx } => (if idx.0 < ts.len() {
            match ts[idx.0 as int].kind {
                elaborate::TabstopKind::Placeholder { default } => if default@.len() > 0 && depth
                    > 0 {
                    spec_list_ranges(ts, default@, t, (depth - 1) as nat, nl, vars, off)
                } else {
                    Seq::empty()
                },
                _ => Seq::empty(),
            }
        } else {
            Seq::empty()
        }) + (if idx.0 == t {
            seq![
                Range {
                    start: sat_usize(off),
                    end: sat_usize(
                        off + spec_render_elem(ts, e, depth, nl, vars).len(),
                    ),
                },
            ]
        } else {
            Seq::empty()
        }),
    }
}

/// The ranges recorded for tabstop `t` over an element list starting at
/// offset `off`, each element's offset advanced by the text the elements
/// before it contribute.
pub open spec fn spec_list_ranges(
    ts: Seq<elaborate::Tabstop>,
    es: Seq<SnippetElement>,
    t: int,
    depth: nat,
    nl: Seq<char>,
    vars: Seq<(Vec<char>, Vec<char>)>,
    off: int,
) -> Seq<Range>
    decreases depth, es, 1int,
{
    if es.len() == 0 {
        Seq::empty()
    } else {
        spec_elem_ranges(ts, es[0], t, depth, nl, vars, off) + spec_list_ranges(
            ts,
            es.drop_first(),
            t,
            depth,
            nl,
            vars,
            off + spec_render_elem(ts, es[0], depth, nl, vars).len(),
        )
    }
}

proof fn lemma_extended_refl(a: Seq<Tabstop>, lo: int, hi: int)
    requires
        lo <= hi,
    ensures
        tabstops_extended(a, a, lo, hi),
{
    assert forall|t: int| 0 <= t < a.len() implies tabstop_extended(
        #[trigger] a[t],
        a[t],
        lo,
        hi,
    ) by {
        assert(a[t].ranges@ =~= a[t].ranges@.subrange(0, a[t].ranges@.len() as int));
    }
}

proof fn lemma_prefix_trans<T>(a: Seq<T>, b: Seq<T>, c: Seq<T>)
    requires
        a.is_prefix_of(b),
        b.is_prefix_of(c),
    ensures
        a.is_prefix_of(c),
{
    assert forall|k: int| 0 <= k < a.len() implies a[k] == c[k] by {
        assert(a[k] == b.subrange(0, a.len() as int)[k]);
        assert(b[k] == c.subrange(0, b.len() as int)[k]);
    }
    assert(a =~= c.subrange(0, a.len() as int));
}

/// Renders one element: literal text re-indented, a variable resolved (its
/// transform applied, or its default rendered), or a tabstop reference,
/// recording the range the tabstop occupies and rendering a placeholder's
/// default content in place.
fn render_element(
    src: &Snippet,
    e: &SnippetElement,
    depth: usize,
    newline: &Vec<char>,
    vars: &VarBindings,
    pos: usize,
    dst: &mut RenderedSnippet,
    text: &mut Vec<char>,
)
    requires
        src.wf(),
        elem_closed(*e, below(src.spec_len())),
        old(dst).tabstops@.len() == src.spec_tabstops().len(),
        kinds_consistent(src.spec_tabstops(), old(dst).tabstops@),
    ensures
        old(text)@.is_prefix_of(final(text)@),
        final(text)@ == old(text)@ + spec_render_elem(
            src.spec_tabstops(),
            *e,
            depth as nat,
            newline@,
            vars.entries@,
        ),
        forall|t: int|
            0 <= t < old(dst).tabstops@.len() ==> (#[trigger] final(dst).tabstops@[t]).ranges@.len()
                == old(dst).tabstops@[t].ranges@.len() + spec_ref_count(
                src.spec_tabstops(),
                *e,
                t,
                depth as nat,
                vars.entries@,
            ),
        forall|t: int|
            0 <= t < old(dst).tabstops@.len() ==> (#[trigger] final(dst).tabstops@[t]).ranges@
                == old(dst).tabstops@[t].ranges@ + spec_elem_ranges(
                src.spec_tabstops(),
                *e,
                t,
                depth as nat,
                newline@,
                vars.entries@,
                pos + old(text)@.len(),
            ),
        tabstops_extended(
            old(dst).tabstops@,
            final(dst).tabstops@,
            sat_add(pos as int, old(text)@.len() as int),
            sat_add(pos as int, final(text)@.len() as int),
        ),
        kinds_consistent(src.spec_tabstops(), final(dst).tabstops@),
        final(dst).ranges@ == old(dst).ranges@,
    decreases depth, *e, 0int,
{
    let ghost entry_tabs = dst.tabstops@;
    let ghost entry_text = text@;
    let ghost ge = *e;
    match e {
        SnippetElement::Text(t) => {
            render_text_run(t, newline, text);
            proof {
                assert(entry_text.is_prefix_of(text@)) by {
                    assert(entry_text =~= text@.subrange(0, entry_text.len() as int));
                }
                lemma_extended_refl(
                    dst.tabstops@,
                    sat_add(pos as int, entry_text.len() as int),
                    sat_add(pos as int, text@.len() as int),
                );
                assert forall|t: int| 0 <= t < entry_tabs.len() implies (
                #[trigger] dst.tabstops@[t]).ranges@ == entry_tabs[t].ranges@ + Seq::<
                    Range,
                >::empty() by {
                    assert(entry_tabs[t].ranges@ + Seq::<Range>::empty() =~= entry_tabs[t].ranges@);
                }
            }
        },
        SnippetElement::Variable { name, default, transform } => {
            let resolved = vars.resolve(name);
            match resolved {
                Some(val) => {
                    match transform {
                        Some(tr) => {
                            tr.apply(val, text);
                        },
                        None => {
                            push_chars(text, val);
                        },
                    }
                    proof {
                        assert(entry_text.is_prefix_of(text@)) by {
                            assert(entry_text =~= text@.subrange(0, entry_text.len() as int));
                        }
                        lemma_extended_refl(
                            dst.tabstops@,
                            sat_add(pos as int, entry_text.len() as int),
                            sat_add(pos as int, text@.len() as int),
                        );
                        assert forall|t: int| 0 <= t < entry_tabs.len() implies (
                        #[trigger] dst.tabstops@[t]).ranges@ == entry_tabs[t].ranges@ + Seq::<
                            Range,
                        >::empty() by {
                            assert(entry_tabs[t].ranges@ + Seq::<Range>::empty()
                                =~= entry_tabs[t].ranges@);
                        }
                    }
                },
                None => {
                    match default {
                        Some(d) => {
                            proof {
                                assert(decreases_to!(ge => ge->default));
                                assert(decreases_to!(ge->default => ge->default->0));
                                assert(decreases_to!(ge->default->0 => ge->default->0@));
                                assert(elems_closed(d@, below(src.spec_len())));
                            }
                            render_elements(src, d, depth, newline, vars, pos, dst, text);
                        },
                        None => {
                            proof {
                                assert(entry_text.is_prefix_of(text@)) by {
                                    assert(entry_text =~= text@.subrange(
                                        0,
                                        entry_text.len() as int,
                                    ));
                                }
                                lemma_extended_refl(
                                    dst.tabstops@,
                                    sat_add(pos as int, entry_text.len() as int),
                                    sat_add(pos as int, text@.len() as int),
                                );
                                assert forall|t: int| 0 <= t < entry_tabs.len() implies (
                                #[trigger] dst.tabstops@[t]).ranges@ == entry_tabs[t].ranges@
                                    + Seq::<Range>::empty() by {
                                    assert(entry_tabs[t].ranges@ + Seq::<Range>::empty()
                                        =~= entry_tabs[t].ranges@);
                                }
                            }
                        },
                    }
                },
            }
        },
        SnippetElement::Tabstop { idx } => {
            let ti = idx.0;
            proof {
                assert(below(src.spec_len()).contains(idx.0));
            }
            let start_off = sat_add_usize(pos, text.len());
            let mut promote = false;
            let tabs = src.tabstops();
            match &tabs[ti].kind {
                elaborate::TabstopKind::Placeholder { default } => {
                    if default.len() > 0 && depth > 0 {
                        proof {
                            assert(elaborate::kind_closed(
                                src.spec_tabstops()[ti as int].kind,
                                below(src.spec_len()),
                            ));
                        }
                        render_elements(src, default, depth - 1, newline, vars, pos, dst, text);
                        promote = true;
                    }
                },
                _ => {},
            }
            let end_off = sat_add_usize(pos, text.len());
            let ghost mid_tabs = dst.tabstops@;
            let ghost mid_text = text@;
            push_tabstop_range(
                &mut dst.tabstops,
                ti,
                Range { start: start_off, end: end_off },
                promote,
            );
            proof {
                let lo = sat_add(pos as int, entry_text.len() as int);
                let hi = sat_add(pos as int, mid_text.len() as int);
                if !promote {
                    assert(mid_tabs == entry_tabs && mid_text == entry_text);
                }
                assert(entry_text.is_prefix_of(mid_text)) by {
                    assert(entry_text =~= mid_text.subrange(0, entry_text.len() as int));
                }
                assert(tabstops_extended(entry_tabs, mid_tabs, lo, hi)) by {
                    if !promote {
                        lemma_extended_refl(entry_tabs, lo, hi);
                    }
                }
                // appending the recorded range keeps every window fact
                assert forall|t: int| 0 <= t < entry_tabs.len() implies tabstop_extended(
                    #[trigger] entry_tabs[t],
                    dst.tabstops@[t],
                    lo,
                    hi,
                ) by {
                    assert(tabstop_extended(entry_tabs[t], mid_tabs[t], lo, hi));
                    if t == ti {
                        assert(dst.tabstops@[t].ranges@ == mid_tabs[t].ranges@.push(
                            Range { start: start_off, end: end_off },
                        ));
                        assert forall|k: int|
                            entry_tabs[t].ranges@.len() <= k
                                < dst.tabstops@[t].ranges@.len() implies lo <= (
                        #[trigger] dst.tabstops@[t].ranges@[k]).start
                            && dst.tabstops@[t].ranges@[k].start <= dst.tabstops@[t].ranges@[k].end
                            && dst.tabstops@[t].ranges@[k].end <= hi by {
                            if k < mid_tabs[t].ranges@.len() {
                                assert(dst.tabstops@[t].ranges@[k] == mid_tabs[t].ranges@[k]);
                            } else {
                                assert(dst.tabstops@[t].ranges@[k] == (Range {
                                    start: start_off,
                                    end: end_off,
                                }));
                            }
                        }
                        assert(entry_tabs[t].ranges@.is_prefix_of(dst.tabstops@[t].ranges@)) by {
                            lemma_prefix_trans(
                                entry_tabs[t].ranges@,
                                mid_tabs[t].ranges@,
                                dst.tabstops@[t].ranges@,
                            );
                        }
                    } else {
                        assert(dst.tabstops@[t] == mid_tabs[t]);
                    }
                }
                assert(kinds_consistent(src.spec_tabstops(), dst.tabstops@));
                let off = pos + entry_text.len();
                assert forall|t2: int| 0 <= t2 < entry_tabs.len() implies (
                #[trigger] dst.tabstops@[t2]).ranges@ == entry_tabs[t2].ranges@ + spec_elem_ranges(
                    src.spec_tabstops(),
                    ge,
                    t2,
                    depth as nat,
                    newline@,
                    vars.entries@,
                    off,
                ) by {
                    let nested = spec_elem_ranges(
                        src.spec_tabstops(),
                        ge,
                        t2,
                        depth as nat,
                        newline@,
                        vars.entries@,
                        off,
                    );
                    if t2 == ti {
                        assert(dst.tabstops@[t2].ranges@ == mid_tabs[t2].ranges@.push(
                            (Range { start: start_off, end: end_off }),
                        ));
                        assert(start_off == sat_usize(off));
                        assert(end_off == sat_usize(
                            off + spec_render_elem(
                                src.spec_tabstops(),
                                ge,
                                depth as nat,
                                newline@,
                                vars.entries@,
                            ).len(),
                        ));
                        if !promote {
                            assert(mid_tabs == entry_tabs && mid_text == entry_text);
                            assert(mid_tabs[t2].ranges@ =~= entry_tabs[t2].ranges@ + Seq::<
                                Range,
                            >::empty());
                        }
                        assert(dst.tabstops@[t2].ranges@ =~= entry_tabs[t2].ranges@ + nested);
                    } else {
                        assert(dst.tabstops@[t2] == mid_tabs[t2]);
                        if !promote {
                            assert(mid_tabs[t2].ranges@ =~= entry_tabs[t2].ranges@ + nested);
                        }
                        assert(mid_tabs[t2].ranges@ == entry_tabs[t2].ranges@ + nested);
                    }
                }
            }
        },
    }
}

/// Renders a list of elements left to right.
fn render_elements(
    src: &Snippet,
    es: &Vec<SnippetElement>,
    depth: usize,
    newline: &Vec<char>,
    vars: &VarBindings,
    pos: usize,
    dst: &mut RenderedSnippet,
    text: &mut Vec<char>,
)
    requires
        src.wf(),
        elems_closed(es@, below(src.spec_len())),
        old(dst).tabstops@.len() == src.spec_tabstops().len(),
        kinds_consistent(src.spec_tabstops(), old(dst).tabstops@),
    ensures
        old(text)@.is_prefix_of(final(text)@),
        final(text)@ == old(text)@ + spec_render_list(
            src.spec_tabstops(),
            es@,
            depth as nat,
            newline@,
            vars.entries@,
        ),
        forall|t: int|
            0 <= t < old(dst).tabstops@.len() ==> (#[trigger] final(dst).tabstops@[t]).ranges@.len()
                == old(dst).tabstops@[t].ranges@.len() + spec_ref_counts(
                src.spec_tabstops(),
                es@,
                t,
                depth as nat,
                vars.entries@,
            ),
        forall|t: int|
            0 <= t < old(dst).tabstops@.len() ==> (#[trigger] final(dst).tabstops@[t]).ranges@
                == old(dst).tabstops@[t].ranges@ + spec_list_ranges(
                src.spec_tabstops(),
                es@,
                t,
                depth as nat,
                newline@,
                vars.entries@,
                pos + old(text)@.len(),
            ),
        tabstops_extended(
            old(dst).tabstops@,
            final(dst).tabstops@,
            sat_add(pos as int, old(text)@.len() as int),
            sat_add(pos as int, final(text)@.len() as int),
        ),
        kinds_consistent(src.spec_tabstops(), final(dst).tabstops@),
        final(dst).ranges@ == old(dst).ranges@,
    decreases depth, es@, 1int,
{
    let ghost entry_tabs = dst.tabstops@;
    let ghost entry_text = text@;
    let ghost entry_ranges = dst.ranges@;
    let ghost target = spec_render_list(
        src.spec_tabstops(),
        es@,
        depth as nat,
        newline@,
        vars.entries@,
    );
    let mut i: usize = 0;
    proof {
        assert(entry_text =~= text@.subrange(0, entry_text.len() as int));
        lemma_extended_refl(
            entry_tabs,
            sat_add(pos as int, entry_text.len() as int),
            sat_add(pos as int, text@.len() as int),
        );
        assert(es@.skip(0) =~= es@);
    }
    while i < es.len()
        invariant
            src.wf(),
            elems_closed(es@, below(src.spec_len())),
            0 <= i <= es@.len(),
            target == spec_render_list(
                src.spec_tabstops(),
                es@,
                depth as nat,
                newline@,
                vars.entries@,
            ),
            dst.tabstops@.len() == src.spec_tabstops().len(),
            kinds_consistent(src.spec_tabstops(), dst.tabstops@),
            entry_text.is_prefix_of(text@),
            text@ + spec_render_list(
                src.spec_tabstops(),
                es@.skip(i as int),
                depth as nat,
                newline@,
                vars.entries@,
            ) == entry_text + target,
            forall|t: int|
                0 <= t < entry_tabs.len() ==> (#[trigger] dst.tabstops@[t]).ranges@.len()
                    + spec_ref_counts(
                    src.spec_tabstops(),
                    es@.skip(i as int),
                    t,
                    depth as nat,
                    vars.entries@,
                ) == entry_tabs[t].ranges@.len() + spec_ref_counts(
                    src.spec_tabstops(),
                    es@,
                    t,
                    depth as nat,
                    vars.entries@,
                ),
            forall|t: int|
                0 <= t < entry_tabs.len() ==> (#[trigger] dst.tabstops@[t]).ranges@
                    + spec_list_ranges(
                    src.spec_tabstops(),
                    es@.skip(i as int),
                    t,
                    depth as nat,
                    newline@,
                    vars.entries@,
                    pos + text@.len(),
                ) == entry_tabs[t].ranges@ + spec_list_ranges(
                    src.spec_tabstops(),
                    es@,
                    t,
                    depth as nat,
                    newline@,
                    vars.entries@,
                    pos + entry_text.len(),
                ),
            tabstops_extended(
                entry_tabs,
                dst.tabstops@,
                sat_add(pos as int, entry_text.len() as int),
                sat_add(pos as int, text@.len() as int),
            ),
            dst.ranges@ == entry_ranges,
        decreases es@.len() - i,
    {
        let ghost mid_tabs = dst.tabstops@;
        let ghost mid_text = text@;
        proof {
            assert(elem_closed(es@[i as int], below(src.spec_len())));
            assert(decreases_to!(es@ => es@[i as int]));
        }
        render_element(src, &es[i], depth, newline, vars, pos, dst, text);
        proof {
            lemma_prefix_trans(entry_text, mid_text, text@);
            lemma_extended_trans(
                entry_tabs,
                mid_tabs,
                dst.tabstops@,
                sat_add(pos as int, entry_text.len() as int),
                sat_add(pos as int, mid_text.len() as int),
                sat_add(pos as int, text@.len() as int),
            );
            assert(es@.skip(i as int)[0] == es@[i as int]);
            assert(es@.skip(i as int).drop_first() =~= es@.skip(i + 1));
            assert(text@ + spec_render_list(
                src.spec_tabstops(),
                es@.skip(i + 1),
                depth as nat,
                newline@,
                vars.entries@,
            ) =~= entry_text + target);
            assert forall|t: int| 0 <= t < entry_tabs.len() implies (
            #[trigger] dst.tabstops@[t]).ranges@.len() + spec_ref_counts(
                src.spec_tabstops(),
                es@.skip(i + 1),
                t,
                depth as nat,
                vars.entries@,
            ) == entry_tabs[t].ranges@.len() + spec_ref_counts(
                src.spec_tabstops(),
                es@,
                t,
                depth as nat,
                vars.entries@,
            ) by {
                assert(spec_ref_counts(
                    src.spec_tabstops(),
                    es@.skip(i as int),
                    t,
                    depth as nat,
                    vars.entries@,
                ) == spec_ref_count(src.spec_tabstops(), es@[i as int], t, depth as nat, vars.entries@)
                    + spec_ref_counts(
                    src.spec_tabstops(),
                    es@.skip(i + 1),
                    t,
                    depth as nat,
                    vars.entries@,
                ));
                assert(dst.tabstops@[t].ranges@.len() == mid_tabs[t].ranges@.len()
                    + spec_ref_count(src.spec_tabstops(), es@[i as int], t, depth as nat, vars.entries@));
            }
            assert forall|t: int| 0 <= t < entry_tabs.len() implies (
            #[trigger] dst.tabstops@[t]).ranges@ + spec_list_ranges(
                src.spec_tabstops(),
                es@.skip(i + 1),
                t,
                depth as nat,
                newline@,
                vars.entries@,
                pos + text@.len(),
            ) == entry_tabs[t].ranges@ + spec_list_ranges(
                src.spec_tabstops(),
                es@,
                t,
                depth as nat,
                newline@,
                vars.entries@,
                pos + entry_text.len(),
            ) by {
                assert(spec_list_ranges(
                    src.spec_tabstops(),
                    es@.skip(i as int),
                    t,
                    depth as nat,
                    newline@,
                    vars.entries@,
                    pos + mid_text.len(),
                ) == spec_elem_ranges(
                    src.spec_tabstops(),
                    es@[i as int],
                    t,
                    depth as nat,
                    newline@,
                    vars.entries@,
                    pos + mid_text.len(),
                ) + spec_list_ranges(
                    src.spec_tabstops(),
                    es@.skip(i + 1),
                    t,
                    depth as nat,
                    newline@,
                    vars.entries@,
                    pos + mid_text.len() + spec_render_elem(
                        src.spec_tabstops(),
                        es@[i as int],
                        depth as nat,
                        newline@,
                        vars.entries@,
                    ).len(),
                ));
                assert(pos + text@.len() == pos + mid_text.len() + spec_render_elem(
                    src.spec_tabstops(),
                    es@[i as int],
                    depth as nat,
                    newline@,
                    vars.entries@,
                ).len());
                assert(dst.tabstops@[t].ranges@ == mid_tabs[t].ranges@ + spec_elem_ranges(
                    src.spec_tabstops(),
                    es@[i as int],
                    t,
                    depth as nat,
                    newline@,
                    vars.entries@,
                    pos + mid_text.len(),
                ));
                assert(dst.tabstops@[t].ranges@ + spec_list_ranges(
                    src.spec_tabstops(),
                    es@.skip(i + 1),
                    t,
                    depth as nat,
                    newline@,
                    vars.entries@,
                    pos + text@.len(),
                ) =~= mid_tabs[t].ranges@ + spec_list_ranges(
                    src.spec_tabstops(),
                    es@.skip(i as int),
                    t,
                    depth as nat,
                    newline@,
                    vars.entries@,
                    pos + mid_text.len(),
                ));
            }
        }
        i += 1;
    }
    proof {
        assert(es@.skip(es@.len() as int) =~= Seq::<SnippetElement>::empty());
        assert(final(text)@ == text@);
        assert(text@ =~= entry_text + target);
    }
}

/// The ranges recorded for tabstop `t` by the first `upto` insertion
/// points, each rendered at the start of its top-level range.
pub open spec fn spec_prefix_ranges(
    ts: Seq<elaborate::Tabstop>,
    els: Seq<SnippetElement>,
    t: int,
    depth: nat,
    nls: Seq<Seq<char>>,
    vars: Seq<(Vec<char>, Vec<char>)>,
    tops: Seq<Range>,
    upto: int,
) -> Seq<Range>
    decreases upto,
    when 0 <= upto <= tops.len() && upto <= nls.len()
{
    if upto == 0 {
        Seq::empty()
    } else {
        spec_prefix_ranges(ts, els, t, depth, nls, vars, tops, upto - 1) + spec_list_ranges(
            ts,
            els,
            t,
            depth,
            nls[upto - 1],
            vars,
            tops[upto - 1].start as int,
        )
    }
}

/// Prefix renders depend only on the top-level starts below `upto`.
proof fn lemma_prefix_ranges_agree(
    ts: Seq<elaborate::Tabstop>,
    els: Seq<SnippetElement>,
    t: int,
    depth: nat,
    nls: Seq<Seq<char>>,
    vars: Seq<(Vec<char>, Vec<char>)>,
    tops1: Seq<Range>,
    tops2: Seq<Range>,
    upto: int,
)
    requires
        0 <= upto <= tops1.len(),
        upto <= tops2.len(),
        upto <= nls.len(),
        forall|k: int| 0 <= k < upto ==> (#[trigger] tops1[k]).start == tops2[k].start,
    ensures
        spec_prefix_ranges(ts, els, t, depth, nls, vars, tops1, upto) == spec_prefix_ranges(
            ts,
            els,
            t,
            depth,
            nls,
            vars,
            tops2,
            upto,
        ),
    decreases upto,
{
    if upto > 0 {
        lemma_prefix_ranges_agree(ts, els, t, depth, nls, vars, tops1, tops2, upto - 1);
    }
}

/// One insertion point for `render`: the replaced document span and the
/// newline-plus-indentation to re-indent the snippet body with at that
/// position.
#[derive(Debug, PartialEq)]
pub struct RenderInsert {
    pub start: usize,
    pub end: usize,
    pub newline_indent: Vec<char>,
}

impl Snippet {
    /// Renders the snippet once at character offset `pos`, accumulating
    /// tabstop ranges into `snippet` and appending one top-level range.
    /// Returns the rendered text and its length in characters.
    pub fn render_at(
        &self,
        snippet: &mut RenderedSnippet,
        newline: &Vec<char>,
        vars: &VarBindings,
        pos: usize,
    ) -> (r: (Vec<char>, usize))
        requires
            self.wf(),
            old(snippet).tabstops@.len() == self.spec_tabstops().len(),
            kinds_consistent(self.spec_tabstops(), old(snippet).tabstops@),
        ensures
            r.1 == r.0@.len(),
            r.0@ == spec_render_list(
                self.spec_tabstops(),
                self.spec_elements(),
                self.spec_tabstops().len(),
                newline@,
                vars.entries@,
            ),
            final(snippet).tabstops@.len() == self.spec_tabstops().len(),
            kinds_consistent(self.spec_tabstops(), final(snippet).tabstops@),
            tabstops_extended(
                old(snippet).tabstops@,
                final(snippet).tabstops@,
                pos as int,
                sat_add(pos as int, r.1 as int),
            ),
            forall|t: int|
                0 <= t < old(snippet).tabstops@.len() ==> (#[trigger] final(snippet).tabstops@[t]).ranges@.len() == old(snippet).tabstops@[t].ranges@.len()
                    + spec_ref_counts(
                    self.spec_tabstops(),
                    self.spec_elements(),
                    t,
                    self.spec_tabstops().len(),
                    vars.entries@,
                ),
            forall|t: int|
                0 <= t < old(snippet).tabstops@.len() ==> (#[trigger] final(snippet).tabstops@[t]).ranges@ == old(snippet).tabstops@[t].ranges@ + spec_list_ranges(
                    self.spec_tabstops(),
                    self.spec_elements(),
                    t,
                    self.spec_tabstops().len(),
                    newline@,
                    vars.entries@,
                    pos as int,
                ),
            final(snippet).ranges@ == old(snippet).ranges@.push(
                (Range { start: pos, end: sat_add(pos as int, r.1 as int) as usize }),
            ),
    {
        let mut text: Vec<char> = Vec::new();
        let depth = self.tabstops().len();
        render_elements(self, self.elements(), depth, newline, vars, pos, snippet, &mut text);
        let len = text.len();
        let end = sat_add_usize(pos, len);
        snippet.ranges.push(Range { start: pos, end });
        (text, len)
    }

    /// Renders the snippet at every insertion point in one pass, each
    /// position shifted by the length change of all earlier replacements,
    /// and accumulates every tabstop's ranges across insertion points into
    /// one rendered snippet. Returns it with one replacement text per
    /// insertion point.
    pub fn render(&self, inserts: &Vec<RenderInsert>, vars: &VarBindings) -> (r: (
        RenderedSnippet,
        Vec<Vec<char>>,
    ))
        requires
            self.wf(),
            forall|k: int|
                0 <= k < inserts@.len() ==> (#[trigger] inserts@[k]).start <= inserts@[k].end,
            forall|k: int|
                1 <= k < inserts@.len() ==> inserts@[k - 1].end <= (#[trigger] inserts@[k]).start,
        ensures
            r.0.tabstops@.len() == self.spec_tabstops().len(),
            kinds_consistent(self.spec_tabstops(), r.0.tabstops@),
            r.0.ranges@.len() == inserts@.len(),
            r.1@.len() == inserts@.len(),
            forall|k: int|
                0 <= k < inserts@.len() ==> (#[trigger] r.1@[k])@ == spec_render_list(
                    self.spec_tabstops(),
                    self.spec_elements(),
                    self.spec_tabstops().len(),
                    inserts@[k].newline_indent@,
                    vars.entries@,
                ),
            forall|t: int|
                0 <= t < r.0.tabstops@.len() ==> (#[trigger] r.0.tabstops@[t]).ranges@.len()
                    == inserts@.len() * spec_ref_counts(
                    self.spec_tabstops(),
                    self.spec_elements(),
                    t,
                    self.spec_tabstops().len(),
                    vars.entries@,
                ),
            forall|t: int|
                0 <= t < r.0.tabstops@.len() ==> (#[trigger] r.0.tabstops@[t]).ranges@
                    == spec_prefix_ranges(
                    self.spec_tabstops(),
                    self.spec_elements(),
                    t,
                    self.spec_tabstops().len(),
                    inserts@.map_values(|ins: RenderInsert| ins.newline_indent@),
                    vars.entries@,
                    r.0.ranges@,
                    inserts@.len() as int,
                ),
            forall|k: int|
                0 <= k < inserts@.len() ==> (#[trigger] r.0.ranges@[k]).end as int == sat_add(
                    r.0.ranges@[k].start as int,
                    r.1@[k]@.len() as int,
                ),
            inserts@.len() > 0 ==> r.0.ranges@[0].start == inserts@[0].start,
            forall|k: int|
                1 <= k < inserts@.len() ==> (#[trigger] r.0.ranges@[k]).start as int == sat_add(
                    inserts@[k].start - inserts@[k - 1].end,
                    r.0.ranges@[k - 1].end as int,
                ),
    {
        let mut rendered = self.prepare_render();
        let mut texts: Vec<Vec<char>> = Vec::new();
        let mut k: usize = 0;
        while k < inserts.len()
            invariant
                self.wf(),
                0 <= k <= inserts@.len(),
                forall|j: int|
                    0 <= j < inserts@.len() ==> (#[trigger] inserts@[j]).start <= inserts@[j].end,
                forall|j: int|
                    1 <= j < inserts@.len() ==> inserts@[j - 1].end <= (
                    #[trigger] inserts@[j]).start,
                rendered.tabstops@.len() == self.spec_tabstops().len(),
                kinds_consistent(self.spec_tabstops(), rendered.tabstops@),
                rendered.ranges@.len() == k,
                texts@.len() == k,
                forall|j: int|
                    0 <= j < k ==> (#[trigger] texts@[j])@ == spec_render_list(
                        self.spec_tabstops(),
                        self.spec_elements(),
                        self.spec_tabstops().len(),
                        inserts@[j].newline_indent@,
                        vars.entries@,
                    ),
                forall|j: int|
                    0 <= j < k ==> (#[trigger] rendered.ranges@[j]).end as int == sat_add(
                        rendered.ranges@[j].start as int,
                        texts@[j]@.len() as int,
                    ),
                k > 0 ==> rendered.ranges@[0].start == inserts@[0].start,
                forall|j: int|
                    1 <= j < k ==> (#[trigger] rendered.ranges@[j]).start as int == sat_add(
                        inserts@[j].start - inserts@[j - 1].end,
                        rendered.ranges@[j - 1].end as int,
                    ),
                forall|t: int|
                    0 <= t < rendered.tabstops@.len() ==> (
                    #[trigger] rendered.tabstops@[t]).ranges@.len() == k * spec_ref_counts(
                        self.spec_tabstops(),
                        self.spec_elements(),
                        t,
                        self.spec_tabstops().len(),
                        vars.entries@,
                    ),
                forall|t: int|
                    0 <= t < rendered.tabstops@.len() ==> (
                    #[trigger] rendered.tabstops@[t]).ranges@ == spec_prefix_ranges(
                        self.spec_tabstops(),
                        self.spec_elements(),
                        t,
                        self.spec_tabstops().len(),
                        inserts@.map_values(|ins: RenderInsert| ins.newline_indent@),
                        vars.entries@,
                        rendered.ranges@,
                        k as int,
                    ),
            decreases inserts@.len() - k,
        {
            let pos: usize = if k == 0 {
                inserts[0].start
            } else {
                let gap = inserts[k].start - inserts[k - 1].end;
                sat_add_usize(gap, rendered.ranges[k - 1].end)
            };
            let ghost before_tops = rendered.ranges@;
            let (text, _len) = self.render_at(&mut rendered, &inserts[k].newline_indent, vars, pos);
            texts.push(text);
            proof {
                let nls = inserts@.map_values(|ins: RenderInsert| ins.newline_indent@);
                assert(rendered.ranges@[k as int].start == pos);
                assert(nls[k as int] == inserts@[k as int].newline_indent@);
                assert forall|t: int| 0 <= t < rendered.tabstops@.len() implies (
                #[trigger] rendered.tabstops@[t]).ranges@ == spec_prefix_ranges(
                    self.spec_tabstops(),
                    self.spec_elements(),
                    t,
                    self.spec_tabstops().len(),
                    nls,
                    vars.entries@,
                    rendered.ranges@,
                    k + 1,
                ) by {
                    lemma_prefix_ranges_agree(
                        self.spec_tabstops(),
                        self.spec_elements(),
                        t,
                        self.spec_tabstops().len(),
                        nls,
                        vars.entries@,
                        before_tops,
                        rendered.ranges@,
                        k as int,
                    );
                }
            }
            proof {
                assert forall|t: int| 0 <= t < rendered.tabstops@.len() implies (
                #[trigger] rendered.tabstops@[t]).ranges@.len() == (k + 1) * spec_ref_counts(
                    self.spec_tabstops(),
                    self.spec_elements(),
                    t,
                    self.spec_tabstops().len(),
                    vars.entries@,
                ) by {
                    let c = spec_ref_counts(
                        self.spec_tabstops(),
                        self.spec_elements(),
                        t,
                        self.spec_tabstops().len(),
                        vars.entries@,
                    );
                    assert((k + 1) as int * c == k as int * c + c) by (nonlinear_arith);
                }
            }
            k += 1;
        }
        (rendered, texts)
    }
}

/// The host-supplied rendering context: resolved variable values, the
/// indentation policy, and the line ending to re-indent snippet bodies
/// with.
#[derive(Debug)]
pub struct SnippetRenderCtx {
    pub vars: VarBindings,
    pub tab_width: usize,
    pub indent_width: usize,
    pub line_ending: Vec<char>,
}

impl SnippetRenderCtx {
    /// The line ending followed by `indent_cols` spaces: what every line
    /// break inside a rendered snippet body is replaced with.
    pub fn newline_with_offset(&self, indent_cols: usize) -> (r: Vec<char>)
        ensures
            r@.len() == self.line_ending@.len() + indent_cols,
            r@.subrange(0, self.line_ending@.len() as int) == self.line_ending@,
            forall|k: int|
                self.line_ending@.len() <= k < r@.len() ==> r@[k] == ' ',
    {
        let mut out = clone_chars(&self.line_ending);
        let ghost le = self.line_ending@;
        let mut k: usize = 0;
        while k < indent_cols
            invariant
                0 <= k <= indent_cols,
                out@.len() == le.len() + k,
                out@.subrange(0, le.len() as int) =~= le,
                forall|q: int| le.len() <= q < out@.len() ==> out@[q] == ' ',
            decreases indent_cols - k,
        {
            out.push(' ');
            proof {
                assert(out@.subrange(0, le.len() as int) =~= le);
            }
            k += 1;
        }
        out
    }
}

} // verus!
