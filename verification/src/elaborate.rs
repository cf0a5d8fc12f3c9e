//! Template elaboration: consumes the raw parsed template tree and produces
//! a normalized `Snippet` with a flat, deduplicated, sorted tabstop table
//! and an element tree whose tabstop references point into that table.

use vstd::prelude::*;

use crate::transform::{ParsedTransform, Transform};
use crate::TabstopIdx;

verus! {

/// A recursive element of the raw template tree, as produced by the
/// template grammar. Tabstop numbers here are raw: possibly sparse,
/// duplicated and out of order.
#[derive(Debug, PartialEq)]
pub enum ParsedElement {
    Tabstop { tabstop: usize, transform: Option<ParsedTransform> },
    Placeholder { tabstop: usize, value: Vec<ParsedElement> },
    Choice { tabstop: usize, choices: Vec<Vec<char>> },
    Variable { name: Vec<char>, default: Option<Vec<ParsedElement>>, transform: Option<ParsedTransform> },
    Text(Vec<char>),
}

/// The raw tabstop numbers a parsed element mentions, including those
/// nested in placeholder values and variable defaults.
pub open spec fn parsed_elem_raws(e: ParsedElement) -> Set<usize>
    decreases e,
{
    match e {
        ParsedElement::Tabstop { tabstop, .. } => Set::empty().insert(tabstop),
        ParsedElement::Placeholder { tabstop, value } => parsed_elems_raws(value@).insert(tabstop),
        ParsedElement::Choice { tabstop, .. } => Set::empty().insert(tabstop),
        ParsedElement::Variable { default, .. } => match default {
            Some(d) => parsed_elems_raws(d@),
            None => Set::empty(),
        },
        ParsedElement::Text(_) => Set::empty(),
    }
}

/// The raw tabstop numbers a parsed element list mentions.
pub open spec fn parsed_elems_raws(es: Seq<ParsedElement>) -> Set<usize>
    decreases es,
{
    if es.len() == 0 {
        Set::empty()
    } else {
        parsed_elem_raws(es[0]).union(parsed_elems_raws(es.drop_first()))
    }
}

/// Some node carrying raw number `r` offers content: a placeholder with a
/// non-empty default, a choice, or a transform whose pattern compiles.
pub open spec fn parsed_elem_content(e: ParsedElement, r: usize) -> bool
    decreases e,
{
    match e {
        ParsedElement::Tabstop { tabstop, transform } => tabstop == r && (match transform {
            Some(t) => crate::transform::regex_builds(
                t.regex@,
                t.options@.contains('i'),
                t.options@.contains('m'),
            ),
            None => false,
        }),
        ParsedElement::Placeholder { tabstop, value } => (tabstop == r && value@.len() > 0)
            || parsed_elems_content(value@, r),
        ParsedElement::Choice { tabstop, .. } => tabstop == r,
        ParsedElement::Variable { default, .. } => match default {
            Some(d) => parsed_elems_content(d@, r),
            None => false,
        },
        ParsedElement::Text(_) => false,
    }
}

pub open spec fn parsed_elems_content(es: Seq<ParsedElement>, r: usize) -> bool
    decreases es,
{
    if es.len() == 0 {
        false
    } else {
        parsed_elem_content(es[0], r) || parsed_elems_content(es.drop_first(), r)
    }
}

/// An element of an elaborated snippet. Tabstop references hold raw numbers
/// while elaboration is in progress and resolved table positions once
/// `Snippet::new` returns.
#[derive(Debug, PartialEq)]
pub enum SnippetElement {
    Tabstop { idx: TabstopIdx },
    Variable { name: Vec<char>, default: Option<Vec<SnippetElement>>, transform: Option<Transform> },
    Text(Vec<char>),
}

/// What a tabstop offers when activated.
#[derive(Debug, PartialEq)]
pub enum TabstopKind {
    Choice { choices: Vec<Vec<char>> },
    Placeholder { default: Vec<SnippetElement> },
    Empty,
    Transform(Transform),
}

impl TabstopKind {
    pub fn is_empty(&self) -> (r: bool)
        ensures
            r == (self is Empty),
    {
        matches!(self, TabstopKind::Empty)
    }
}

/// The kind offers nothing a user could select: a bare stop, or a
/// placeholder whose default is empty.
pub open spec fn spec_kind_contentless(k: TabstopKind) -> bool {
    k is Empty || (k matches TabstopKind::Placeholder { default } && default@.len() == 0)
}

fn kind_contentless(k: &TabstopKind) -> (r: bool)
    ensures
        r == spec_kind_contentless(*k),
{
    match k {
        TabstopKind::Empty => true,
        TabstopKind::Placeholder { default } => default.len() == 0,
        _ => false,
    }
}

/// One record of the tabstop table. `idx` is the raw template number; the
/// record's position in the sorted table is its resolved index. `parent`
/// points to the enclosing placeholder's tabstop, as a resolved position
/// once elaboration has finished. Parent links always land inside the
/// table but are not necessarily acyclic: merging duplicate raw numbers
/// can keep a record collected inside its own placeholder (for instance a
/// placeholder for a number that also occurs, with content, inside its own
/// default), whose parent then points at itself.
#[derive(Debug, PartialEq)]
pub struct Tabstop {
    pub idx: TabstopIdx,
    pub parent: Option<TabstopIdx>,
    pub kind: TabstopKind,
}

/// The set of raw tabstop numbers present in a table.
pub open spec fn raw_set(ts: Seq<Tabstop>) -> Set<usize> {
    Set::new(|r: usize| exists|i: int| 0 <= i < ts.len() && (#[trigger] ts[i]).idx.0 == r)
}

/// The set of indices below `n`.
pub open spec fn below(n: nat) -> Set<usize> {
    Set::new(|r: usize| r < n)
}

/// Every tabstop reference in `e`, including those inside variable
/// defaults, is a member of `raws`.
pub open spec fn elem_closed(e: SnippetElement, raws: Set<usize>) -> bool
    decreases e,
{
    match e {
        SnippetElement::Tabstop { idx } => raws.contains(idx.0),
        SnippetElement::Variable { default, .. } => match default {
            Some(d) => forall|i: int| 0 <= i < d@.len() ==> elem_closed(#[trigger] d@[i], raws),
            None => true,
        },
        SnippetElement::Text(_) => true,
    }
}

pub open spec fn elems_closed(es: Seq<SnippetElement>, raws: Set<usize>) -> bool {
    forall|i: int| 0 <= i < es.len() ==> elem_closed(#[trigger] es[i], raws)
}

/// The validated transform a parsed transform becomes: kept with its
/// pattern and flags exactly when the pattern compiles, dropped otherwise.
pub open spec fn transform_from(pt: Option<ParsedTransform>, vt: Option<Transform>) -> bool {
    match (pt, vt) {
        (Some(p), Some(t)) => {
            &&& t.pattern@ == p.regex@
            &&& t.case_insensitive == p.options@.contains('i')
            &&& t.multi_line == p.options@.contains('m')
            &&& t.global == p.options@.contains('g')
            &&& t.replacement@ == p.replacement@
            &&& crate::transform::regex_builds(p.regex@, t.case_insensitive, t.multi_line)
        },
        (Some(p), None) => !crate::transform::regex_builds(
            p.regex@,
            p.options@.contains('i'),
            p.options@.contains('m'),
        ),
        (None, None) => true,
        _ => false,
    }
}

/// The element a parsed node becomes, still carrying raw numbers: tabstop,
/// placeholder and choice nodes become references to their raw number;
/// text is kept; a variable keeps its name, elaborates its default in
/// place and validates its transform.
pub open spec fn elem_raw_from(p: ParsedElement, e: SnippetElement) -> bool
    decreases p,
{
    match p {
        ParsedElement::Tabstop { tabstop, .. } => e matches SnippetElement::Tabstop { idx }
            && idx.0 == tabstop,
        ParsedElement::Placeholder { tabstop, .. } => e matches SnippetElement::Tabstop { idx }
            && idx.0 == tabstop,
        ParsedElement::Choice { tabstop, .. } => e matches SnippetElement::Tabstop { idx }
            && idx.0 == tabstop,
        ParsedElement::Variable { name, default, transform } => e matches SnippetElement::Variable {
            name: n2, default: d2, transform: t2 } && n2@ == name@ && transform_from(transform, t2)
            && (match (default, d2) {
            (Some(d), Some(nd)) => elems_raw_from(d@, nd@),
            (None, None) => true,
            _ => false,
        }),
        ParsedElement::Text(t) => e matches SnippetElement::Text(t2) && t2@ == t@,
    }
}

pub open spec fn elems_raw_from(ps: Seq<ParsedElement>, es: Seq<SnippetElement>) -> bool
    decreases ps,
{
    ps.len() == es.len() && forall|i: int|
        0 <= i < ps.len() ==> elem_raw_from(#[trigger] ps[i], es[i])
}

/// The element a parsed node becomes once renumbered: as `elem_raw_from`,
/// but a node with raw number `r` references the position of `raws` that
/// holds `r`.
pub open spec fn elem_resolved_from(p: ParsedElement, e: SnippetElement, raws: Seq<usize>) -> bool
    decreases p,
{
    match p {
        ParsedElement::Tabstop { tabstop, .. } => e matches SnippetElement::Tabstop { idx }
            && idx.0 < raws.len() && raws[idx.0 as int] == tabstop,
        ParsedElement::Placeholder { tabstop, .. } => e matches SnippetElement::Tabstop { idx }
            && idx.0 < raws.len() && raws[idx.0 as int] == tabstop,
        ParsedElement::Choice { tabstop, .. } => e matches SnippetElement::Tabstop { idx }
            && idx.0 < raws.len() && raws[idx.0 as int] == tabstop,
        ParsedElement::Variable { name, default, transform } => e matches SnippetElement::Variable {
            name: n2, default: d2, transform: t2 } && n2@ == name@ && transform_from(transform, t2)
            && (match (default, d2) {
            (Some(d), Some(nd)) => elems_resolved_from(d@, nd@, raws),
            (None, None) => true,
            _ => false,
        }),
        ParsedElement::Text(t) => e matches SnippetElement::Text(t2) && t2@ == t@,
    }
}

pub open spec fn elems_resolved_from(
    ps: Seq<ParsedElement>,
    es: Seq<SnippetElement>,
    raws: Seq<usize>,
) -> bool
    decreases ps,
{
    ps.len() == es.len() && forall|i: int|
        0 <= i < ps.len() ==> elem_resolved_from(#[trigger] ps[i], es[i], raws)
}

/// Raw correspondence composed with renumbering gives resolved
/// correspondence.
pub proof fn lemma_raw_then_renumbered(
    p: ParsedElement,
    e1: SnippetElement,
    e2: SnippetElement,
    raws: Seq<usize>,
)
    requires
        elem_raw_from(p, e1),
        elem_renumbered(e1, e2, raws),
    ensures
        elem_resolved_from(p, e2, raws),
    decreases p,
{
    if let ParsedElement::Variable { name, default, transform } = p {
        if let Some(d) = default {
            if let SnippetElement::Variable { default: Some(nd1), .. } = e1 {
                if let SnippetElement::Variable { default: Some(nd2), .. } = e2 {
                    assert forall|i: int| 0 <= i < d@.len() implies elem_resolved_from(
                        #[trigger] d@[i],
                        nd2@[i],
                        raws,
                    ) by {
                        lemma_raw_then_renumbered(d@[i], nd1@[i], nd2@[i], raws);
                    }
                }
            }
        }
    }
}

/// The parent link is either the surrounding context's parent or a raw
/// number already present in the table.
pub open spec fn parent_ok(p: Option<TabstopIdx>, raws: Set<usize>, outer: Option<TabstopIdx>) -> bool {
    p == outer || (match p {
        Some(t) => raws.contains(t.0),
        None => false,
    })
}

pub open spec fn kind_closed(k: TabstopKind, raws: Set<usize>) -> bool {
    match k {
        TabstopKind::Placeholder { default } => elems_closed(default@, raws),
        _ => true,
    }
}

pub open spec fn tabstop_ok(t: Tabstop, raws: Set<usize>, outer: Option<TabstopIdx>) -> bool {
    parent_ok(t.parent, raws, outer) && kind_closed(t.kind, raws)
}

pub proof fn lemma_elem_closed_mono(e: SnippetElement, a: Set<usize>, b: Set<usize>)
    requires
        elem_closed(e, a),
        a.subset_of(b),
    ensures
        elem_closed(e, b),
    decreases e,
{
    if let SnippetElement::Variable { default, .. } = e {
        if let Some(d) = default {
            assert forall|i: int| 0 <= i < d@.len() implies elem_closed(#[trigger] d@[i], b) by {
                lemma_elem_closed_mono(d@[i], a, b);
            }
        }
    }
}

pub proof fn lemma_elems_closed_mono(es: Seq<SnippetElement>, a: Set<usize>, b: Set<usize>)
    requires
        elems_closed(es, a),
        a.subset_of(b),
    ensures
        elems_closed(es, b),
{
    assert forall|i: int| 0 <= i < es.len() implies elem_closed(#[trigger] es[i], b) by {
        lemma_elem_closed_mono(es[i], a, b);
    }
}

pub proof fn lemma_tabstop_ok_mono(
    t: Tabstop,
    a: Set<usize>,
    b: Set<usize>,
    outer: Option<TabstopIdx>,
)
    requires
        tabstop_ok(t, a, outer),
        a.subset_of(b),
    ensures
        tabstop_ok(t, b, outer),
{
    if let TabstopKind::Placeholder { default } = t.kind {
        lemma_elems_closed_mono(default@, a, b);
    }
}

/// Appending one record adds exactly its raw number.
proof fn lemma_raw_set_push(ts: Seq<Tabstop>, rec: Tabstop)
    ensures
        raw_set(ts.push(rec)) == raw_set(ts).insert(rec.idx.0),
{
    let b = ts.push(rec);
    assert forall|x: usize| raw_set(b).contains(x) implies raw_set(ts).insert(rec.idx.0).contains(
        x,
    ) by {
        let i = choose|i: int| 0 <= i < b.len() && (#[trigger] b[i]).idx.0 == x;
        if i < ts.len() {
            assert(ts[i] == b[i]);
        }
    }
    assert forall|x: usize| raw_set(ts).insert(rec.idx.0).contains(x) implies raw_set(b).contains(
        x,
    ) by {
        if x == rec.idx.0 {
            assert((b[b.len() - 1]).idx.0 == x);
        } else {
            let i = choose|i: int| 0 <= i < ts.len() && (#[trigger] ts[i]).idx.0 == x;
            assert(b[i] == ts[i]);
            assert((b[i]).idx.0 == x);
        }
    }
    assert(raw_set(b) =~= raw_set(ts).insert(rec.idx.0));
}

/// A surviving content record keeps surviving when the table grows.
proof fn lemma_content_kept_prefix(a: Seq<Tabstop>, b: Seq<Tabstop>, r: usize)
    requires
        a.is_prefix_of(b),
        content_kept(r, a),
    ensures
        content_kept(r, b),
{
    let i = choose|i: int|
        0 <= i < a.len() && (#[trigger] a[i]).idx.0 == r && !spec_kind_contentless(a[i].kind);
    assert(b[i] == a[i]);
    assert(0 <= i < b.len() && (b[i]).idx.0 == r && !spec_kind_contentless(b[i].kind));
}

/// A prefix of a table contributes a subset of its raw numbers.
pub proof fn lemma_raw_set_prefix(a: Seq<Tabstop>, b: Seq<Tabstop>)
    requires
        a.is_prefix_of(b),
    ensures
        raw_set(a).subset_of(raw_set(b)),
{
    assert forall|r: usize| raw_set(a).contains(r) implies raw_set(b).contains(r) by {
        let i = choose|i: int| 0 <= i < a.len() && (#[trigger] a[i]).idx.0 == r;
        assert(b[i] == a[i]);
        assert(0 <= i < b.len() && (b[i]).idx.0 == r);
    }
}

/// Elaborates one list of parsed elements. Pushes one tabstop record for
/// each tabstop, placeholder, choice or transform node (children before
/// their enclosing placeholder) and rewrites each such node into a tabstop
/// reference carrying its raw number.
fn elaborate(
    elements: Vec<ParsedElement>,
    parent: Option<TabstopIdx>,
    tabstops: &mut Vec<Tabstop>,
) -> (out: Vec<SnippetElement>)
    ensures
        old(tabstops)@.is_prefix_of(final(tabstops)@),
        elems_closed(out@, raw_set(final(tabstops)@)),
        elems_raw_from(elements@, out@),
        raw_set(final(tabstops)@) == raw_set(old(tabstops)@).union(parsed_elems_raws(elements@)),
        forall|r: usize|
            #[trigger] parsed_elems_content(elements@, r) ==> content_kept(r, final(tabstops)@),
        forall|i: int|
            old(tabstops)@.len() <= i < final(tabstops)@.len() ==> tabstop_ok(
                #[trigger] final(tabstops)@[i],
                raw_set(final(tabstops)@),
                parent,
            ),
    decreases elements@, 0int,
{
    let mut elements = elements;
    let ghost entry_seq = elements@;
    let ghost entry_tabs = tabstops@;
    if elements.len() == 0 {
        proof {
            assert(tabstops@.subrange(0, entry_tabs.len() as int) =~= entry_tabs);
            assert(raw_set(tabstops@) =~= raw_set(entry_tabs).union(parsed_elems_raws(entry_seq)));
        }
        return Vec::new();
    }
    let e = elements.remove(0);
    let ghost ge = entry_seq[0];
    let first: SnippetElement = match e {
        ParsedElement::Tabstop { tabstop, transform: None } => {
            // A bare tabstop is a placeholder with an empty default, so
            // that a later occurrence with content can take precedence.
            tabstops.push(
                Tabstop {
                    idx: TabstopIdx(tabstop),
                    parent,
                    kind: (TabstopKind::Placeholder { default: Vec::new() }),
                },
            );
            proof {
                assert(tabstops@.subrange(0, entry_tabs.len() as int) =~= entry_tabs);
                assert(raw_set(tabstops@).contains(tabstop)) by {
                    assert((tabstops@[tabstops@.len() - 1]).idx.0 == tabstop);
                }
                lemma_raw_set_push(entry_tabs, tabstops@[tabstops@.len() - 1]);
                assert(raw_set(tabstops@) == raw_set(entry_tabs).union(parsed_elem_raws(ge))) by {
                    assert(raw_set(tabstops@) =~= raw_set(entry_tabs).union(parsed_elem_raws(ge)));
                }
            }
            SnippetElement::Tabstop { idx: TabstopIdx(tabstop) }
        },
        ParsedElement::Tabstop { tabstop, transform: Some(t) } => {
            // An invalid transform degrades the tabstop to a plain stop.
            match Transform::new(t) {
                Some(tr) => tabstops.push(
                    Tabstop { idx: TabstopIdx(tabstop), parent, kind: TabstopKind::Transform(tr) },
                ),
                None => tabstops.push(
                    Tabstop { idx: TabstopIdx(tabstop), parent, kind: TabstopKind::Empty },
                ),
            }
            proof {
                assert(tabstops@.subrange(0, entry_tabs.len() as int) =~= entry_tabs);
                assert(raw_set(tabstops@).contains(tabstop)) by {
                    assert((tabstops@[tabstops@.len() - 1]).idx.0 == tabstop);
                }
                lemma_raw_set_push(entry_tabs, tabstops@[tabstops@.len() - 1]);
                assert(raw_set(tabstops@) == raw_set(entry_tabs).union(parsed_elem_raws(ge))) by {
                    assert(raw_set(tabstops@) =~= raw_set(entry_tabs).union(parsed_elem_raws(ge)));
                }
                assert forall|r: usize| #[trigger] parsed_elem_content(ge, r) implies content_kept(
                    r,
                    tabstops@,
                ) by {
                    assert((tabstops@[tabstops@.len() - 1]).idx.0 == r);
                    assert(!spec_kind_contentless((tabstops@[tabstops@.len() - 1]).kind));
                }
            }
            SnippetElement::Tabstop { idx: TabstopIdx(tabstop) }
        },
        ParsedElement::Placeholder { tabstop, value } => {
            proof {
                assert(decreases_to!(entry_seq => entry_seq[0]));
                assert(decreases_to!(ge => ge->value));
                assert(decreases_to!(ge->value => ge->value@));
            }
            let default = elaborate(value, Some(TabstopIdx(tabstop)), tabstops);
            let ghost tabs_rec = tabstops@;
            tabstops.push(
                Tabstop {
                    idx: TabstopIdx(tabstop),
                    parent,
                    kind: (TabstopKind::Placeholder { default }),
                },
            );
            proof {
                assert(tabs_rec.is_prefix_of(tabstops@)) by {
                    assert(tabstops@.subrange(0, tabs_rec.len() as int) =~= tabs_rec);
                }
                assert(entry_tabs.is_prefix_of(tabstops@)) by {
                    assert(tabstops@.subrange(0, entry_tabs.len() as int) =~= entry_tabs);
                }
                lemma_raw_set_prefix(tabs_rec, tabstops@);
                // the placeholder's own raw number is now in the table, so
                // the records pushed by the recursive call are anchored
                assert(raw_set(tabstops@).contains(tabstop)) by {
                    assert((tabstops@[tabstops@.len() - 1]).idx.0 == tabstop);
                }
                lemma_raw_set_push(tabs_rec, tabstops@[tabstops@.len() - 1]);
                assert(raw_set(tabstops@) == raw_set(entry_tabs).union(parsed_elem_raws(ge))) by {
                    assert(raw_set(tabstops@) =~= raw_set(entry_tabs).union(parsed_elem_raws(ge)));
                }
                assert forall|r: usize| #[trigger] parsed_elem_content(ge, r) implies content_kept(
                    r,
                    tabstops@,
                ) by {
                    if r == tabstop && ge->value@.len() > 0 {
                        assert((tabstops@[tabstops@.len() - 1]).idx.0 == r);
                        assert(!spec_kind_contentless((tabstops@[tabstops@.len() - 1]).kind));
                    } else {
                        assert(parsed_elems_content(ge->value@, r));
                        assert(content_kept(r, tabs_rec));
                        lemma_content_kept_prefix(tabs_rec, tabstops@, r);
                    }
                }
                assert forall|i: int|
                    entry_tabs.len() <= i < tabstops@.len() implies tabstop_ok(
                    #[trigger] tabstops@[i],
                    raw_set(tabstops@),
                    parent,
                ) by {
                    if i < tabs_rec.len() {
                        // pushed by the recursive call, with the
                        // placeholder itself as the surrounding context
                        assert(tabstops@[i] == tabs_rec[i]);
                        assert(tabstop_ok(tabs_rec[i], raw_set(tabs_rec), Some(TabstopIdx(tabstop))));
                        lemma_tabstop_ok_mono(
                            tabs_rec[i],
                            raw_set(tabs_rec),
                            raw_set(tabstops@),
                            Some(TabstopIdx(tabstop)),
                        );
                    } else {
                        // the placeholder record itself
                        assert(tabstops@[i] == tabstops@[tabstops@.len() - 1]);
                        lemma_elems_closed_mono(default@, raw_set(tabs_rec), raw_set(tabstops@));
                    }
                }
            }
            SnippetElement::Tabstop { idx: TabstopIdx(tabstop) }
        },
        ParsedElement::Choice { tabstop, choices } => {
            tabstops.push(
                Tabstop { idx: TabstopIdx(tabstop), parent, kind: (TabstopKind::Choice { choices }) },
            );
            proof {
                assert(tabstops@.subrange(0, entry_tabs.len() as int) =~= entry_tabs);
                assert(raw_set(tabstops@).contains(tabstop)) by {
                    assert((tabstops@[tabstops@.len() - 1]).idx.0 == tabstop);
                }
                lemma_raw_set_push(entry_tabs, tabstops@[tabstops@.len() - 1]);
                assert(raw_set(tabstops@) == raw_set(entry_tabs).union(parsed_elem_raws(ge))) by {
                    assert(raw_set(tabstops@) =~= raw_set(entry_tabs).union(parsed_elem_raws(ge)));
                }
                assert forall|r: usize| #[trigger] parsed_elem_content(ge, r) implies content_kept(
                    r,
                    tabstops@,
                ) by {
                    assert((tabstops@[tabstops@.len() - 1]).idx.0 == r);
                    assert(!spec_kind_contentless((tabstops@[tabstops@.len() - 1]).kind));
                }
            }
            SnippetElement::Tabstop { idx: TabstopIdx(tabstop) }
        },
        ParsedElement::Variable { name, default, transform } => {
            let default2 = match default {
                Some(d) => {
                    proof {
                        assert(decreases_to!(entry_seq => entry_seq[0]));
                        assert(decreases_to!(ge => ge->default));
                        assert(decreases_to!(ge->default => ge->default->0));
                        assert(decreases_to!(ge->default->0 => ge->default->0@));
                    }
                    Some(elaborate(d, parent, tabstops))
                },
                None => None,
            };
            let tr = match transform {
                Some(t) => Transform::new(t),
                None => None,
            };
            proof {
                assert(raw_set(tabstops@) == raw_set(entry_tabs).union(parsed_elem_raws(ge))) by {
                    assert(raw_set(tabstops@) =~= raw_set(entry_tabs).union(parsed_elem_raws(ge)));
                }
                assert forall|r: usize| #[trigger] parsed_elem_content(ge, r) implies content_kept(
                    r,
                    tabstops@,
                ) by {
                    assert(parsed_elems_content(ge->default->0@, r));
                }
            }
            SnippetElement::Variable { name, default: default2, transform: tr }
        },
        ParsedElement::Text(t) => {
            proof {
                assert(raw_set(tabstops@) == raw_set(entry_tabs).union(parsed_elem_raws(ge))) by {
                    assert(raw_set(tabstops@) =~= raw_set(entry_tabs).union(parsed_elem_raws(ge)));
                }
            }
            SnippetElement::Text(t)
        },
    };
    let ghost tabs_mid = tabstops@;
    proof {
        assert(entry_tabs.is_prefix_of(tabs_mid));
        assert(raw_set(tabs_mid) == raw_set(entry_tabs).union(parsed_elem_raws(ge)));
        assert(elem_raw_from(ge, first));
        assert(forall|r: usize| #[trigger] parsed_elem_content(ge, r) ==> content_kept(r, tabs_mid));
        assert(elem_closed(first, raw_set(tabs_mid)));
        assert(forall|i: int|
            entry_tabs.len() <= i < tabs_mid.len() ==> tabstop_ok(
                #[trigger] tabs_mid[i],
                raw_set(tabs_mid),
                parent,
            ));
        assert(elements@ =~= entry_seq.subrange(1, entry_seq.len() as int));
        assert(decreases_to!(entry_seq => entry_seq.subrange(1, entry_seq.len() as int)));
    }
    let mut rest = elaborate(elements, parent, tabstops);
    let ghost grest = rest@;
    let ghost tabs_end = tabstops@;
    let mut out: Vec<SnippetElement> = Vec::new();
    out.push(first);
    out.append(&mut rest);
    proof {
        // prefix chain from the entry table to the final one
        assert(entry_tabs.is_prefix_of(tabs_end)) by {
            assert(tabs_end.subrange(0, entry_tabs.len() as int) =~= entry_tabs);
        }
        lemma_raw_set_prefix(tabs_mid, tabs_end);
        // the raw numbers collected are the head's plus the tail's
        assert(raw_set(tabs_end) == raw_set(tabs_mid).union(
            parsed_elems_raws(entry_seq.drop_first()),
        )) by {
            assert(entry_seq.subrange(1, entry_seq.len() as int) =~= entry_seq.drop_first());
        }
        assert(raw_set(tabs_end) =~= raw_set(entry_tabs).union(parsed_elems_raws(entry_seq)));
        assert forall|r: usize| #[trigger] parsed_elems_content(entry_seq, r) implies content_kept(
            r,
            tabs_end,
        ) by {
            if parsed_elem_content(ge, r) {
                lemma_content_kept_prefix(tabs_mid, tabs_end, r);
            } else {
                assert(parsed_elems_content(entry_seq.drop_first(), r));
            }
        }
        assert forall|i: int| 0 <= i < out@.len() implies elem_closed(
            #[trigger] out@[i],
            raw_set(tabs_end),
        ) by {
            if i == 0 {
                lemma_elem_closed_mono(first, raw_set(tabs_mid), raw_set(tabs_end));
            } else {
                assert(out@[i] == grest[i - 1]);
            }
        }
        assert forall|i: int| 0 <= i < entry_seq.len() implies elem_raw_from(
            #[trigger] entry_seq[i],
            out@[i],
        ) by {
            if i > 0 {
                assert(out@[i] == grest[i - 1]);
                assert(entry_seq.subrange(1, entry_seq.len() as int)[i - 1] == entry_seq[i]);
            }
        }
        // records pushed while handling the first element stay ok once the
        // raw set has grown; records pushed by the tail call are ok already
        assert forall|i: int|
            entry_tabs.len() <= i < tabs_end.len() implies tabstop_ok(
            #[trigger] tabs_end[i],
            raw_set(tabs_end),
            parent,
        ) by {
            if i < tabs_mid.len() {
                assert(tabs_end[i] == tabs_mid[i]);
                lemma_tabstop_ok_mono(tabs_mid[i], raw_set(tabs_mid), raw_set(tabs_end), parent);
            }
        }
    }
    out
}

/// The ordering key of a raw tabstop number: ascending, except that raw
/// number 0 (the terminal tabstop) orders after every other number, since
/// it is visited last.
pub open spec fn raw_key(r: usize) -> int {
    if r == 0 {
        usize::MAX as int + 1
    } else {
        r as int
    }
}

/// Key order on raw numbers.
fn key_le(a: usize, b: usize) -> (r: bool)
    ensures
        r == (raw_key(a) <= raw_key(b)),
{
    if b == 0 {
        true
    } else if a == 0 {
        false
    } else {
        a <= b
    }
}

/// The table is sorted by raw-number key, allowing equal neighbours.
pub open spec fn sorted_nondec(ts: Seq<Tabstop>) -> bool {
    forall|i: int, j: int|
        0 <= i < j < ts.len() ==> raw_key((#[trigger] ts[i]).idx.0) <= raw_key(
            (#[trigger] ts[j]).idx.0,
        )
}

/// The table is sorted by raw-number key with no duplicates.
pub open spec fn sorted_strict(ts: Seq<Tabstop>) -> bool {
    forall|i: int, j: int|
        0 <= i < j < ts.len() ==> raw_key((#[trigger] ts[i]).idx.0) < raw_key(
            (#[trigger] ts[j]).idx.0,
        )
}

/// Every record's parent raw number is in `raws` (or absent) and every
/// placeholder default is closed under `raws`.
pub open spec fn table_ok(ts: Seq<Tabstop>, raws: Set<usize>) -> bool {
    forall|i: int| 0 <= i < ts.len() ==> tabstop_ok(#[trigger] ts[i], raws, None)
}

/// After renumbering: parents and all element references are resolved table
/// positions below `n`.
pub open spec fn table_resolved(ts: Seq<Tabstop>, n: nat) -> bool {
    forall|i: int|
        0 <= i < ts.len() ==> ((match (#[trigger] ts[i]).parent {
            Some(p) => p.0 < n,
            None => true,
        }) && kind_closed(ts[i].kind, below(n)))
}

/// `rec` appears, as a whole record, somewhere in `ts`.
pub open spec fn record_in(rec: Tabstop, ts: Seq<Tabstop>) -> bool {
    exists|j: int| 0 <= j < ts.len() && rec == #[trigger] ts[j]
}

/// Every record of `r` appears in `ts`.
pub open spec fn records_from(r: Seq<Tabstop>, ts: Seq<Tabstop>) -> bool {
    forall|i: int| 0 <= i < r.len() ==> record_in(#[trigger] r[i], ts)
}

/// Some record of `ts` carries the raw number `raw`.
pub open spec fn raw_in(raw: usize, ts: Seq<Tabstop>) -> bool {
    exists|i: int| 0 <= i < ts.len() && (#[trigger] ts[i]).idx.0 == raw
}

/// Every raw number of `ts` also occurs in `r`.
pub open spec fn raws_covered(ts: Seq<Tabstop>, r: Seq<Tabstop>) -> bool {
    forall|j: int| 0 <= j < ts.len() ==> raw_in((#[trigger] ts[j]).idx.0, r)
}

/// Stable insertion sort of the tabstop table by raw number.
fn sort_by_raw(ts: Vec<Tabstop>) -> (r: Vec<Tabstop>)
    ensures
        sorted_nondec(r@),
        records_from(r@, ts@),
        raws_covered(ts@, r@),
        forall|j: int|
            0 <= j < ts@.len() && !spec_kind_contentless((#[trigger] ts@[j]).kind)
                ==> content_kept(ts@[j].idx.0, r@),
{
    let mut ts = ts;
    let ghost orig = ts@;
    let mut out: Vec<Tabstop> = Vec::new();
    let ghost mut done: int = 0;
    while ts.len() > 0
        invariant
            0 <= done <= orig.len(),
            ts@ =~= orig.subrange(done, orig.len() as int),
            sorted_nondec(out@),
            records_from(out@, orig),
            raws_covered(orig.subrange(0, done), out@),
            forall|j: int|
                0 <= j < done && !spec_kind_contentless((#[trigger] orig[j]).kind)
                    ==> content_kept(orig[j].idx.0, out@),
        decreases ts@.len(),
    {
        let rec = ts.remove(0);
        proof {
            assert(rec == orig[done]);
            assert(ts@ =~= orig.subrange(done + 1, orig.len() as int));
        }
        let mut p: usize = 0;
        while p < out.len() && key_le(out[p].idx.0, rec.idx.0)
            invariant
                0 <= p <= out@.len(),
                forall|q: int| 0 <= q < p ==> raw_key((#[trigger] out@[q]).idx.0) <= raw_key(
                    rec.idx.0,
                ),
            decreases out@.len() - p,
        {
            p += 1;
        }
        let ghost before = out@;
        out.insert(p, rec);
        proof {
            assert(out@.len() == before.len() + 1);
            assert forall|i: int, j: int|
                0 <= i < j < out@.len() implies raw_key((#[trigger] out@[i]).idx.0) <= raw_key(
                (#[trigger] out@[j]).idx.0,
            ) by {
                if p < before.len() {
                    assert(raw_key(rec.idx.0) < raw_key(before[p as int].idx.0));
                }
                if i < p {
                    assert(out@[i] == before[i]);
                } else if i > p {
                    assert(out@[i] == before[i - 1]);
                }
                if j < p {
                    assert(out@[j] == before[j]);
                } else if j > p {
                    assert(out@[j] == before[j - 1]);
                }
            }
            assert forall|i: int| 0 <= i < out@.len() implies record_in(#[trigger] out@[i], orig) by {
                if i < p {
                    assert(out@[i] == before[i]);
                } else if i > p {
                    assert(out@[i] == before[i - 1]);
                } else {
                    assert(out@[i] == orig[done]);
                }
            }
            assert forall|j: int| 0 <= j < done + 1 implies raw_in(
                (#[trigger] orig.subrange(0, done + 1)[j]).idx.0,
                out@,
            ) by {
                assert(orig.subrange(0, done + 1)[j] == orig[j]);
                if j == done {
                    assert(out@[p as int] == rec);
                    assert((out@[p as int]).idx.0 == orig[j].idx.0);
                } else {
                    assert(orig.subrange(0, done)[j] == orig[j]);
                    let w = choose|i: int|
                        0 <= i < before.len() && (#[trigger] before[i]).idx.0 == orig[j].idx.0;
                    if w < p {
                        assert((out@[w]).idx.0 == orig[j].idx.0);
                    } else {
                        assert(out@[w + 1] == before[w]);
                        assert((out@[w + 1]).idx.0 == orig[j].idx.0);
                    }
                }
            }
            assert forall|j: int|
                0 <= j < done + 1 && !spec_kind_contentless(
                    (#[trigger] orig[j]).kind,
                ) implies content_kept(orig[j].idx.0, out@) by {
                if j == done {
                    assert(out@[p as int] == rec);
                    assert((out@[p as int]).idx.0 == orig[j].idx.0 && !spec_kind_contentless(
                        out@[p as int].kind,
                    ));
                } else {
                    let w = choose|i: int|
                        0 <= i < before.len() && (#[trigger] before[i]).idx.0 == orig[j].idx.0
                            && !spec_kind_contentless(before[i].kind);
                    if w < p {
                        assert(out@[w] == before[w]);
                        assert((out@[w]).idx.0 == orig[j].idx.0 && !spec_kind_contentless(
                            out@[w].kind,
                        ));
                    } else {
                        assert(out@[w + 1] == before[w]);
                        assert((out@[w + 1]).idx.0 == orig[j].idx.0 && !spec_kind_contentless(
                            out@[w + 1].kind,
                        ));
                    }
                }
            }
            done = done + 1;
        }
    }
    proof {
        assert(orig.subrange(0, done) =~= orig);
    }
    out
}

/// Some record of `out` carries this raw number with a content-carrying
/// kind.
pub open spec fn content_kept(raw: usize, out: Seq<Tabstop>) -> bool {
    exists|i: int|
        0 <= i < out.len() && (#[trigger] out[i]).idx.0 == raw && !spec_kind_contentless(
            out[i].kind,
        )
}

/// Merges records that share a raw number: the first record carrying
/// content (a non-empty placeholder, a choice or a transform) wins; among
/// contentless records the last one wins.
fn dedup_tabstops(ts: Vec<Tabstop>) -> (r: Vec<Tabstop>)
    requires
        sorted_nondec(ts@),
    ensures
        sorted_strict(r@),
        records_from(r@, ts@),
        raws_covered(ts@, r@),
        forall|j: int|
            0 <= j < ts@.len() && !spec_kind_contentless((#[trigger] ts@[j]).kind)
                ==> content_kept(ts@[j].idx.0, r@),
{
    let mut ts = ts;
    let ghost orig = ts@;
    let mut out: Vec<Tabstop> = Vec::new();
    let ghost mut done: int = 0;
    while ts.len() > 0
        invariant
            0 <= done <= orig.len(),
            sorted_nondec(orig),
            ts@ =~= orig.subrange(done, orig.len() as int),
            sorted_strict(out@),
            out@.len() > 0 <==> done > 0,
            done > 0 ==> (out@[out@.len() - 1]).idx.0 == (orig[done - 1]).idx.0,
            records_from(out@, orig),
            raws_covered(orig.subrange(0, done), out@),
            forall|j: int|
                0 <= j < done && !spec_kind_contentless((#[trigger] orig[j]).kind)
                    ==> content_kept(orig[j].idx.0, out@),
        decreases ts@.len(),
    {
        let rec = ts.remove(0);
        proof {
            assert(rec == orig[done]);
            assert(ts@ =~= orig.subrange(done + 1, orig.len() as int));
            if done > 0 {
                assert(raw_key((orig[done - 1]).idx.0) <= raw_key((orig[done]).idx.0));
            }
        }
        let ghost before = out@;
        let last_matches = out.len() > 0 && out[out.len() - 1].idx.0 == rec.idx.0;
        if last_matches {
            if kind_contentless(&out[out.len() - 1].kind) {
                // the earlier record is a bare stop: the newcomer replaces it
                out.pop();
                out.push(rec);
                proof {
                    assert(out@ =~= before.update(before.len() - 1, rec));
                    assert forall|i: int, j: int|
                        0 <= i < j < out@.len() implies raw_key((#[trigger] out@[i]).idx.0)
                        < raw_key((#[trigger] out@[j]).idx.0) by {
                        if j < out@.len() - 1 {
                            assert(out@[i] == before[i] && out@[j] == before[j]);
                        } else {
                            assert(out@[i] == before[i]);
                            assert(raw_key((before[i]).idx.0) < raw_key((before[j]).idx.0));
                            assert((before[j]).idx.0 == rec.idx.0);
                        }
                    }
                    assert forall|i: int| 0 <= i < out@.len() implies record_in(
                        #[trigger] out@[i],
                        orig,
                    ) by {
                        if i < out@.len() - 1 {
                            assert(out@[i] == before[i]);
                        } else {
                            assert(out@[i] == orig[done]);
                        }
                    }
                }
            }
            // otherwise the earlier record carries content and is kept
            proof {
                assert((out@[out@.len() - 1]).idx.0 == rec.idx.0);
                assert forall|j: int|
                    0 <= j < done + 1 && !spec_kind_contentless(
                        (#[trigger] orig[j]).kind,
                    ) implies content_kept(orig[j].idx.0, out@) by {
                    if j == done {
                        assert(!spec_kind_contentless((out@[out@.len() - 1]).kind));
                        assert((out@[out@.len() - 1]).idx.0 == orig[j].idx.0);
                    } else {
                        let i = choose|i: int|
                            0 <= i < before.len() && (#[trigger] before[i]).idx.0
                                == orig[j].idx.0 && !spec_kind_contentless(before[i].kind);
                        if i == before.len() - 1 {
                            // a kept record carrying content is never
                            // replaced
                            assert(out@ == before);
                        }
                        assert((out@[i]).idx.0 == orig[j].idx.0 && !spec_kind_contentless(
                            out@[i].kind,
                        ));
                    }
                }
                assert forall|j: int| 0 <= j < done + 1 implies raw_in(
                    (#[trigger] orig.subrange(0, done + 1)[j]).idx.0,
                    out@,
                ) by {
                    assert(orig.subrange(0, done + 1)[j] == orig[j]);
                    if j < done {
                        assert(orig.subrange(0, done)[j] == orig[j]);
                        let w = choose|i: int|
                            0 <= i < before.len() && (#[trigger] before[i]).idx.0 == (
                            orig[j]).idx.0;
                        if w < before.len() - 1 {
                            assert(out@[w] == before[w]);
                            assert((out@[w]).idx.0 == (orig[j]).idx.0);
                        } else {
                            assert((before[w]).idx.0 == rec.idx.0);
                            assert((out@[out@.len() - 1]).idx.0 == (orig[j]).idx.0);
                        }
                    } else {
                        assert((out@[out@.len() - 1]).idx.0 == (orig[j]).idx.0);
                    }
                }
            }
        } else {
            proof {
                if out@.len() > 0 {
                    assert((out@[out@.len() - 1]).idx.0 == (orig[done - 1]).idx.0);
                    assert(raw_key((orig[done - 1]).idx.0) <= raw_key((orig[done]).idx.0));
                    assert((out@[out@.len() - 1]).idx.0 != rec.idx.0);
                }
            }
            out.push(rec);
            proof {
                assert forall|i: int, j: int|
                    0 <= i < j < out@.len() implies raw_key((#[trigger] out@[i]).idx.0) < raw_key(
                    (#[trigger] out@[j]).idx.0,
                ) by {
                    if j < out@.len() - 1 {
                        assert(out@[i] == before[i] && out@[j] == before[j]);
                    } else if i < out@.len() - 1 {
                        assert(out@[i] == before[i]);
                        assert(raw_key((before[i]).idx.0) <= raw_key(
                            (before[before.len() - 1]).idx.0,
                        ) || i == before.len() - 1);
                    }
                }
                assert forall|i: int| 0 <= i < out@.len() implies record_in(
                    #[trigger] out@[i],
                    orig,
                ) by {
                    if i < out@.len() - 1 {
                        assert(out@[i] == before[i]);
                    } else {
                        assert(out@[i] == orig[done]);
                    }
                }
                assert forall|j: int| 0 <= j < done + 1 implies raw_in(
                    (#[trigger] orig.subrange(0, done + 1)[j]).idx.0,
                    out@,
                ) by {
                    assert(orig.subrange(0, done + 1)[j] == orig[j]);
                    if j < done {
                        assert(orig.subrange(0, done)[j] == orig[j]);
                        let w = choose|i: int|
                            0 <= i < before.len() && (#[trigger] before[i]).idx.0 == (
                            orig[j]).idx.0;
                        assert(out@[w] == before[w]);
                        assert((out@[w]).idx.0 == (orig[j]).idx.0);
                    } else {
                        assert((out@[out@.len() - 1]).idx.0 == (orig[j]).idx.0);
                    }
                }
                assert forall|j: int|
                    0 <= j < done + 1 && !spec_kind_contentless(
                        (#[trigger] orig[j]).kind,
                    ) implies content_kept(orig[j].idx.0, out@) by {
                    if j == done {
                        assert((out@[out@.len() - 1]).idx.0 == orig[j].idx.0
                            && !spec_kind_contentless((out@[out@.len() - 1]).kind));
                    } else {
                        let i = choose|i: int|
                            0 <= i < before.len() && (#[trigger] before[i]).idx.0
                                == orig[j].idx.0 && !spec_kind_contentless(before[i].kind);
                        assert(out@[i] == before[i]);
                        assert((out@[i]).idx.0 == orig[j].idx.0 && !spec_kind_contentless(
                            out@[i].kind,
                        ));
                    }
                }
            }
        }
        proof {
            done = done + 1;
        }
    }
    proof {
        assert(orig.subrange(0, done) =~= orig);
    }
    out
}

/// Raw numbers of `b` and `a` coincide when each record of `b` comes from
/// `a` and every raw number of `a` survives into `b`.
proof fn lemma_fixup_raws(a: Seq<Tabstop>, b: Seq<Tabstop>)
    requires
        records_from(b, a),
        raws_covered(a, b),
    ensures
        raw_set(b) == raw_set(a),
{
    assert forall|x: usize| raw_set(b).contains(x) implies raw_set(a).contains(x) by {
        let i = choose|i: int| 0 <= i < b.len() && (#[trigger] b[i]).idx.0 == x;
        let j = choose|j: int| 0 <= j < a.len() && b[i] == #[trigger] a[j];
        assert((a[j]).idx.0 == x);
    }
    assert forall|x: usize| raw_set(a).contains(x) implies raw_set(b).contains(x) by {
        let j = choose|j: int| 0 <= j < a.len() && (#[trigger] a[j]).idx.0 == x;
        assert(raw_in((a[j]).idx.0, b));
        let i = choose|i: int| 0 <= i < b.len() && (#[trigger] b[i]).idx.0 == (a[j]).idx.0;
        assert((b[i]).idx.0 == x);
    }
    assert(raw_set(b) =~= raw_set(a));
}

/// A table whose records all come from an ok table is ok.
proof fn lemma_table_ok_transfer(a: Seq<Tabstop>, b: Seq<Tabstop>, raws: Set<usize>)
    requires
        records_from(b, a),
        table_ok(a, raws),
    ensures
        table_ok(b, raws),
{
    assert forall|i: int| 0 <= i < b.len() implies tabstop_ok(#[trigger] b[i], raws, None) by {
        let j = choose|j: int| 0 <= j < a.len() && b[i] == #[trigger] a[j];
        assert(tabstop_ok(a[j], raws, None));
    }
}

/// Guarantees a terminal tabstop: if no record carries raw number 0, an
/// empty one is appended last (raw 0 orders after every other number) and
/// a reference to it is appended to the root element sequence.
fn ensure_last_tabstop(ts: Vec<Tabstop>, els: Vec<SnippetElement>) -> (r: (
    Vec<Tabstop>,
    Vec<SnippetElement>,
))
    requires
        sorted_strict(ts@),
        table_ok(ts@, raw_set(ts@)),
        elems_closed(els@, raw_set(ts@)),
    ensures
        sorted_strict(r.0@),
        r.0@.len() >= 1,
        (r.0@[r.0@.len() - 1]).idx.0 == 0,
        raw_set(r.0@) == raw_set(ts@).insert(0),
        table_ok(r.0@, raw_set(r.0@)),
        elems_closed(r.1@, raw_set(r.0@)),
        (ts@.len() > 0 && (ts@[ts@.len() - 1]).idx.0 == 0) ==> r.0@ == ts@ && r.1@ == els@,
        !(ts@.len() > 0 && (ts@[ts@.len() - 1]).idx.0 == 0) ==> r.0@ == ts@.push(
            (Tabstop { idx: TabstopIdx(0), parent: None, kind: TabstopKind::Empty }),
        ) && r.1@ == els@.push((SnippetElement::Tabstop { idx: TabstopIdx(0) })),
{
    let mut ts = ts;
    let mut els = els;
    if ts.len() > 0 && ts[ts.len() - 1].idx.0 == 0 {
        proof {
            assert(raw_set(ts@).contains(0)) by {
                assert((ts@[ts@.len() - 1]).idx.0 == 0);
            }
            assert(raw_set(ts@) =~= raw_set(ts@).insert(0));
        }
        return (ts, els);
    }
    let ghost before = ts@;
    proof {
        // raw number 0 orders last, so if it were present at all it would
        // stand at the end
        assert forall|i: int| 0 <= i < before.len() implies (#[trigger] before[i]).idx.0 != 0 by {
            if i < before.len() - 1 {
                assert(raw_key(before[i].idx.0) < raw_key(before[before.len() - 1].idx.0));
            }
        }
    }
    ts.push(Tabstop { idx: TabstopIdx(0), parent: None, kind: TabstopKind::Empty });
    els.push(SnippetElement::Tabstop { idx: TabstopIdx(0) });
    proof {
        assert((ts@[ts@.len() - 1]).idx.0 == 0);
        lemma_raw_set_push(before, ts@[ts@.len() - 1]);
        assert forall|i: int, j: int|
            0 <= i < j < ts@.len() implies raw_key((#[trigger] ts@[i]).idx.0) < raw_key(
            (#[trigger] ts@[j]).idx.0,
        ) by {
            if j < ts@.len() - 1 {
                assert(ts@[i] == before[i] && ts@[j] == before[j]);
            } else {
                assert(ts@[i] == before[i]);
                assert(before[i].idx.0 != 0);
            }
        }
        assert(raw_set(before).subset_of(raw_set(ts@))) by {
            assert forall|x: usize| raw_set(before).contains(x) implies raw_set(ts@).contains(
                x,
            ) by {
                let w = choose|k: int| 0 <= k < before.len() && (#[trigger] before[k]).idx.0 == x;
                assert(ts@[w] == before[w]);
                assert((ts@[w]).idx.0 == x);
            }
        }
        assert(raw_set(ts@).contains(0)) by {
            assert((ts@[ts@.len() - 1]).idx.0 == 0);
        }
        assert forall|i: int| 0 <= i < ts@.len() implies tabstop_ok(
            #[trigger] ts@[i],
            raw_set(ts@),
            None,
        ) by {
            if i < ts@.len() - 1 {
                assert(ts@[i] == before[i]);
                assert(tabstop_ok(before[i], raw_set(before), None));
                lemma_tabstop_ok_mono(before[i], raw_set(before), raw_set(ts@), None);
            }
        }
        lemma_elems_closed_mono(els@.drop_last(), raw_set(before), raw_set(ts@));
        assert forall|i: int| 0 <= i < els@.len() implies elem_closed(
            #[trigger] els@[i],
            raw_set(ts@),
        ) by {
            if i < els@.len() - 1 {
                assert(els@[i] == els@.drop_last()[i]);
            }
        }
    }
    (ts, els)
}

/// Finds the table position holding the raw number `raw`.
fn resolve(raws: &Vec<usize>, raw: usize) -> (r: usize)
    requires
        raws@.contains(raw),
    ensures
        r < raws@.len(),
        raws@[r as int] == raw,
{
    let mut i: usize = 0;
    while i < raws.len()
        invariant
            0 <= i <= raws@.len(),
            forall|k: int| 0 <= k < i ==> raws@[k] != raw,
            raws@.contains(raw),
        decreases raws@.len() - i,
    {
        if raws[i] == raw {
            return i;
        }
        i += 1;
    }
    proof {
        // unreachable: the raw number is present by the precondition
        let w = choose|k: int| 0 <= k < raws@.len() && raws@[k] == raw;
        assert(false);
    }
    0
}

/// The set of numbers occurring in a sequence.
pub open spec fn members(s: Seq<usize>) -> Set<usize> {
    Set::new(|r: usize| s.contains(r))
}

/// The raw number of each table record, by position.
pub open spec fn table_raws(ts: Seq<Tabstop>) -> Seq<usize> {
    ts.map_values(|t: Tabstop| t.idx.0)
}

/// `new_e` is `old_e` with every tabstop reference replaced by a position
/// of `raws` that holds its raw number, recursively through variable
/// defaults; text, names and transforms are kept.
pub open spec fn elem_renumbered(old_e: SnippetElement, new_e: SnippetElement, raws: Seq<usize>) -> bool
    decreases old_e,
{
    match old_e {
        SnippetElement::Tabstop { idx } => new_e matches SnippetElement::Tabstop { idx: ni }
            && ni.0 < raws.len() && raws[ni.0 as int] == idx.0,
        SnippetElement::Variable { name, default, transform } => new_e matches SnippetElement::Variable {
            name: n2, default: d2, transform: t2 } && n2 == name && t2 == transform && (match (
            default,
            d2,
        ) {
            (Some(d), Some(nd)) => elems_renumbered(d@, nd@, raws),
            (None, None) => true,
            _ => false,
        }),
        SnippetElement::Text(_) => new_e == old_e,
    }
}

pub open spec fn elems_renumbered(a: Seq<SnippetElement>, b: Seq<SnippetElement>, raws: Seq<usize>) -> bool
    decreases a,
{
    a.len() == b.len() && forall|i: int|
        0 <= i < a.len() ==> elem_renumbered(#[trigger] a[i], b[i], raws)
}

/// Rewrites every tabstop reference in the element list from its raw
/// number to its position in the table described by `raws`.
fn renumber_elems(els: Vec<SnippetElement>, raws: &Vec<usize>) -> (out: Vec<SnippetElement>)
    requires
        elems_closed(els@, members(raws@)),
    ensures
        out@.len() == els@.len(),
        elems_closed(out@, below(raws@.len() as nat)),
        elems_renumbered(els@, out@, raws@),
    decreases els@,
{
    let mut els = els;
    let ghost entry_seq = els@;
    if els.len() == 0 {
        return Vec::new();
    }
    let e = els.remove(0);
    let ghost ge = entry_seq[0];
    proof {
        assert(elem_closed(ge, members(raws@)));
    }
    let first: SnippetElement = match e {
        SnippetElement::Tabstop { idx } => {
            proof {
                assert(members(raws@).contains(idx.0));
            }
            let r = resolve(raws, idx.0);
            SnippetElement::Tabstop { idx: TabstopIdx(r) }
        },
        SnippetElement::Variable { name, default, transform } => {
            let default2 = match default {
                Some(d) => {
                    proof {
                        assert(decreases_to!(entry_seq => entry_seq[0]));
                        assert(decreases_to!(ge => ge->default));
                        assert(decreases_to!(ge->default => ge->default->0));
                        assert(decreases_to!(ge->default->0 => ge->default->0@));
                        assert forall|i: int| 0 <= i < d@.len() implies elem_closed(
                            #[trigger] d@[i],
                            members(raws@),
                        ) by {}
                    }
                    Some(renumber_elems(d, raws))
                },
                None => None,
            };
            SnippetElement::Variable { name, default: default2, transform }
        },
        SnippetElement::Text(t) => SnippetElement::Text(t),
    };
    proof {
        assert(elem_closed(first, below(raws@.len() as nat)));
        assert(els@ =~= entry_seq.subrange(1, entry_seq.len() as int));
        assert(decreases_to!(entry_seq => entry_seq.subrange(1, entry_seq.len() as int)));
    }
    let mut rest = renumber_elems(els, raws);
    let ghost grest = rest@;
    let mut out: Vec<SnippetElement> = Vec::new();
    out.push(first);
    out.append(&mut rest);
    proof {
        assert(elem_renumbered(ge, first, raws@));
        assert forall|i: int| 0 <= i < out@.len() implies elem_closed(
            #[trigger] out@[i],
            below(raws@.len() as nat),
        ) by {
            if i > 0 {
                assert(out@[i] == grest[i - 1]);
            }
        }
        assert forall|i: int| 0 <= i < entry_seq.len() implies elem_renumbered(
            #[trigger] entry_seq[i],
            out@[i],
            raws@,
        ) by {
            if i > 0 {
                assert(out@[i] == grest[i - 1]);
                assert(entry_seq.subrange(1, entry_seq.len() as int)[i - 1] == entry_seq[i]);
            }
        }
    }
    out
}

/// Replaces every raw tabstop number, in the element tree and in the table's
/// parent links and placeholder defaults, by its resolved table position.
fn renumber_tabstops(tabstops: Vec<Tabstop>, elements: Vec<SnippetElement>) -> (r: (
    Vec<Tabstop>,
    Vec<SnippetElement>,
))
    requires
        table_ok(tabstops@, raw_set(tabstops@)),
        elems_closed(elements@, raw_set(tabstops@)),
    ensures
        r.0@.len() == tabstops@.len(),
        forall|i: int| 0 <= i < r.0@.len() ==> (#[trigger] r.0@[i]).idx == tabstops@[i].idx,
        raw_set(r.0@) == raw_set(tabstops@),
        table_resolved(r.0@, r.0@.len() as nat),
        elems_closed(r.1@, below(r.0@.len() as nat)),
        r.1@.len() == elements@.len(),
        elems_renumbered(elements@, r.1@, table_raws(tabstops@)),
        forall|i: int|
            0 <= i < r.0@.len() ==> (match (#[trigger] tabstops@[i]).parent {
                Some(p) => r.0@[i].parent matches Some(np) && (np.0 as int) < tabstops@.len()
                    && (tabstops@[np.0 as int]).idx.0 == p.0,
                None => r.0@[i].parent is None,
            }),
        forall|i: int|
            0 <= i < r.0@.len() ==> (match (#[trigger] tabstops@[i]).kind {
                TabstopKind::Placeholder { default } => r.0@[i].kind matches TabstopKind::Placeholder {
                    default: nd } && elems_renumbered(default@, nd@, table_raws(tabstops@)),
                _ => r.0@[i].kind == tabstops@[i].kind,
            }),
{
    let ghost orig = tabstops@;
    let mut raws: Vec<usize> = Vec::new();
    let mut i: usize = 0;
    while i < tabstops.len()
        invariant
            0 <= i <= tabstops@.len(),
            tabstops@ == orig,
            raws@.len() == i,
            forall|k: int| 0 <= k < i ==> raws@[k] == (#[trigger] orig[k]).idx.0,
        decreases tabstops@.len() - i,
    {
        raws.push(tabstops[i].idx.0);
        i += 1;
    }
    proof {
        assert(raws@ =~= table_raws(orig));
        assert forall|x: usize| raw_set(orig).contains(x) implies members(raws@).contains(x) by {
            let w = choose|k: int| 0 <= k < orig.len() && (#[trigger] orig[k]).idx.0 == x;
            assert(raws@[w] == x);
            assert(raws@.contains(x));
        }
        lemma_elems_closed_mono(elements@, raw_set(orig), members(raws@));
    }
    let new_elements = renumber_elems(elements, &raws);
    let mut ts = tabstops;
    let mut out: Vec<Tabstop> = Vec::new();
    let ghost mut done: int = 0;
    let n = raws.len();
    while ts.len() > 0
        invariant
            0 <= done <= orig.len(),
            ts@ =~= orig.subrange(done, orig.len() as int),
            n == raws@.len(),
            raws@.len() == orig.len(),
            forall|k: int| 0 <= k < orig.len() ==> raws@[k] == (#[trigger] orig[k]).idx.0,
            table_ok(orig, raw_set(orig)),
            out@.len() == done,
            raws@ == table_raws(orig),
            forall|k: int| 0 <= k < done ==> (#[trigger] out@[k]).idx == orig[k].idx,
            table_resolved(out@, orig.len() as nat),
            forall|k: int|
                0 <= k < done ==> (match (#[trigger] orig[k]).parent {
                    Some(p) => out@[k].parent matches Some(np) && (np.0 as int) < orig.len()
                        && (orig[np.0 as int]).idx.0 == p.0,
                    None => out@[k].parent is None,
                }),
            forall|k: int|
                0 <= k < done ==> (match (#[trigger] orig[k]).kind {
                    TabstopKind::Placeholder { default } => out@[k].kind matches TabstopKind::Placeholder {
                        default: nd } && elems_renumbered(default@, nd@, table_raws(orig)),
                    _ => out@[k].kind == orig[k].kind,
                }),
        decreases ts@.len(),
    {
        let rec = ts.remove(0);
        proof {
            assert(rec == orig[done]);
            assert(ts@ =~= orig.subrange(done + 1, orig.len() as int));
            assert(tabstop_ok(rec, raw_set(orig), None));
        }
        let parent = match rec.parent {
            Some(p) => {
                proof {
                    assert(raw_set(orig).contains(p.0));
                    assert(members(raws@).contains(p.0));
                }
                Some(TabstopIdx(resolve(&raws, p.0)))
            },
            None => None,
        };
        let kind = match rec.kind {
            TabstopKind::Placeholder { default } => {
                proof {
                    lemma_elems_closed_mono(default@, raw_set(orig), members(raws@));
                }
                TabstopKind::Placeholder { default: renumber_elems(default, &raws) }
            },
            other => other,
        };
        let ghost before = out@;
        out.push(Tabstop { idx: rec.idx, parent, kind });
        proof {
            assert forall|k: int| 0 <= k < done + 1 implies (#[trigger] out@[k]).idx
                == orig[k].idx by {
                if k < done {
                    assert(out@[k] == before[k]);
                }
            }
            assert forall|k: int|
                0 <= k < out@.len() implies ((match (#[trigger] out@[k]).parent {
                Some(p) => p.0 < orig.len() as nat,
                None => true,
            }) && kind_closed(out@[k].kind, below(orig.len() as nat))) by {
                if k < done {
                    assert(out@[k] == before[k]);
                }
            }
            assert forall|k: int|
                0 <= k < done + 1 implies (match (#[trigger] orig[k]).parent {
                Some(p) => out@[k].parent matches Some(np) && (np.0 as int) < orig.len() && (
                orig[np.0 as int]).idx.0 == p.0,
                None => out@[k].parent is None,
            }) by {
                if k < done {
                    assert(out@[k] == before[k]);
                }
            }
            assert forall|k: int|
                0 <= k < done + 1 implies (match (#[trigger] orig[k]).kind {
                TabstopKind::Placeholder { default } => out@[k].kind matches TabstopKind::Placeholder {
                    default: nd } && elems_renumbered(default@, nd@, table_raws(orig)),
                _ => out@[k].kind == orig[k].kind,
            }) by {
                if k < done {
                    assert(out@[k] == before[k]);
                }
            }
            done = done + 1;
        }
    }
    proof {
        assert forall|x: usize| raw_set(out@).contains(x) implies raw_set(orig).contains(x) by {
            let i = choose|i: int| 0 <= i < out@.len() && (#[trigger] out@[i]).idx.0 == x;
            assert((orig[i]).idx.0 == x);
        }
        assert forall|x: usize| raw_set(orig).contains(x) implies raw_set(out@).contains(x) by {
            let i = choose|i: int| 0 <= i < orig.len() && (#[trigger] orig[i]).idx.0 == x;
            assert((out@[i]).idx.0 == x);
        }
        assert(raw_set(out@) =~= raw_set(orig));
    }
    (out, new_elements)
}

/// An elaborated snippet: a flat, deduplicated tabstop table sorted by raw
/// number, plus the element tree, with every tabstop reference resolved to
/// a table position.
#[derive(Debug)]
pub struct Snippet {
    elements: Vec<SnippetElement>,
    tabstops: Vec<Tabstop>,
}

impl Snippet {
    pub closed spec fn spec_elements(self) -> Seq<SnippetElement> {
        self.elements@
    }

    pub closed spec fn spec_tabstops(self) -> Seq<Tabstop> {
        self.tabstops@
    }

    /// The number of tabstops; resolved indices are exactly `0 <= i < len`.
    pub open spec fn spec_len(self) -> nat {
        self.spec_tabstops().len()
    }

    /// A well-formed elaborated snippet: at least one tabstop; the last
    /// record is the terminal tabstop (raw number 0); the table is
    /// strictly sorted by raw-number key, so resolved indices follow the
    /// written numbers with the terminal tabstop last; and every tabstop
    /// reference, in the element tree and in the table itself, is a
    /// resolved index below the table's length.
    pub open spec fn wf(self) -> bool {
        &&& self.spec_tabstops().len() >= 1
        &&& (self.spec_tabstops()[self.spec_tabstops().len() - 1]).idx.0 == 0
        &&& sorted_strict(self.spec_tabstops())
        &&& elems_closed(self.spec_elements(), below(self.spec_len()))
        &&& table_resolved(self.spec_tabstops(), self.spec_len())
    }

    /// Elaborates a parsed template tree into a normalized snippet:
    /// collects tabstop records, merges duplicate raw numbers, guarantees a
    /// terminal tabstop, and renumbers all references to resolved indices.
    pub fn new(elements: Vec<ParsedElement>) -> (s: Snippet)
        ensures
            s.wf(),
            raw_set(s.spec_tabstops()) == parsed_elems_raws(elements@).insert(0),
            s.spec_elements().len() == elements@.len() || s.spec_elements().len() == elements@.len()
                + 1,
            (s.spec_elements().len() == elements@.len()) == parsed_elems_raws(
                elements@,
            ).contains(0),
            forall|r: usize|
                #[trigger] parsed_elems_content(elements@, r) ==> content_kept(
                    r,
                    s.spec_tabstops(),
                ),
            forall|i: int|
                0 <= i < elements@.len() ==> elem_resolved_from(
                    #[trigger] elements@[i],
                    s.spec_elements()[i],
                    table_raws(s.spec_tabstops()),
                ),
            s.spec_elements().len() == elements@.len() + 1 ==> (s.spec_elements()[elements@.len() as int] matches SnippetElement::Tabstop { idx }
                && idx.0 as int == s.spec_len() - 1),
    {
        let ghost input = elements@;
        let mut tabstops: Vec<Tabstop> = Vec::new();
        let elements = elaborate(elements, None, &mut tabstops);
        proof {
            assert(table_ok(tabstops@, raw_set(tabstops@)));
            assert(raw_set(tabstops@) == parsed_elems_raws(input)) by {
                assert(raw_set(tabstops@) =~= Set::empty().union(parsed_elems_raws(input)));
                assert(Set::empty().union(parsed_elems_raws(input)) =~= parsed_elems_raws(input));
            }
        }
        let ghost t0 = tabstops@;
        let tabstops = sort_by_raw(tabstops);
        proof {
            lemma_fixup_raws(t0, tabstops@);
            lemma_table_ok_transfer(t0, tabstops@, raw_set(t0));
        }
        let ghost t1 = tabstops@;
        let tabstops = dedup_tabstops(tabstops);
        proof {
            lemma_fixup_raws(t1, tabstops@);
            lemma_table_ok_transfer(t1, tabstops@, raw_set(t1));
            assert(raw_set(tabstops@) == raw_set(t0));
            assert(table_ok(tabstops@, raw_set(tabstops@)));
        }
        let ghost t_pre = tabstops@;
        let ghost els1 = elements@;
        let (tabstops, elements) = ensure_last_tabstop(tabstops, elements);
        let ghost els2 = elements@;
        let ghost t2 = tabstops@;
        let (tabstops, elements) = renumber_tabstops(tabstops, elements);
        proof {
            assert(tabstops@.len() >= 1);
            assert((tabstops@[tabstops@.len() - 1]).idx == t2[t2.len() - 1].idx);
            assert forall|i: int, j: int|
                0 <= i < j < tabstops@.len() implies raw_key((#[trigger] tabstops@[i]).idx.0)
                < raw_key((#[trigger] tabstops@[j]).idx.0) by {
                assert(tabstops@[i].idx == t2[i].idx);
                assert(tabstops@[j].idx == t2[j].idx);
            }
        }
        proof {
            assert(raw_set(tabstops@) == parsed_elems_raws(input).insert(0));
            // the raw numbers of each table position survive renumbering
            assert(table_raws(tabstops@) =~= table_raws(t2));
            // whether the terminal tabstop had to be synthesized is exactly
            // whether the template wrote raw number 0
            let had0 = t_pre.len() > 0 && (t_pre[t_pre.len() - 1]).idx.0 == 0;
            assert(had0 == raw_set(t_pre).contains(0)) by {
                if had0 {
                    assert((t_pre[t_pre.len() - 1]).idx.0 == 0);
                } else {
                    if raw_set(t_pre).contains(0) {
                        let w = choose|i: int|
                            0 <= i < t_pre.len() && (#[trigger] t_pre[i]).idx.0 == 0;
                        if w < t_pre.len() - 1 {
                            assert(raw_key((t_pre[w]).idx.0) < raw_key(
                                (t_pre[t_pre.len() - 1]).idx.0,
                            ));
                        }
                        assert(false);
                    }
                }
            }
            assert(raw_set(t_pre) == parsed_elems_raws(input));
            // each root element resolves its node's raw number to the
            // table position carrying it
            assert forall|i: int| 0 <= i < input.len() implies elem_resolved_from(
                #[trigger] input[i],
                elements@[i],
                table_raws(tabstops@),
            ) by {
                assert(els2[i] == els1[i]);
                assert(elem_raw_from(input[i], els1[i]));
                assert(elem_renumbered(els2[i], elements@[i], table_raws(t2)));
                lemma_raw_then_renumbered(input[i], els1[i], elements@[i], table_raws(t2));
            }
            // a raw number written with content keeps a content-carrying
            // record through sorting, merging and renumbering
            assert forall|r: usize| #[trigger] parsed_elems_content(input, r) implies content_kept(
                r,
                tabstops@,
            ) by {
                assert(content_kept(r, t0));
                let w0 = choose|i: int|
                    0 <= i < t0.len() && (#[trigger] t0[i]).idx.0 == r && !spec_kind_contentless(
                        t0[i].kind,
                    );
                assert(content_kept(r, t1));
                let w1 = choose|i: int|
                    0 <= i < t1.len() && (#[trigger] t1[i]).idx.0 == r && !spec_kind_contentless(
                        t1[i].kind,
                    );
                assert(content_kept(r, t_pre));
                assert(content_kept(r, t2)) by {
                    if t2 != t_pre {
                        assert(t2 == t_pre.push(
                            (Tabstop { idx: TabstopIdx(0), parent: None, kind: TabstopKind::Empty }),
                        ));
                        assert(t_pre.is_prefix_of(t2)) by {
                            assert(t_pre =~= t2.subrange(0, t_pre.len() as int));
                        }
                        lemma_content_kept_prefix(t_pre, t2, r);
                    }
                }
                let w2 = choose|i: int|
                    0 <= i < t2.len() && (#[trigger] t2[i]).idx.0 == r && !spec_kind_contentless(
                        t2[i].kind,
                    );
                assert((tabstops@[w2]).idx.0 == r);
                assert(!spec_kind_contentless((tabstops@[w2]).kind)) by {
                    match t2[w2].kind {
                        TabstopKind::Placeholder { default } => {
                            assert(tabstops@[w2].kind matches TabstopKind::Placeholder {
                                default: nd } && elems_renumbered(
                                default@,
                                nd@,
                                table_raws(t2),
                            ));
                        },
                        _ => {
                            assert(tabstops@[w2].kind == t2[w2].kind);
                        },
                    }
                }
            }
            // the synthesized reference points at the terminal position
            if elements@.len() == input.len() + 1 {
                assert(els2 == els1.push(SnippetElement::Tabstop { idx: TabstopIdx(0) }));
                assert(elem_renumbered(
                    els2[input.len() as int],
                    elements@[input.len() as int],
                    table_raws(t2),
                ));
                let ne = elements@[input.len() as int];
                assert(ne matches SnippetElement::Tabstop { idx } && idx.0 < t2.len()
                    && (t2[idx.0 as int]).idx.0 == 0);
                if let SnippetElement::Tabstop { idx } = ne {
                    if (idx.0 as int) < t2.len() - 1 {
                        assert(raw_key((t2[idx.0 as int]).idx.0) < raw_key(
                            (t2[t2.len() - 1]).idx.0,
                        ));
                        assert((t2[t2.len() - 1]).idx.0 == 0);
                        assert(false);
                    }
                }
            }
        }
        Snippet { elements, tabstops }
    }

    /// The root element sequence.
    pub fn elements(&self) -> (r: &Vec<SnippetElement>)
        ensures
            r@ == self.spec_elements(),
    {
        &self.elements
    }

    /// The tabstop table, by resolved index.
    pub fn tabstops(&self) -> (r: &Vec<Tabstop>)
        ensures
            r@ == self.spec_tabstops(),
    {
        &self.tabstops
    }
}

} // verus!
