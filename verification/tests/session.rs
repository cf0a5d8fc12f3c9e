use snippets::active::ActiveSnippet;
use snippets::elaborate::{ParsedElement, Snippet};
use snippets::host::{Assoc, ChangeSet, Direction, Op, SelRange, Selection};
use snippets::range::Range;
use snippets::render::{RenderedSnippet, VarBindings};
use snippets::TabstopIdx;

fn cv(s: &str) -> Vec<char> {
    s.chars().collect()
}

fn tab(n: usize) -> ParsedElement {
    ParsedElement::Tabstop { tabstop: n, transform: None }
}

fn txt(s: &str) -> ParsedElement {
    ParsedElement::Text(cv(s))
}

fn render_once(tree: Vec<ParsedElement>) -> RenderedSnippet {
    let s = Snippet::new(tree);
    let mut rendered = s.prepare_render();
    let vars = VarBindings::new(Vec::new());
    let _ = s.render_at(&mut rendered, &cv("\n"), &vars, 0);
    rendered
}

fn session(tree: Vec<ParsedElement>) -> (ActiveSnippet, Selection) {
    let rendered = render_once(tree);
    let (s, sel) = ActiveSnippet::new(0, Direction::Forward, rendered);
    (s.expect("more than one tabstop"), sel)
}

#[test]
fn active_set_contains_all_ancestors() {
    // "${2:a$1}": activating the nested tabstop keeps its enclosing
    // placeholder active too
    let (s, _sel) = session(vec![ParsedElement::Placeholder {
        tabstop: 2,
        value: vec![txt("a"), tab(1)],
    }]);
    // table: [$1, $2, $0]; the first real tabstop $1 is active
    assert_eq!(s.active_index(), 0);
    assert_eq!(s.tabstop(TabstopIdx(0)).parent, Some(TabstopIdx(1)));
    assert!(s.is_active(0));
    assert!(s.is_active(1));
    assert!(!s.is_active(2));
}

#[test]
fn forward_navigation_visits_all_and_completes_on_terminal() {
    // "$1 $2 $3": forward navigation visits every tabstop in resolved
    // order and reports completion exactly when the terminal tabstop
    // (sorted last) is reached
    let (mut s, _sel) = session(vec![tab(1), txt(" "), tab(2), txt(" "), tab(3)]);
    assert_eq!(s.active_index(), 0);
    let cur = Selection::new(vec![SelRange { anchor: 0, head: 0 }], 0);
    let (_sel, done) = s.next_tabstop(&cur).expect("tabstop 2");
    assert_eq!(s.active_index(), 1);
    assert!(!done);
    let (_sel, done) = s.next_tabstop(&cur).expect("tabstop 3");
    assert_eq!(s.active_index(), 2);
    assert!(!done);
    let (_sel, done) = s.next_tabstop(&cur).expect("terminal tabstop");
    assert_eq!(s.active_index(), 3);
    assert!(done);
    assert!(s.next_tabstop(&cur).is_none());
    // and backward retraces the same stops in reverse
    assert!(s.prev_tabstop(&cur).is_some());
    assert_eq!(s.active_index(), 2);
    assert!(s.prev_tabstop(&cur).is_some());
    assert_eq!(s.active_index(), 1);
    assert!(s.prev_tabstop(&cur).is_some());
    assert_eq!(s.active_index(), 0);
    assert!(s.prev_tabstop(&cur).is_none());
}

#[test]
fn vacuous_choice_is_skipped() {
    // a choice tabstop whose ranges are all empty offers nothing and is
    // skipped during navigation
    let (mut s, _sel) = session(vec![
        tab(1),
        ParsedElement::Choice { tabstop: 2, choices: vec![cv("a"), cv("b")] },
        tab(3),
    ]);
    let cur = Selection::new(vec![SelRange { anchor: 0, head: 0 }], 0);
    let (_sel, _done) = s.next_tabstop(&cur).expect("skips the vacuous choice");
    assert_eq!(s.active_index(), 2);
}

#[test]
fn insertion_at_active_boundary_is_absorbed() {
    // "a${1:xy}b$2": the active tabstop absorbs text inserted exactly at
    // its start boundary
    let (mut s, _sel) = session(vec![
        txt("a"),
        ParsedElement::Placeholder { tabstop: 1, value: vec![txt("xy")] },
        txt("b"),
        tab(2),
    ]);
    assert_eq!(s.active_index(), 0);
    assert_eq!(s.tabstop(TabstopIdx(0)).ranges, vec![Range { start: 1, end: 3 }]);
    s.map(&ChangeSet::new(vec![Op::Retain(1), Op::Insert(2), Op::Retain(3)]));
    // active tabstop: start unchanged, end grew by the insertion length
    assert_eq!(s.tabstop(TabstopIdx(0)).ranges, vec![Range { start: 1, end: 5 }]);
    // inactive tabstops after the insertion shift wholesale
    assert_eq!(s.tabstop(TabstopIdx(1)).ranges, vec![Range { start: 6, end: 6 }]);
    assert_eq!(s.insertion_ranges(), &vec![Range { start: 0, end: 6 }]);
}

#[test]
fn insertion_at_inactive_boundary_is_excluded() {
    let (mut s, _sel) = session(vec![
        txt("a"),
        ParsedElement::Placeholder { tabstop: 1, value: vec![txt("xy")] },
        txt("b"),
        tab(2),
    ]);
    // $2 sits at 4..4 and is not active; insert 3 characters exactly there
    s.map(&ChangeSet::new(vec![Op::Retain(4), Op::Insert(3)]));
    assert_eq!(s.tabstop(TabstopIdx(1)).ranges, vec![Range { start: 7, end: 7 }]);
    // the active tabstop is untouched
    assert_eq!(s.tabstop(TabstopIdx(0)).ranges, vec![Range { start: 1, end: 3 }]);
}

#[test]
fn empty_active_tabstop_absorbs_typed_text() {
    // "a$1b": the active tabstop's range is empty; text typed exactly at
    // it is absorbed, so the range grows
    let (mut s, _sel) = session(vec![txt("a"), tab(1), txt("b")]);
    assert_eq!(s.tabstop(TabstopIdx(0)).ranges, vec![Range { start: 1, end: 1 }]);
    s.map(&ChangeSet::new(vec![Op::Retain(1), Op::Insert(2), Op::Retain(1)]));
    assert_eq!(s.tabstop(TabstopIdx(0)).ranges, vec![Range { start: 1, end: 3 }]);
}

#[test]
fn deleting_an_insertion_drops_its_ranges() {
    // deleting the whole snippet region inverts its top-level range and
    // drops the tabstop ranges it owned
    let (mut s, _sel) = session(vec![txt("a"), tab(1), txt("b")]);
    // text "ab", $1 at 1..1, top-level 0..2; delete all of it
    s.map(&ChangeSet::new(vec![Op::Delete(2)]));
    let top = s.insertion_ranges()[0];
    assert!(top.start > top.end || top.start == top.end);
}

#[test]
fn is_valid_tracks_active_tabstop() {
    let (s, _sel) = session(vec![
        txt("a"),
        ParsedElement::Placeholder { tabstop: 1, value: vec![txt("xy")] },
        txt("b"),
        tab(2),
    ]);
    // active tabstop covers 1..3
    let inside = Selection::new(vec![SelRange { anchor: 1, head: 3 }], 0);
    assert!(s.is_valid(&inside));
    let outside = Selection::new(vec![SelRange { anchor: 0, head: 4 }], 0);
    assert!(!s.is_valid(&outside));
}

#[test]
fn insert_snippet_reparents_and_grows_table() {
    // active tabstop $1 has parent P = its enclosing placeholder
    let (mut s, _sel) = session(vec![ParsedElement::Placeholder {
        tabstop: 2,
        value: vec![txt("a"), tab(1)],
    }]);
    assert_eq!(s.active_index(), 0);
    let parent = s.tabstop(TabstopIdx(0)).parent;
    assert_eq!(parent, Some(TabstopIdx(1)));
    let before = s.tabstop_count();
    let rendered2 = render_once(vec![txt("x"), tab(1), txt("y")]);
    let inserted = rendered2.tabstops.len();
    s.insert_snippet(rendered2);
    // the count grows by exactly the inserted snippet's tabstop count
    assert_eq!(s.tabstop_count(), before + inserted);
    // every top-level tabstop of the inserted snippet now has parent P
    assert_eq!(s.tabstop(TabstopIdx(0)).parent, parent);
    assert_eq!(s.tabstop(TabstopIdx(1)).parent, parent);
}

#[test]
fn single_tabstop_session_reports_no_navigation() {
    // a template with only the terminal tabstop yields no session
    let rendered = render_once(vec![txt("done")]);
    let (s, sel) = ActiveSnippet::new(0, Direction::Forward, rendered);
    assert!(s.is_none());
    assert_eq!(sel.ranges.len(), 1);
    assert_eq!(sel.ranges[0], SelRange { anchor: 4, head: 4 });
}

#[test]
fn backward_activation_flips_selection() {
    let (mut s, _sel) = session(vec![
        ParsedElement::Placeholder { tabstop: 1, value: vec![txt("ab")] },
        txt("-"),
        ParsedElement::Placeholder { tabstop: 2, value: vec![txt("cd")] },
    ]);
    let cur = Selection::new(vec![SelRange { anchor: 0, head: 2 }], 0);
    let (_sel2, _done) = s.next_tabstop(&cur).expect("second placeholder");
    assert_eq!(s.active_index(), 1);
    let sel3 = s.prev_tabstop(&cur).expect("first placeholder again");
    // moving backward the anchor/head are swapped
    assert_eq!(sel3.ranges[0], SelRange { anchor: 2, head: 0 });
}

#[test]
fn map_positions_follow_edits() {
    let cs = ChangeSet::new(vec![Op::Retain(2), Op::Delete(3), Op::Insert(1), Op::Retain(4)]);
    assert_eq!(cs.map_pos(0, Assoc::Before), 0);
    assert_eq!(cs.map_pos(2, Assoc::Before), 2);
    // inside the deleted span: collapses to the deletion point
    assert_eq!(cs.map_pos(4, Assoc::Before), 2);
    // at the insertion point after the deletion
    assert_eq!(cs.map_pos(5, Assoc::Before), 2);
    assert_eq!(cs.map_pos(5, Assoc::After), 3);
    assert_eq!(cs.map_pos(9, Assoc::Before), 7);
}
