use snippets::elaborate::{ParsedElement, Snippet};
use snippets::range::{is_subset, Range};
use snippets::render::{RenderInsert, Tabstop, TabstopKind, VarBindings};
use snippets::transform::{CaseChange, FormatItem, ParsedTransform, Transform};

fn cv(s: &str) -> Vec<char> {
    s.chars().collect()
}

fn text_of(v: &[char]) -> String {
    v.iter().collect()
}

fn tab(n: usize) -> ParsedElement {
    ParsedElement::Tabstop { tabstop: n, transform: None }
}

fn txt(s: &str) -> ParsedElement {
    ParsedElement::Text(cv(s))
}

fn assert_snippet(tree: Vec<ParsedElement>, expect: &str, tabstops: &[Tabstop]) {
    let snippet = Snippet::new(tree);
    let mut rendered = snippet.prepare_render();
    let nl = cv("\t\n");
    let vars = VarBindings::new(Vec::new());
    let (text, len) = snippet.render_at(&mut rendered, &nl, &vars, 0);
    assert_eq!(text_of(&text), expect);
    assert_eq!(len, text.len());
    assert_eq!(&rendered.tabstops[..], tabstops);
    assert_eq!(rendered.ranges.last().unwrap().end, text.len());
    assert_eq!(rendered.ranges.last().unwrap().start, 0);
}

#[test]
fn rust_macro() {
    assert_snippet(
        vec![
            txt("macro_rules! "),
            ParsedElement::Placeholder { tabstop: 1, value: vec![txt("name")] },
            txt(" {\n    ("),
            tab(3),
            txt(") => {\n        "),
            tab(2),
            txt("\n    };\n}"),
        ],
        "macro_rules! name {\t\n    () => {\t\n        \t\n    };\t\n}",
        &[
            Tabstop {
                ranges: vec![Range { start: 13, end: 17 }],
                parent: None,
                kind: TabstopKind::Placeholder,
            },
            Tabstop {
                ranges: vec![Range { start: 42, end: 42 }],
                parent: None,
                kind: TabstopKind::Empty,
            },
            Tabstop {
                ranges: vec![Range { start: 26, end: 26 }],
                parent: None,
                kind: TabstopKind::Empty,
            },
            Tabstop {
                ranges: vec![Range { start: 53, end: 53 }],
                parent: None,
                kind: TabstopKind::Empty,
            },
        ],
    );
}

#[test]
fn resolved_indices_dense_with_terminal() {
    // sparse, out-of-order raw numbers: the table is dense, ordered by raw
    // number, with the terminal tabstop (raw 0) last
    let s = Snippet::new(vec![tab(5), txt("a"), tab(2)]);
    let table = s.tabstops();
    assert_eq!(table.len(), 3);
    assert_eq!(table[0].idx.0, 2);
    assert_eq!(table[1].idx.0, 5);
    assert_eq!(table[2].idx.0, 0);
}

#[test]
fn repeated_tabstop_shares_identity() {
    // "a$1$1b": one tabstop, two rendered ranges
    let s = Snippet::new(vec![txt("a"), tab(1), tab(1), txt("b")]);
    let mut rendered = s.prepare_render();
    let vars = VarBindings::new(Vec::new());
    let (text, _) = s.render_at(&mut rendered, &cv("\n"), &vars, 0);
    assert_eq!(text_of(&text), "ab");
    assert_eq!(rendered.tabstops.len(), 2);
    assert_eq!(
        rendered.tabstops[0].ranges,
        vec![Range { start: 1, end: 1 }, Range { start: 1, end: 1 }]
    );
}

#[test]
fn repeated_tabstop_keeps_placeholder() {
    // "a$1${1:x}b": the occurrence carrying content wins
    let s = Snippet::new(vec![
        txt("a"),
        tab(1),
        ParsedElement::Placeholder { tabstop: 1, value: vec![txt("x")] },
        txt("b"),
    ]);
    let mut rendered = s.prepare_render();
    let vars = VarBindings::new(Vec::new());
    let (text, _) = s.render_at(&mut rendered, &cv("\n"), &vars, 0);
    assert_eq!(text_of(&text), "axxb");
    assert_eq!(rendered.tabstops.len(), 2);
    assert_eq!(rendered.tabstops[0].kind, TabstopKind::Placeholder);
    assert_eq!(
        rendered.tabstops[0].ranges,
        vec![Range { start: 1, end: 2 }, Range { start: 2, end: 3 }]
    );
}

#[test]
fn subset_examples() {
    let sup = vec![Range { start: 0, end: 10 }];
    let sub = vec![Range { start: 2, end: 5 }];
    assert!(is_subset(&sup, &sub));
    let sup2 = vec![Range { start: 0, end: 5 }, Range { start: 7, end: 10 }];
    let sub2 = vec![Range { start: 4, end: 8 }];
    assert!(!is_subset(&sup2, &sub2));
}

#[test]
fn range_contains_and_empty() {
    let r = Range { start: 3, end: 7 };
    assert!(r.contains(Range { start: 3, end: 7 }));
    assert!(r.contains(Range { start: 4, end: 6 }));
    assert!(!r.contains(Range { start: 2, end: 6 }));
    assert!(!r.is_empty());
    assert!(Range { start: 5, end: 5 }.is_empty());
}

#[test]
fn variable_resolution_and_default() {
    let s = Snippet::new(vec![
        ParsedElement::Variable { name: cv("user"), default: None, transform: None },
        txt("/"),
        ParsedElement::Variable {
            name: cv("missing"),
            default: Some(vec![txt("dflt")]),
            transform: None,
        },
    ]);
    let mut rendered = s.prepare_render();
    let vars = VarBindings::new(vec![(cv("user"), cv("me"))]);
    let (text, _) = s.render_at(&mut rendered, &cv("\n"), &vars, 0);
    assert_eq!(text_of(&text), "me/dflt");
}

#[test]
fn newline_reindented() {
    let s = Snippet::new(vec![txt("a\nb")]);
    let mut rendered = s.prepare_render();
    let vars = VarBindings::new(Vec::new());
    let (text, _) = s.render_at(&mut rendered, &cv("\n    "), &vars, 0);
    assert_eq!(text_of(&text), "a\n    b");
}

#[test]
fn carriage_returns_at_line_ends_dropped() {
    // "\r\n" is one break; a trailing "\r" ends its line and is dropped
    // too; a carriage return inside a line is kept
    let s = Snippet::new(vec![txt("a\r\nb\rc\r")]);
    let mut rendered = s.prepare_render();
    let vars = VarBindings::new(Vec::new());
    let (text, _) = s.render_at(&mut rendered, &cv("\n"), &vars, 0);
    assert_eq!(text_of(&text), "a\nb\rc");
}

#[test]
fn transform_replaces_globally() {
    let t = Transform::new(ParsedTransform {
        regex: cv("o"),
        replacement: vec![FormatItem::Text(cv("0"))],
        options: cv("g"),
    })
    .unwrap();
    let mut buf = Vec::new();
    t.apply(&cv("foo"), &mut buf);
    assert_eq!(text_of(&buf), "f00");
}

#[test]
fn transform_first_match_only_without_global() {
    let t = Transform::new(ParsedTransform {
        regex: cv("o"),
        replacement: vec![FormatItem::Text(cv("0"))],
        options: cv(""),
    })
    .unwrap();
    let mut buf = Vec::new();
    t.apply(&cv("foo"), &mut buf);
    assert_eq!(text_of(&buf), "f0o");
}

#[test]
fn transform_case_changes() {
    let t = Transform::new(ParsedTransform {
        regex: cv("[a-z_]+"),
        replacement: vec![FormatItem::CaseChange(0, CaseChange::Upcase)],
        options: cv(""),
    })
    .unwrap();
    let mut buf = Vec::new();
    t.apply(&cv("ab cd"), &mut buf);
    assert_eq!(text_of(&buf), "AB cd");

    let t2 = Transform::new(ParsedTransform {
        regex: cv("[a-z_]+"),
        replacement: vec![FormatItem::CaseChange(0, CaseChange::PascalCase)],
        options: cv(""),
    })
    .unwrap();
    let mut buf2 = Vec::new();
    t2.apply(&cv("foo_bar"), &mut buf2);
    assert_eq!(text_of(&buf2), "FooBar");

    let t3 = Transform::new(ParsedTransform {
        regex: cv("[A-Za-z_]+"),
        replacement: vec![FormatItem::CaseChange(0, CaseChange::CamelCase)],
        options: cv(""),
    })
    .unwrap();
    let mut buf3 = Vec::new();
    t3.apply(&cv("Foo_bar"), &mut buf3);
    assert_eq!(text_of(&buf3), "fooBar");
}

#[test]
fn transform_conditional() {
    let make = || {
        Transform::new(ParsedTransform {
            regex: cv("(x)?y"),
            replacement: vec![FormatItem::Conditional(1, cv("A"), cv("B"))],
            options: cv(""),
        })
        .unwrap()
    };
    let mut buf = Vec::new();
    make().apply(&cv("xy"), &mut buf);
    assert_eq!(text_of(&buf), "A");
    let mut buf2 = Vec::new();
    make().apply(&cv("y"), &mut buf2);
    assert_eq!(text_of(&buf2), "B");
}

#[test]
fn transform_capture_insertion() {
    let t = Transform::new(ParsedTransform {
        regex: cv("(a+)(b+)"),
        replacement: vec![FormatItem::Capture(2), FormatItem::Capture(1)],
        options: cv(""),
    })
    .unwrap();
    let mut buf = Vec::new();
    t.apply(&cv("aabbb!"), &mut buf);
    assert_eq!(text_of(&buf), "bbbaa!");
}

#[test]
fn invalid_transform_degrades_to_empty_stop() {
    assert!(Transform::new(ParsedTransform {
        regex: cv("("),
        replacement: Vec::new(),
        options: cv(""),
    })
    .is_none());
    let s = Snippet::new(vec![ParsedElement::Tabstop {
        tabstop: 1,
        transform: Some(ParsedTransform { regex: cv("("), replacement: Vec::new(), options: cv("") }),
    }]);
    assert!(s.tabstops()[0].kind.is_empty());
}

#[test]
fn invalid_option_characters_are_ignored() {
    let t = Transform::new(ParsedTransform {
        regex: cv("o"),
        replacement: vec![FormatItem::Text(cv("0"))],
        options: cv("zgu"),
    })
    .unwrap();
    let mut buf = Vec::new();
    t.apply(&cv("oo"), &mut buf);
    assert_eq!(text_of(&buf), "00");
}

#[test]
fn variable_transform_applies() {
    let s = Snippet::new(vec![ParsedElement::Variable {
        name: cv("f"),
        default: None,
        transform: Some(ParsedTransform {
            regex: cv("o"),
            replacement: vec![FormatItem::Text(cv("0"))],
            options: cv("g"),
        }),
    }]);
    let mut rendered = s.prepare_render();
    let vars = VarBindings::new(vec![(cv("f"), cv("foo"))]);
    let (text, _) = s.render_at(&mut rendered, &cv("\n"), &vars, 0);
    assert_eq!(text_of(&text), "f00");
}

#[test]
fn multi_cursor_render_groups_ranges() {
    // the same snippet at two insertion points: every tabstop gets one
    // range per insertion point
    let s = Snippet::new(vec![txt("a"), tab(1)]);
    let inserts = vec![
        RenderInsert { start: 0, end: 0, newline_indent: cv("\n") },
        RenderInsert { start: 5, end: 5, newline_indent: cv("\n") },
    ];
    let vars = VarBindings::new(Vec::new());
    let (rendered, texts) = s.render(&inserts, &vars);
    assert_eq!(texts.len(), 2);
    assert_eq!(text_of(&texts[0]), "a");
    assert_eq!(text_of(&texts[1]), "a");
    assert_eq!(rendered.ranges, vec![Range { start: 0, end: 1 }, Range { start: 6, end: 7 }]);
    for t in &rendered.tabstops {
        assert_eq!(t.ranges.len(), 2);
        assert_eq!(t.ranges.len() % rendered.ranges.len(), 0);
    }
    assert_eq!(
        rendered.tabstops[0].ranges,
        vec![Range { start: 1, end: 1 }, Range { start: 7, end: 7 }]
    );
}

#[test]
fn choice_tabstop_carries_choices() {
    let s = Snippet::new(vec![ParsedElement::Choice {
        tabstop: 1,
        choices: vec![cv("red"), cv("green")],
    }]);
    let mut rendered = s.prepare_render();
    let vars = VarBindings::new(Vec::new());
    let (text, _) = s.render_at(&mut rendered, &cv("\n"), &vars, 0);
    assert_eq!(text_of(&text), "");
    match &rendered.tabstops[0].kind {
        TabstopKind::Choice { choices } => {
            assert_eq!(choices.len(), 2);
            assert_eq!(text_of(&choices[0]), "red");
            assert_eq!(text_of(&choices[1]), "green");
        },
        other => panic!("expected a choice kind, got {:?}", other),
    }
}
