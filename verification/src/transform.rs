//! Regex-based transforms attached to tabstops and variables: a pattern,
//! builder flags, and a replacement template of format items.

use vstd::prelude::*;

verus! {

/// A case operation applied to a numbered capture in a replacement template.
#[derive(Debug, Clone, Copy, PartialEq, Eq, Structural)]
pub enum CaseChange {
    Upcase,
    Downcase,
    Capitalize,
    CamelCase,
    PascalCase,
}

/// One item of a transform's replacement template.
#[derive(Debug, PartialEq)]
pub enum FormatItem {
    /// A literal run of text.
    Text(Vec<char>),
    /// Insert capture group `n` (nothing if it did not participate).
    Capture(usize),
    /// Insert capture group `n` with a case operation applied.
    CaseChange(usize, CaseChange),
    /// Insert the first text if capture group `n` matched non-emptily,
    /// otherwise the second.
    Conditional(usize, Vec<char>, Vec<char>),
}

/// A transform as delivered by the template grammar: a regular expression
/// source, a replacement template, and unvalidated option characters.
#[derive(Debug, PartialEq)]
pub struct ParsedTransform {
    pub regex: Vec<char>,
    pub replacement: Vec<FormatItem>,
    pub options: Vec<char>,
}

/// A validated transform: the pattern is known to compile with the stored
/// flags. Flag characters other than `i`, `m` and `g` are ignored; a `u`
/// flag would be redundant since matching is always Unicode-aware.
#[derive(Debug, PartialEq)]
pub struct Transform {
    pub pattern: Vec<char>,
    pub case_insensitive: bool,
    pub multi_line: bool,
    pub global: bool,
    pub replacement: Vec<FormatItem>,
}

/// Whether `pattern` compiles as a regular expression under the given
/// builder flags. Compilation is a function of the pattern and flags alone.
pub uninterp spec fn regex_builds(pattern: Seq<char>, case_insensitive: bool, multi_line: bool) -> bool;

/// Relies on `regex::RegexBuilder::build`: whether a pattern compiles
/// depends only on the pattern text and the configured flags.
#[verifier::external_body]
fn regex_compiles(pattern: &Vec<char>, case_insensitive: bool, multi_line: bool) -> (r: bool)
    ensures
        r == regex_builds(pattern@, case_insensitive, multi_line),
{
    let p: String = pattern.iter().collect();
    regex::RegexBuilder::new(&p)
        .case_insensitive(case_insensitive)
        .multi_line(multi_line)
        .build()
        .is_ok()
}

impl Transform {
    /// Validates a parsed transform: reads the option characters and checks
    /// that the pattern compiles. Returns `None` exactly when it does not;
    /// unrecognized option characters are ignored.
    pub fn new(transform: ParsedTransform) -> (r: Option<Transform>)
        ensures
            match r {
                Some(t) => {
                    &&& t.pattern@ == transform.regex@
                    &&& t.case_insensitive == transform.options@.contains('i')
                    &&& t.multi_line == transform.options@.contains('m')
                    &&& t.global == transform.options@.contains('g')
                    &&& t.replacement@ == transform.replacement@
                    &&& regex_builds(t.pattern@, t.case_insensitive, t.multi_line)
                },
                None => !regex_builds(
                    transform.regex@,
                    transform.options@.contains('i'),
                    transform.options@.contains('m'),
                ),
            },
    {
        let ParsedTransform { regex, replacement, options } = transform;
        let mut case_insensitive: bool = false;
        let mut multi_line: bool = false;
        let mut global: bool = false;
        let n = options.len();
        let mut k: usize = 0;
        while k < n
            invariant
                n == options@.len(),
                0 <= k <= n,
                case_insensitive == options@.subrange(0, k as int).contains('i'),
                multi_line == options@.subrange(0, k as int).contains('m'),
                global == options@.subrange(0, k as int).contains('g'),
            decreases n - k,
    {
            let c = options[k];
            proof {
                assert(options@.subrange(0, k + 1) =~= options@.subrange(0, k as int).push(
                    options@[k as int],
                ));
                vstd::seq_lib::lemma_seq_contains_after_push(
                    options@.subrange(0, k as int),
                    options@[k as int],
                    'i',
                );
                vstd::seq_lib::lemma_seq_contains_after_push(
                    options@.subrange(0, k as int),
                    options@[k as int],
                    'm',
                );
                vstd::seq_lib::lemma_seq_contains_after_push(
                    options@.subrange(0, k as int),
                    options@[k as int],
                    'g',
                );
            }
            if c == 'i' {
                case_insensitive = true;
            } else if c == 'm' {
                multi_line = true;
            } else if c == 'g' {
                global = true;
            }
            k += 1;
        }
        proof {
            assert(options@.subrange(0, n as int) =~= options@);
        }
        if regex_compiles(&regex, case_insensitive, multi_line) {
            Some(
                Transform {
                    pattern: regex,
                    case_insensitive,
                    multi_line,
                    global,
                    replacement,
                },
            )
        } else {
            None
        }
    }
}

/// Copies a character vector; `char` is `Copy`, so the view is preserved.
pub fn clone_chars(v: &Vec<char>) -> (r: Vec<char>)
    ensures
        r@ == v@,
{
    let mut out: Vec<char> = Vec::new();
    let mut i: usize = 0;
    while i < v.len()
        invariant
            0 <= i <= v@.len(),
            out@ =~= v@.subrange(0, i as int),
        decreases v@.len() - i,
    {
        out.push(v[i]);
        i += 1;
    }
    proof {
        assert(out@ =~= v@);
    }
    out
}

/// Appends every character of `src` to `dst`.
pub fn push_chars(dst: &mut Vec<char>, src: &Vec<char>)
    ensures
        final(dst)@ == old(dst)@ + src@,
{
    let ghost entry = dst@;
    let mut i: usize = 0;
    while i < src.len()
        invariant
            0 <= i <= src@.len(),
            dst@ =~= entry + src@.subrange(0, i as int),
        decreases src@.len() - i,
    {
        dst.push(src[i]);
        i += 1;
    }
    proof {
        assert(dst@ =~= entry + src@);
    }
}

/// Structural equality of format items up to views.
pub open spec fn format_item_eq(a: FormatItem, b: FormatItem) -> bool {
    match (a, b) {
        (FormatItem::Text(x), FormatItem::Text(y)) => x@ == y@,
        (FormatItem::Capture(x), FormatItem::Capture(y)) => x == y,
        (FormatItem::CaseChange(x, cx), FormatItem::CaseChange(y, cy)) => x == y && cx == cy,
        (FormatItem::Conditional(x, ix, ex), FormatItem::Conditional(y, iy, ey)) => x == y && ix@
            == iy@ && ex@ == ey@,
        _ => false,
    }
}

pub open spec fn format_items_eq(a: Seq<FormatItem>, b: Seq<FormatItem>) -> bool {
    a.len() == b.len() && forall|i: int| 0 <= i < a.len() ==> format_item_eq(
        #[trigger] a[i],
        #[trigger] b[i],
    )
}

/// Structural equality of transforms up to views.
pub open spec fn transform_eq(a: Transform, b: Transform) -> bool {
    &&& a.pattern@ == b.pattern@
    &&& a.case_insensitive == b.case_insensitive
    &&& a.multi_line == b.multi_line
    &&& a.global == b.global
    &&& format_items_eq(a.replacement@, b.replacement@)
}

impl Clone for FormatItem {
    fn clone(&self) -> (r: Self)
        ensures
            format_item_eq(*self, r),
    {
        match self {
            FormatItem::Text(t) => FormatItem::Text(clone_chars(t)),
            FormatItem::Capture(i) => FormatItem::Capture(*i),
            FormatItem::CaseChange(i, c) => FormatItem::CaseChange(*i, *c),
            FormatItem::Conditional(i, a, b) => FormatItem::Conditional(
                *i,
                clone_chars(a),
                clone_chars(b),
            ),
        }
    }
}

impl Clone for Transform {
    fn clone(&self) -> (r: Self)
        ensures
            transform_eq(*self, r),
    {
        let mut replacement: Vec<FormatItem> = Vec::new();
        let mut i: usize = 0;
        while i < self.replacement.len()
            invariant
                0 <= i <= self.replacement@.len(),
                replacement@.len() == i,
                forall|k: int|
                    0 <= k < i ==> format_item_eq(
                        #[trigger] self.replacement@[k],
                        #[trigger] replacement@[k],
                    ),
            decreases self.replacement@.len() - i,
        {
            replacement.push(self.replacement[i].clone());
            i += 1;
        }
        Transform {
            pattern: clone_chars(&self.pattern),
            case_insensitive: self.case_insensitive,
            multi_line: self.multi_line,
            global: self.global,
            replacement,
        }
    }
}

/// What `char::to_uppercase` yields for `c`, as a character sequence; a
/// function of the character alone.
pub uninterp spec fn char_upper_of(c: char) -> Seq<char>;

/// What `char::to_lowercase` yields for `c`; a function of the character
/// alone.
pub uninterp spec fn char_lower_of(c: char) -> Seq<char>;

/// What `str::to_uppercase` yields; a function of the characters alone.
pub uninterp spec fn upper_of(s: Seq<char>) -> Seq<char>;

/// What `str::to_lowercase` yields; a function of the characters alone.
pub uninterp spec fn lower_of(s: Seq<char>) -> Seq<char>;

/// Relies on `char::to_uppercase`: the uppercase mapping of a character,
/// possibly several characters long, never empty.
#[verifier::external_body]
fn char_upper(c: char) -> (r: Vec<char>)
    ensures
        r@ == char_upper_of(c),
        r@.len() >= 1,
{
    c.to_uppercase().collect()
}

/// Relies on `char::to_lowercase`: the lowercase mapping of a character,
/// possibly several characters long, never empty.
#[verifier::external_body]
fn char_lower(c: char) -> (r: Vec<char>)
    ensures
        r@ == char_lower_of(c),
        r@.len() >= 1,
{
    c.to_lowercase().collect()
}

/// Relies on `str::to_uppercase`: the result depends on the characters
/// alone, and an empty string stays empty.
#[verifier::external_body]
fn to_upper(v: &Vec<char>) -> (r: Vec<char>)
    ensures
        r@ == upper_of(v@),
        v@.len() == 0 ==> r@.len() == 0,
{
    let s: String = v.iter().collect();
    s.to_uppercase().chars().collect()
}

/// Relies on `str::to_lowercase`: the result depends on the characters
/// alone, and an empty string stays empty.
#[verifier::external_body]
fn to_lower(v: &Vec<char>) -> (r: Vec<char>)
    ensures
        r@ == lower_of(v@),
        v@.len() == 0 ==> r@.len() == 0,
{
    let s: String = v.iter().collect();
    s.to_lowercase().chars().collect()
}

/// Word separators for camel- and pascal-casing.
pub open spec fn is_word_sep(c: char) -> bool {
    c == ' ' || c == '-' || c == '_'
}

/// One folding step of camel/pascal conversion. State: whether the next
/// word character starts a word, and whether a word has been emitted.
pub open spec fn case_word_step(
    acc: (bool, bool, Seq<char>),
    c: char,
    pascal: bool,
) -> (bool, bool, Seq<char>) {
    if is_word_sep(c) {
        (true, acc.1, acc.2)
    } else if acc.0 {
        if pascal || acc.1 {
            (false, true, acc.2 + char_upper_of(c))
        } else {
            (false, true, acc.2 + char_lower_of(c))
        }
    } else {
        (false, acc.1, acc.2.push(c))
    }
}

/// Left fold of `case_word_step` over `s` starting at `i`.
pub open spec fn case_words_from(
    s: Seq<char>,
    i: int,
    acc: (bool, bool, Seq<char>),
    pascal: bool,
) -> Seq<char>
    decreases s.len() - i,
    when 0 <= i <= s.len()
{
    if i == s.len() {
        acc.2
    } else {
        case_words_from(s, i + 1, case_word_step(acc, s[i], pascal), pascal)
    }
}

/// Words (runs between spaces, dashes and underscores) concatenated, each
/// starting with an uppercased character.
pub open spec fn pascal_of(s: Seq<char>) -> Seq<char> {
    case_words_from(s, 0, (true, false, Seq::empty()), true)
}

/// As `pascal_of`, but the first word starts with a lowercased character.
pub open spec fn camel_of(s: Seq<char>) -> Seq<char> {
    case_words_from(s, 0, (true, false, Seq::empty()), false)
}

/// Appends the camel- or pascal-cased form of `v` to `buf`.
pub fn push_cased_words(v: &Vec<char>, pascal: bool, buf: &mut Vec<char>)
    ensures
        pascal ==> final(buf)@ == old(buf)@ + pascal_of(v@),
        !pascal ==> final(buf)@ == old(buf)@ + camel_of(v@),
{
    let ghost entry = buf@;
    let mut at_start: bool = true;
    let mut word_done: bool = false;
    let mut i: usize = 0;
    proof {
        assert(buf@.subrange(entry.len() as int, buf@.len() as int) =~= Seq::<char>::empty());
        assert(buf@.subrange(0, entry.len() as int) =~= entry);
    }
    while i < v.len()
        invariant
            0 <= i <= v@.len(),
            case_words_from(v@, 0, (true, false, Seq::empty()), pascal) == case_words_from(
                v@,
                i as int,
                (at_start, word_done, buf@.subrange(entry.len() as int, buf@.len() as int)),
                pascal,
            ),
            entry.is_prefix_of(buf@),
        decreases v@.len() - i,
    {
        let c = v[i];
        let ghost acc = (at_start, word_done, buf@.subrange(entry.len() as int, buf@.len() as int));
        if c == ' ' || c == '-' || c == '_' {
            at_start = true;
        } else if at_start {
            if pascal || word_done {
                let up = char_upper(c);
                push_chars(buf, &up);
            } else {
                let low = char_lower(c);
                push_chars(buf, &low);
            }
            at_start = false;
            word_done = true;
        } else {
            buf.push(c);
        }
        proof {
            let acc2 = case_word_step(acc, v@[i as int], pascal);
            assert(buf@.subrange(entry.len() as int, buf@.len() as int) =~= acc2.2);
            assert(entry.is_prefix_of(buf@)) by {
                assert(buf@.subrange(0, entry.len() as int) =~= entry);
            }
        }
        i += 1;
    }
    proof {
        assert(buf@ =~= entry + buf@.subrange(entry.len() as int, buf@.len() as int));
    }
}

/// The capture groups of one regex match, as plain character vectors:
/// the text between the previous match (or the haystack start) and this
/// match, and one entry per group, `None` where the group did not
/// participate. Group 0 is the whole match.
#[derive(Debug, PartialEq)]
pub struct MatchParts {
    pub prefix: Vec<char>,
    pub groups: Vec<Option<Vec<char>>>,
}

/// What `Regex::captures_iter` yields over `text` for the regex built from
/// `pattern` with the given flags, truncated to the first match unless
/// `global`: per match the gap before it and its groups, plus the text
/// after the last considered match. A function of its arguments alone.
pub uninterp spec fn regex_captures(
    pattern: Seq<char>,
    ci: bool,
    ml: bool,
    global: bool,
    text: Seq<char>,
) -> (Seq<(Seq<char>, Seq<Option<Seq<char>>>)>, Seq<char>);

pub open spec fn groups_match(g: Seq<Option<Vec<char>>>, h: Seq<Option<Seq<char>>>) -> bool {
    g.len() == h.len() && forall|i: int|
        0 <= i < g.len() ==> ((#[trigger] g[i]) is Some <==> (#[trigger] h[i]) is Some) && (
        g[i] matches Some(v) ==> h[i] matches Some(w) && v@ == w)
}

pub open spec fn match_parts_match(
    a: Seq<MatchParts>,
    b: Seq<(Seq<char>, Seq<Option<Seq<char>>>)>,
) -> bool {
    a.len() == b.len() && forall|i: int|
        0 <= i < a.len() ==> (#[trigger] a[i]).prefix@ == (#[trigger] b[i]).0 && groups_match(
            a[i].groups@,
            b[i].1,
        )
}

/// Relies on `String::from_iter`: collecting characters yields the string
/// of exactly those characters.
#[verifier::external_body]
fn string_of(v: &Vec<char>) -> (r: String)
    ensures
        r@ == v@,
{
    v.iter().collect()
}

/// Relies on `regex::RegexBuilder::build` and `regex::Regex::captures_iter`:
/// compilation success and the successive non-overlapping matches, with
/// their capture groups, are functions of the pattern, the flags and the
/// haystack alone.
#[verifier::external_body]
fn regex_find_captures(pattern: &str, ci: bool, ml: bool, global: bool, text: &str) -> (r: Option<
    (Vec<MatchParts>, Vec<char>),
>)
    ensures
        r is Some <==> regex_builds(pattern@, ci, ml),
        r matches Some(m) ==> match_parts_match(
            m.0@,
            regex_captures(pattern@, ci, ml, global, text@).0,
        ) && m.1@ == regex_captures(pattern@, ci, ml, global, text@).1,
{
    let re = regex::RegexBuilder::new(pattern).case_insensitive(ci).multi_line(ml).build().ok()?;
    let mut parts = Vec::new();
    let mut last: usize = 0;
    for c in re.captures_iter(text) {
        let m = c.get(0).unwrap();
        parts.push(MatchParts {
            prefix: text[last..m.start()].chars().collect(),
            groups: (0..c.len()).map(|g| c.get(g).map(|w| text[w.range()].chars().collect())).collect(),
        });
        last = m.end();
        if !global {
            break ;
        }
    }
    Some((parts, text[last..].chars().collect()))
}

/// What one format item contributes, given the groups of one match.
pub open spec fn spec_apply_item(item: FormatItem, groups: Seq<Option<Seq<char>>>) -> Seq<char> {
    match item {
        FormatItem::Text(t) => t@,
        FormatItem::Capture(i) => if i < groups.len() && groups[i as int] is Some {
            groups[i as int]->0
        } else {
            Seq::empty()
        },
        FormatItem::CaseChange(i, change) => if i < groups.len() && groups[i as int] is Some
            && groups[i as int]->0.len() > 0 {
            spec_apply_case(change, groups[i as int]->0)
        } else {
            Seq::empty()
        },
        FormatItem::Conditional(i, if_, else_) => if i < groups.len() && groups[i as int] is Some
            && groups[i as int]->0.len() > 0 {
            if_@
        } else {
            else_@
        },
    }
}

pub open spec fn spec_apply_case(change: CaseChange, v: Seq<char>) -> Seq<char>
    recommends
        v.len() > 0,
{
    match change {
        CaseChange::Upcase => upper_of(v),
        CaseChange::Downcase => lower_of(v),
        CaseChange::Capitalize => char_upper_of(v[0]) + v.drop_first(),
        CaseChange::PascalCase => pascal_of(v),
        CaseChange::CamelCase => camel_of(v),
    }
}

/// The replacement template applied to one match's groups.
pub open spec fn spec_apply_items(items: Seq<FormatItem>, groups: Seq<Option<Seq<char>>>) -> Seq<
    char,
>
    decreases items.len(),
{
    if items.len() == 0 {
        Seq::empty()
    } else {
        spec_apply_item(items[0], groups) + spec_apply_items(items.drop_first(), groups)
    }
}

/// Gap text and replacement for each match in turn.
pub open spec fn spec_apply_matches(
    ms: Seq<(Seq<char>, Seq<Option<Seq<char>>>)>,
    items: Seq<FormatItem>,
) -> Seq<char>
    decreases ms.len(),
{
    if ms.len() == 0 {
        Seq::empty()
    } else {
        ms[0].0 + spec_apply_items(items, ms[0].1) + spec_apply_matches(ms.drop_first(), items)
    }
}

/// The full substitution: every match replaced by the instantiated
/// template, the rest of the text kept.
pub open spec fn spec_apply_transform(t: Transform, text: Seq<char>) -> Seq<char> {
    let r = regex_captures(t.pattern@, t.case_insensitive, t.multi_line, t.global, text);
    spec_apply_matches(r.0, t.replacement@) + r.1
}

impl Transform {
    /// Runs the regular expression over `text` and appends the substituted
    /// result to `buf`: for each match, the text before it followed by the
    /// instantiated replacement template; then the remaining text. For a
    /// transform whose pattern does not compile (none such is produced by
    /// `Transform::new`) the buffer is left unchanged.
    pub fn apply(&self, text: &Vec<char>, buf: &mut Vec<char>)
        ensures
            regex_builds(self.pattern@, self.case_insensitive, self.multi_line) ==> final(buf)@
                == old(buf)@ + spec_apply_transform(*self, text@),
            !regex_builds(self.pattern@, self.case_insensitive, self.multi_line) ==> final(buf)@
                == old(buf)@,
    {
        let pattern_str = string_of(&self.pattern);
        let text_str = string_of(text);
        let found = regex_find_captures(
            pattern_str.as_str(),
            self.case_insensitive,
            self.multi_line,
            self.global,
            text_str.as_str(),
        );
        let (parts, tail) = match found {
            Some(pt) => pt,
            None => {
                return ;
            },
        };
        let ghost spec_ms = regex_captures(
            self.pattern@,
            self.case_insensitive,
            self.multi_line,
            self.global,
            text@,
        ).0;
        let ghost entry = buf@;
        let mut k: usize = 0;
        proof {
            assert(spec_ms.skip(0) =~= spec_ms);
        }
        while k < parts.len()
            invariant
                0 <= k <= parts@.len(),
                match_parts_match(parts@, spec_ms),
                buf@ + spec_apply_matches(spec_ms.skip(k as int), self.replacement@) == entry
                    + spec_apply_matches(spec_ms, self.replacement@),
            decreases parts@.len() - k,
        {
            let ghost pre = buf@;
            push_chars(buf, &parts[k].prefix);
            self.apply_items(&parts[k].groups, Ghost(spec_ms[k as int].1), buf);
            proof {
                assert(spec_ms.skip(k as int).drop_first() =~= spec_ms.skip(k + 1));
                assert(spec_ms.skip(k as int)[0] == spec_ms[k as int]);
                assert(buf@ =~= pre + spec_ms[k as int].0 + spec_apply_items(
                    self.replacement@,
                    spec_ms[k as int].1,
                ));
                assert(buf@ + spec_apply_matches(spec_ms.skip(k + 1), self.replacement@) =~= pre
                    + spec_apply_matches(spec_ms.skip(k as int), self.replacement@));
            }
            k += 1;
        }
        proof {
            assert(spec_ms.skip(parts@.len() as int) =~= Seq::empty());
            assert(buf@ =~= entry + spec_apply_matches(spec_ms, self.replacement@));
        }
        push_chars(buf, &tail);
        proof {
            assert(buf@ =~= entry + spec_apply_transform(*self, text@));
        }
    }

    /// Appends the instantiated replacement template for one match.
    fn apply_items(
        &self,
        groups: &Vec<Option<Vec<char>>>,
        Ghost(spec_groups): Ghost<Seq<Option<Seq<char>>>>,
        buf: &mut Vec<char>,
    )
        requires
            groups_match(groups@, spec_groups),
        ensures
            final(buf)@ == old(buf)@ + spec_apply_items(self.replacement@, spec_groups),
    {
        let ghost entry = buf@;
        let mut j: usize = 0;
        proof {
            assert(self.replacement@.skip(0) =~= self.replacement@);
        }
        while j < self.replacement.len()
            invariant
                0 <= j <= self.replacement@.len(),
                groups_match(groups@, spec_groups),
                buf@ + spec_apply_items(self.replacement@.skip(j as int), spec_groups) == entry
                    + spec_apply_items(self.replacement@, spec_groups),
            decreases self.replacement@.len() - j,
        {
            let ghost pre = buf@;
            let item = &self.replacement[j];
            match item {
                FormatItem::Text(t) => {
                    push_chars(buf, t);
                },
                FormatItem::Capture(i) => {
                    if *i < groups.len() {
                        match &groups[*i] {
                            Some(v) => {
                                push_chars(buf, v);
                            },
                            None => {},
                        }
                    }
                },
                FormatItem::CaseChange(i, change) => {
                    if *i < groups.len() {
                        match &groups[*i] {
                            Some(v) => {
                                if v.len() > 0 {
                                    match change {
                                        CaseChange::Upcase => {
                                            let u = to_upper(v);
                                            push_chars(buf, &u);
                                        },
                                        CaseChange::Downcase => {
                                            let u = to_lower(v);
                                            push_chars(buf, &u);
                                        },
                                        CaseChange::Capitalize => {
                                            let u = char_upper(v[0]);
                                            push_chars(buf, &u);
                                            let mut c: usize = 1;
                                            while c < v.len()
                                                invariant
                                                    1 <= c <= v@.len(),
                                                    v@.len() > 0,
                                                    buf@ =~= pre + char_upper_of(v@[0])
                                                        + v@.subrange(1, c as int),
                                                decreases v@.len() - c,
                                            {
                                                buf.push(v[c]);
                                                c += 1;
                                            }
                                            proof {
                                                assert(v@.subrange(1, v@.len() as int)
                                                    =~= v@.drop_first());
                                            }
                                        },
                                        CaseChange::PascalCase => {
                                            push_cased_words(v, true, buf);
                                        },
                                        CaseChange::CamelCase => {
                                            push_cased_words(v, false, buf);
                                        },
                                    }
                                }
                            },
                            None => {},
                        }
                    }
                },
                FormatItem::Conditional(i, if_, else_) => {
                    let mut take_if = false;
                    if *i < groups.len() {
                        match &groups[*i] {
                            Some(v) => {
                                if v.len() > 0 {
                                    take_if = true;
                                }
                            },
                            None => {},
                        }
                    }
                    if take_if {
                        push_chars(buf, if_);
                    } else {
                        push_chars(buf, else_);
                    }
                },
            }
            proof {
                assert(self.replacement@.skip(j as int).drop_first() =~= self.replacement@.skip(
                    j + 1,
                ));
                assert(self.replacement@.skip(j as int)[0] == self.replacement@[j as int]);
                assert(buf@ =~= pre + spec_apply_item(self.replacement@[j as int], spec_groups));
                assert(buf@ + spec_apply_items(self.replacement@.skip(j + 1), spec_groups) =~= pre
                    + spec_apply_items(self.replacement@.skip(j as int), spec_groups));
            }
            j += 1;
        }
        proof {
            assert(self.replacement@.skip(self.replacement@.len() as int) =~= Seq::empty());
            assert(buf@ =~= entry + spec_apply_items(self.replacement@, spec_groups));
        }
    }
}

} // verus!
