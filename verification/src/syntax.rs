//! Tree-sitter syntax highlighting, independent of any UI.
//!
//! Highlighting produces byte-range spans tagged with a small, theme-agnostic set of
//! [`Style`]s; the UI maps those to colors.
use vstd::prelude::*;

use std::ops::Range;

use tree_sitter_go::LANGUAGE as GO;
use tree_sitter_highlight::{HighlightConfiguration, HighlightEvent, Highlighter};
use tree_sitter_javascript::LANGUAGE as JAVASCRIPT;
use tree_sitter_json::LANGUAGE as JSON;
use tree_sitter_md::LANGUAGE as MARKDOWN;
use tree_sitter_python::LANGUAGE as PYTHON;
use tree_sitter_rust::LANGUAGE as RUST;
use tree_sitter_typescript::{LANGUAGE_TSX, LANGUAGE_TYPESCRIPT};

use crate::bytes::same;
use crate::repo::lower_extension;

verus! {

#[derive(Debug, Clone, Copy, PartialEq, Eq, Hash, Structural)]
pub enum Language {
    Rust,
    TypeScript,
    Tsx,
    JavaScript,
    Python,
    Go,
    Json,
    Markdown,
}

/// Whether a byte occurs in a byte string.
pub open spec fn has_byte(bytes: Seq<u8>, byte: u8) -> bool {
    exists|i: int| 0 <= i < bytes.len() && #[trigger] bytes[i] == byte
}

/// The part of a path after its last `/`.
pub open spec fn file_name(path: Seq<u8>) -> Seq<u8>
    decreases path.len(),
{
    if path.len() == 0 || path.last() == 47 {
        Seq::empty()
    } else {
        file_name(path.drop_last()).push(path.last())
    }
}

/// The language that an extension stands for.
pub open spec fn language_of(ext: Seq<u8>) -> Option<Language> {
    if ext == vstd::utf8::encode_utf8("rs"@) {
        Some(Language::Rust)
    } else if ext == vstd::utf8::encode_utf8("ts"@) || ext == vstd::utf8::encode_utf8("mts"@) || ext
        == vstd::utf8::encode_utf8("cts"@) {
        Some(Language::TypeScript)
    } else if ext == vstd::utf8::encode_utf8("tsx"@) {
        Some(Language::Tsx)
    } else if ext == vstd::utf8::encode_utf8("js"@) || ext == vstd::utf8::encode_utf8("mjs"@) || ext
        == vstd::utf8::encode_utf8("cjs"@) || ext == vstd::utf8::encode_utf8("jsx"@) {
        Some(Language::JavaScript)
    } else if ext == vstd::utf8::encode_utf8("py"@) || ext == vstd::utf8::encode_utf8("pyi"@) {
        Some(Language::Python)
    } else if ext == vstd::utf8::encode_utf8("go"@) {
        Some(Language::Go)
    } else if ext == vstd::utf8::encode_utf8("json"@) || ext == vstd::utf8::encode_utf8("jsonc"@) {
        Some(Language::Json)
    } else if ext == vstd::utf8::encode_utf8("md"@) || ext == vstd::utf8::encode_utf8(
        "markdown"@,
    ) {
        Some(Language::Markdown)
    } else {
        None
    }
}

/// The language of a file: by the extension of its name, in any case of letters.
pub open spec fn path_language(path: Seq<u8>) -> Option<Language> {
    let name = file_name(path);
    if has_byte(name, 46) {
        language_of(crate::repo::extension(name).map_values(|b: u8| crate::repo::lower(b)))
    } else {
        None
    }
}

fn name_start(path: &[u8]) -> (start: usize)
    ensures
        start <= path@.len(),
        path@.subrange(start as int, path@.len() as int) == file_name(path@),
{
    let mut start: usize = path.len();
    assert(path@.take(path@.len() as int) =~= path@);
    assert(path@.subrange(path@.len() as int, path@.len() as int) =~= Seq::<u8>::empty());
    while start > 0 && path[start - 1] != 47
        invariant
            start <= path@.len(),
            file_name(path@) == file_name(path@.take(start as int)) + path@.subrange(
                start as int,
                path@.len() as int,
            ),
        decreases start,
    {
        assert(path@.take(start as int).drop_last() =~= path@.take(start - 1));
        assert(file_name(path@.take(start - 1)).push(path@[start - 1]) + path@.subrange(
            start as int,
            path@.len() as int,
        ) =~= file_name(path@.take(start - 1)) + path@.subrange(start - 1, path@.len() as int));
        start = start - 1;
    }
    assert(file_name(path@.take(start as int)) =~= Seq::<u8>::empty());
    assert(file_name(path@) =~= path@.subrange(start as int, path@.len() as int));
    start
}

fn contains_byte(bytes: &[u8], byte: u8) -> (result: bool)
    ensures
        result == has_byte(bytes@, byte),
{
    let mut i: usize = 0;
    while i < bytes.len()
        invariant
            i <= bytes@.len(),
            forall|k: int| 0 <= k < i ==> #[trigger] bytes@[k] != byte,
        decreases bytes.len() - i,
    {
        if bytes[i] == byte {
            return true;
        }
        i = i + 1;
    }
    false
}

impl Language {
    /// The language of the file at `path`, by its extension.
    pub fn for_path(path: &str) -> (language: Option<Self>)
        ensures
            language == path_language(vstd::utf8::encode_utf8(path@)),
    {
        let bytes = path.as_bytes();
        let start: usize = name_start(bytes);
        let name = vstd::slice::slice_subrange(bytes, start, bytes.len());
        if !contains_byte(name, 46) {
            return None;
        }
        let ext = lower_extension(name);
        let ext = ext.as_slice();
        if same(ext, "rs".as_bytes()) {
            Some(Language::Rust)
        } else if same(ext, "ts".as_bytes()) || same(ext, "mts".as_bytes()) || same(
            ext,
            "cts".as_bytes(),
        ) {
            Some(Language::TypeScript)
        } else if same(ext, "tsx".as_bytes()) {
            Some(Language::Tsx)
        } else if same(ext, "js".as_bytes()) || same(ext, "mjs".as_bytes()) || same(
            ext,
            "cjs".as_bytes(),
        ) || same(ext, "jsx".as_bytes()) {
            Some(Language::JavaScript)
        } else if same(ext, "py".as_bytes()) || same(ext, "pyi".as_bytes()) {
            Some(Language::Python)
        } else if same(ext, "go".as_bytes()) {
            Some(Language::Go)
        } else if same(ext, "json".as_bytes()) || same(ext, "jsonc".as_bytes()) {
            Some(Language::Json)
        } else if same(ext, "md".as_bytes()) || same(ext, "markdown".as_bytes()) {
            Some(Language::Markdown)
        } else {
            None
        }
    }
}

/// Theme-agnostic highlight classes.
#[derive(Debug, Clone, Copy, PartialEq, Eq, Hash, Structural)]
pub enum Style {
    Attribute,
    Comment,
    Constant,
    Function,
    Keyword,
    Label,
    Number,
    Operator,
    Property,
    Punctuation,
    String,
    Escape,
    Tag,
    Type,
    Variable,
    Heading,
    Link,
}

/// Capture names we recognize, most specific first where it matters, each with its style.
/// tree-sitter matches a capture like `function.method.call` against the longest
/// recognized prefix.
pub open spec fn capture_table() -> Seq<(&'static str, Style)> {
    seq![
        ("attribute", Style::Attribute),
        ("comment", Style::Comment),
        ("constant", Style::Constant),
        ("constant.builtin", Style::Constant),
        ("constructor", Style::Type),
        ("escape", Style::Escape),
        ("function", Style::Function),
        ("function.builtin", Style::Function),
        ("function.macro", Style::Function),
        ("function.method", Style::Function),
        ("keyword", Style::Keyword),
        ("label", Style::Label),
        ("module", Style::Type),
        ("number", Style::Number),
        ("operator", Style::Operator),
        ("property", Style::Property),
        ("punctuation", Style::Punctuation),
        ("string", Style::String),
        ("string.escape", Style::Escape),
        ("string.special", Style::String),
        ("tag", Style::Tag),
        ("type", Style::Type),
        ("type.builtin", Style::Type),
        ("variable.builtin", Style::Keyword),
        ("variable.parameter", Style::Variable),
        ("text.title", Style::Heading),
        ("text.literal", Style::String),
        ("text.uri", Style::Link),
        ("text.reference", Style::Link),
    ]
}

/// The capture table.
fn captures() -> (table: Vec<(&'static str, Style)>)
    ensures
        table@ == capture_table(),
{
    let table = vec![
        ("attribute", Style::Attribute),
        ("comment", Style::Comment),
        ("constant", Style::Constant),
        ("constant.builtin", Style::Constant),
        ("constructor", Style::Type),
        ("escape", Style::Escape),
        ("function", Style::Function),
        ("function.builtin", Style::Function),
        ("function.macro", Style::Function),
        ("function.method", Style::Function),
        ("keyword", Style::Keyword),
        ("label", Style::Label),
        ("module", Style::Type),
        ("number", Style::Number),
        ("operator", Style::Operator),
        ("property", Style::Property),
        ("punctuation", Style::Punctuation),
        ("string", Style::String),
        ("string.escape", Style::Escape),
        ("string.special", Style::String),
        ("tag", Style::Tag),
        ("type", Style::Type),
        ("type.builtin", Style::Type),
        ("variable.builtin", Style::Keyword),
        ("variable.parameter", Style::Variable),
        ("text.title", Style::Heading),
        ("text.literal", Style::String),
        ("text.uri", Style::Link),
        ("text.reference", Style::Link),
    ];
    assert(table@ =~= capture_table());
    table
}

#[derive(Debug, PartialEq, Eq)]
pub struct Span {
    pub range: Range<usize>,
    pub style: Style,
}

// ---------------------------------------------------------------------------
// Grammars.

/// A query that comes with a grammar.
#[derive(Debug, Clone, Copy, PartialEq, Eq, Structural)]
pub enum Query {
    Rust,
    TypeScript,
    JavaScript,
    Jsx,
    Python,
    Go,
    Json,
    MarkdownBlock,
    TypeScriptLocals,
    JavaScriptLocals,
}

/// The text of a query that comes with a grammar.
pub uninterp spec fn query_text(query: Query) -> Seq<char>;

/// The query constants of the grammar crates: `HIGHLIGHTS_QUERY` of tree-sitter-rust,
/// -typescript, -python, -go and -json, `HIGHLIGHT_QUERY`, `JSX_HIGHLIGHT_QUERY` and
/// `LOCALS_QUERY` of tree-sitter-javascript, `LOCALS_QUERY` of tree-sitter-typescript, and
/// `HIGHLIGHT_QUERY_BLOCK` of tree-sitter-md. Each is a fixed text.
#[verifier::external_body]
fn query(which: Query) -> (text: &'static str)
    ensures
        text@ == query_text(which),
{
    match which {
        Query::Rust => tree_sitter_rust::HIGHLIGHTS_QUERY,
        Query::TypeScript => tree_sitter_typescript::HIGHLIGHTS_QUERY,
        Query::JavaScript => tree_sitter_javascript::HIGHLIGHT_QUERY,
        Query::Jsx => tree_sitter_javascript::JSX_HIGHLIGHT_QUERY,
        Query::Python => tree_sitter_python::HIGHLIGHTS_QUERY,
        Query::Go => tree_sitter_go::HIGHLIGHTS_QUERY,
        Query::Json => tree_sitter_json::HIGHLIGHTS_QUERY,
        Query::MarkdownBlock => tree_sitter_md::HIGHLIGHT_QUERY_BLOCK,
        Query::TypeScriptLocals => tree_sitter_typescript::LOCALS_QUERY,
        Query::JavaScriptLocals => tree_sitter_javascript::LOCALS_QUERY,
    }
}

/// What a language is highlighted with.
pub struct Config {
    pub name: &'static str,
    pub highlights: String,
    pub injections: &'static str,
    pub locals: &'static str,
}

/// The name of a language.
pub open spec fn language_name(language: Language) -> Seq<char> {
    match language {
        Language::Rust => "rust"@,
        Language::TypeScript => "typescript"@,
        Language::Tsx => "tsx"@,
        Language::JavaScript => "javascript"@,
        Language::Python => "python"@,
        Language::Go => "go"@,
        Language::Json => "json"@,
        Language::Markdown => "markdown"@,
    }
}

/// The highlight queries of a language. Those of TypeScript extend those of JavaScript.
pub open spec fn highlights_of(language: Language) -> Seq<char> {
    match language {
        Language::Rust => query_text(Query::Rust),
        Language::TypeScript => query_text(Query::TypeScript) + query_text(Query::JavaScript),
        Language::Tsx => query_text(Query::TypeScript) + query_text(Query::Jsx) + query_text(
            Query::JavaScript,
        ),
        Language::JavaScript => query_text(Query::Jsx) + query_text(Query::JavaScript),
        Language::Python => query_text(Query::Python),
        Language::Go => query_text(Query::Go),
        Language::Json => query_text(Query::Json),
        Language::Markdown => query_text(Query::MarkdownBlock),
    }
}

/// The query of a language that tracks local variables.
pub open spec fn locals_of(language: Language) -> Seq<char> {
    match language {
        Language::TypeScript | Language::Tsx => query_text(Query::TypeScriptLocals),
        Language::JavaScript => query_text(Query::JavaScriptLocals),
        _ => ""@,
    }
}

/// What a language is highlighted with.
pub fn config(language: Language) -> (config: Config)
    ensures
        config.name@ == language_name(language),
        config.highlights@ == highlights_of(language),
        config.injections@ == ""@,
        config.locals@ == locals_of(language),
{
    let (name, highlights, locals) = match language {
        Language::Rust => ("rust", query(Query::Rust).to_owned(), ""),
        Language::TypeScript => {
            let mut highlights = query(Query::TypeScript).to_owned();
            highlights.append(query(Query::JavaScript));
            ("typescript", highlights, query(Query::TypeScriptLocals))
        },
        Language::Tsx => {
            let mut highlights = query(Query::TypeScript).to_owned();
            highlights.append(query(Query::Jsx));
            highlights.append(query(Query::JavaScript));
            ("tsx", highlights, query(Query::TypeScriptLocals))
        },
        Language::JavaScript => {
            let mut highlights = query(Query::Jsx).to_owned();
            highlights.append(query(Query::JavaScript));
            ("javascript", highlights, query(Query::JavaScriptLocals))
        },
        Language::Python => ("python", query(Query::Python).to_owned(), ""),
        Language::Go => ("go", query(Query::Go).to_owned(), ""),
        Language::Json => ("json", query(Query::Json).to_owned(), ""),
        Language::Markdown => ("markdown", query(Query::MarkdownBlock).to_owned(), ""),
    };
    Config { name, highlights, injections: "", locals }
}

// ---------------------------------------------------------------------------
// Highlighting.

/// A step through a highlighted file.
#[derive(Debug, Clone, Copy, PartialEq, Eq, Structural)]
pub enum Event {
    /// The bytes `start..end` come next.
    Source { start: usize, end: usize },
    /// A capture starts, given by its index in the capture table.
    Start(usize),
    /// The innermost capture ends.
    End,
}

/// The names in the capture table.
pub open spec fn capture_names() -> Seq<Seq<char>> {
    capture_table().map_values(|c: (&'static str, Style)| c.0@)
}

/// The steps that tree-sitter-highlight takes through a file; `None` where the grammar or
/// the queries don't load, or the file can't be highlighted.
pub uninterp spec fn highlight_events(
    language: Language,
    name: Seq<char>,
    highlights: Seq<char>,
    injections: Seq<char>,
    locals: Seq<char>,
    captures: Seq<Seq<char>>,
    source: Seq<u8>,
) -> Option<Seq<Event>>;

/// Whether the source comes in order: what comes next starts where the last part ended.
pub open spec fn sources_in_order(events: Seq<Event>) -> bool {
    &&& forall|i: int|
        0 <= i < events.len() ==> (#[trigger] events[i] matches Event::Source { start, end }
            ==> start < end)
    &&& forall|i: int, j: int|
        #![trigger events[i], events[j]]
        0 <= i < j < events.len() ==> (events[i] matches Event::Source { start: s, end: e }
            && events[j] matches Event::Source { start, end } ==> e <= start)
}

/// Whether each capture is one of `count`.
pub open spec fn captures_within(events: Seq<Event>, count: nat) -> bool {
    forall|i: int|
        0 <= i < events.len() ==> (#[trigger] events[i] matches Event::Start(h) ==> h < count)
}

/// Calls `HighlightConfiguration::new` with the grammar of the language (the `LANGUAGE`
/// constant of its crate, listed in the order of [`Language`]), `configure` with the capture names, and `Highlighter::highlight`
/// without injected languages, and collects the events. The result depends on the arguments
/// alone. Two facts are claimed beside it: `configure` documents that highlights are indices
/// into the list of names, and `HighlightIter::emit_event` advances through the source, each
/// part starting where the one before it ended.
#[verifier::external_body]
fn events_of(language: Language, config: &Config, captures: &[&str], source: &[u8]) -> (events:
    Option<Vec<Event>>)
    ensures
        (match events {
            Some(e) => Some(e@),
            None => None,
        }) == highlight_events(
            language,
            config.name@,
            config.highlights@,
            config.injections@,
            config.locals@,
            captures@.map_values(|c: &str| c@),
            source@,
        ),
        events matches Some(e) ==> sources_in_order(e@) && captures_within(e@, captures@.len()),
{
    let grammars = [
        RUST, LANGUAGE_TYPESCRIPT, LANGUAGE_TSX, JAVASCRIPT, PYTHON, GO, JSON, MARKDOWN,
    ];
    let mut loaded = HighlightConfiguration::new(
        grammars[language as usize].into(), config.name, &config.highlights, config.injections,
        config.locals).ok()?;
    loaded.configure(captures);
    let mut highlighter = Highlighter::new();
    let events = highlighter.highlight(&loaded, source, None, None, |_| None).ok()?;
    events.map(|event| event.map(|event| match event {
        HighlightEvent::Source { start, end } => Event::Source { start, end },
        HighlightEvent::HighlightStart(h) => Event::Start(h.0), HighlightEvent::HighlightEnd => Event::End,
    })).collect::<Result<Vec<Event>, _>>().ok()
}

/// The spans and the open captures after some events.
pub open spec fn after_events(events: Seq<Event>) -> (Seq<Span>, Seq<Style>)
    decreases events.len(),
{
    if events.len() == 0 {
        (Seq::empty(), Seq::empty())
    } else {
        let (spans, open) = after_events(events.drop_last());
        match events.last() {
            Event::Start(h) => (spans, open.push(capture_table()[h as int].1)),
            Event::End => (
                spans,
                if open.len() > 0 {
                    open.drop_last()
                } else {
                    open
                },
            ),
            Event::Source { start, end } => (
                if open.len() == 0 {
                    spans
                } else {
                    with_span(spans, start, end, open.last())
                },
                open,
            ),
        }
    }
}

/// The spans with one more; what goes on from the last in the same style lengthens it.
pub open spec fn with_span(spans: Seq<Span>, start: usize, end: usize, style: Style) -> Seq<Span> {
    if spans.len() > 0 && spans.last().range.end == start && spans.last().style == style {
        spans.drop_last().push(
            Span { range: Range { start: spans.last().range.start, end }, style },
        )
    } else {
        spans.push(Span { range: Range { start, end }, style })
    }
}

/// Whether spans are sorted and don't overlap.
pub open spec fn spans_in_order(spans: Seq<Span>) -> bool {
    &&& forall|i: int|
        0 <= i < spans.len() ==> (#[trigger] spans[i]).range.start <= spans[i].range.end
    &&& forall|i: int, j: int|
        #![trigger spans[i], spans[j]]
        0 <= i < j < spans.len() ==> spans[i].range.end <= spans[j].range.start
}

/// The end of the source that came so far.
spec fn source_end(events: Seq<Event>) -> int
    decreases events.len(),
{
    if events.len() == 0 {
        0
    } else {
        match events.last() {
            Event::Source { start, end } => end as int,
            _ => source_end(events.drop_last()),
        }
    }
}

proof fn lemma_source_end(events: Seq<Event>, next: int)
    requires
        sources_in_order(events),
        0 <= next < events.len(),
    ensures
        events[next] matches Event::Source { start, end } ==> source_end(events.take(next))
            <= start,
        source_end(events.take(next)) >= 0,
    decreases next,
{
    lemma_source_before(events, next, next);
}

proof fn lemma_source_before(events: Seq<Event>, next: int, k: int)
    requires
        sources_in_order(events),
        0 <= k <= next < events.len(),
    ensures
        events[next] matches Event::Source { start, end } ==> source_end(events.take(k)) <= start,
        source_end(events.take(k)) >= 0,
    decreases k,
{
    if k > 0 {
        lemma_source_before(events, next, k - 1);
        assert(events.take(k).drop_last() =~= events.take(k - 1));
        assert(events.take(k).last() == events[k - 1]);
    }
}

/// Turns the steps through a file into spans: each part of the source has the style of its
/// innermost capture.
pub fn spans_of(events: &[Event]) -> (spans: Vec<Span>)
    requires
        captures_within(events@, capture_table().len()),
    ensures
        spans@ == after_events(events@).0,
        sources_in_order(events@) ==> spans_in_order(spans@),
{
    let table = captures();
    let mut spans: Vec<Span> = Vec::new();
    let mut open: Vec<Style> = Vec::new();
    let mut i: usize = 0;
    while i < events.len()
        invariant
            i <= events@.len(),
            table@ == capture_table(),
            captures_within(events@, capture_table().len()),
            (spans@, open@) == after_events(events@.take(i as int)),
            sources_in_order(events@) ==> spans_in_order(spans@),
            sources_in_order(events@) && spans@.len() > 0 ==> spans@.last().range.end
                <= source_end(events@.take(i as int)),
        decreases events.len() - i,
    {
        let ghost before = spans@;
        assert(events@.take(i + 1).drop_last() =~= events@.take(i as int));
        assert(events@.take(i + 1).last() == events@[i as int]);
        proof {
            if sources_in_order(events@) {
                lemma_source_end(events@, i as int);
            }
        }
        match events[i] {
            Event::Start(h) => {
                open.push(table[h].1);
            },
            Event::End => {
                let _ = open.pop();
            },
            Event::Source { start, end } => {
                if open.len() > 0 {
                    let style = open[open.len() - 1];
                    let n: usize = spans.len();
                    if n > 0 && spans[n - 1].range.end == start && spans[n - 1].style == style {
                        let from: usize = spans[n - 1].range.start;
                        let _ = spans.pop();
                        spans.push(Span { range: Range { start: from, end }, style });
                        proof {
                            if sources_in_order(events@) {
                                lemma_lengthened(before, spans@);
                            }
                        }
                    } else {
                        spans.push(Span { range: Range { start, end }, style });
                        proof {
                            if sources_in_order(events@) {
                                lemma_pushed(before, spans@);
                            }
                        }
                    }
                    assert(spans@ =~= with_span(before, start, end, style));
                }
            },
        }
        i = i + 1;
    }
    assert(events@.take(i as int) =~= events@);
    spans
}

proof fn lemma_pushed(before: Seq<Span>, after: Seq<Span>)
    requires
        spans_in_order(before),
        after.len() == before.len() + 1,
        after.drop_last() =~= before,
        after.last().range.start <= after.last().range.end,
        before.len() > 0 ==> before.last().range.end <= after.last().range.start,
    ensures
        spans_in_order(after),
{
    assert forall|i: int| 0 <= i < after.len() implies (#[trigger] after[i]).range.start
        <= after[i].range.end by {
        if i < before.len() {
            assert(after.drop_last()[i] == before[i]);
        }
    }
    assert forall|i: int, j: int|
        #![trigger after[i], after[j]]
        0 <= i < j < after.len() implies after[i].range.end <= after[j].range.start by {
        assert(after.drop_last()[i] == before[i]);
        if j < before.len() {
            assert(after.drop_last()[j] == before[j]);
        } else if i < before.len() - 1 {
            assert(before[i].range.end <= before[before.len() - 1].range.start);
        }
    }
}

proof fn lemma_lengthened(before: Seq<Span>, after: Seq<Span>)
    requires
        spans_in_order(before),
        before.len() > 0,
        after.len() == before.len(),
        after.drop_last() =~= before.drop_last(),
        after.last().range.start == before.last().range.start,
        after.last().range.start <= after.last().range.end,
    ensures
        spans_in_order(after),
{
    assert forall|i: int| 0 <= i < after.len() implies (#[trigger] after[i]).range.start
        <= after[i].range.end by {
        if i < before.len() - 1 {
            assert(after.drop_last()[i] == before[i]);
        }
    }
    assert forall|i: int, j: int|
        #![trigger after[i], after[j]]
        0 <= i < j < after.len() implies after[i].range.end <= after[j].range.start by {
        assert(after.drop_last()[i] == before[i]);
        if j < before.len() - 1 {
            assert(after.drop_last()[j] == before[j]);
        }
        assert(before[i].range.end <= before[j].range.start);
    }
}

/// The steps that tree-sitter-highlight takes through a file in a language, with its queries
/// and our captures.
pub open spec fn language_events(language: Language, source: Seq<u8>) -> Option<Seq<Event>> {
    highlight_events(
        language,
        language_name(language),
        highlights_of(language),
        ""@,
        locals_of(language),
        capture_names(),
        source,
    )
}

/// Highlight a whole file. Spans are sorted, non-overlapping, and use the innermost
/// capture. Returns an empty list if the language fails to load or parse.
pub fn highlight(language: Language, source: &[u8]) -> (spans: Vec<Span>)
    ensures
        spans@ == (match language_events(language, source@) {
            Some(events) => after_events(events).0,
            None => Seq::empty(),
        }),
        spans_in_order(spans@),
{
    let table = captures();
    let mut names: Vec<&str> = Vec::new();
    let mut i: usize = 0;
    while i < table.len()
        invariant
            table@ == capture_table(),
            i == names@.len() <= table@.len(),
            forall|k: int| 0 <= k < i ==> (#[trigger] names@[k])@ == table@[k].0@,
        decreases table.len() - i,
    {
        names.push(table[i].0);
        i = i + 1;
    }
    assert(names@.map_values(|c: &str| c@) =~= capture_names());
    let config = config(language);
    match events_of(language, &config, names.as_slice(), source) {
        Some(events) => spans_of(events.as_slice()),
        None => Vec::new(),
    }
}

/// A span clipped to `range` and made relative to its start.
pub open spec fn clipped(span: Span, range: Range<usize>) -> Span {
    Span {
        range: Range {
            start: (if span.range.start < range.start {
                0
            } else {
                span.range.start - range.start
            }) as usize,
            end: (if span.range.end < range.end {
                span.range.end - range.start
            } else {
                range.end - range.start
            }) as usize,
        },
        style: span.style,
    }
}

/// The spans that overlap `range`, clipped to it.
pub open spec fn clipped_spans(spans: Seq<Span>, range: Range<usize>) -> Seq<Span>
    decreases spans.len(),
{
    if spans.len() == 0 {
        Seq::empty()
    } else if spans.last().range.end > range.start && spans.last().range.start < range.end {
        clipped_spans(spans.drop_last(), range).push(clipped(spans.last(), range))
    } else {
        clipped_spans(spans.drop_last(), range)
    }
}

/// The spans overlapping `range`, clipped to it and made relative to `range.start`.
pub fn spans_in(spans: &[Span], range: Range<usize>) -> (result: Vec<Span>)
    requires
        spans_in_order(spans@),
        range.start <= range.end,
    ensures
        result@ == clipped_spans(spans@, range),
        spans_in_order(result@),
        forall|i: int|
            0 <= i < result@.len() ==> (#[trigger] result@[i]).range.end <= range.end - range.start,
{
    let mut result: Vec<Span> = Vec::new();
    let mut i: usize = 0;
    assert(spans@.take(0) =~= Seq::<Span>::empty());
    while i < spans.len()
        invariant
            i <= spans@.len(),
            spans_in_order(spans@),
            range.start <= range.end,
            result@ == clipped_spans(spans@.take(i as int), range),
            spans_in_order(result@),
            forall|k: int|
                0 <= k < result@.len() ==> (#[trigger] result@[k]).range.end <= range.end
                    - range.start,
            result@.len() > 0 ==> i > 0 && result@.last().range.end + range.start
                <= spans@[i - 1].range.end && spans@[i - 1].range.end > range.start,
        decreases spans.len() - i,
    {
        let ghost before = result@;
        assert(spans@.take(i + 1).drop_last() =~= spans@.take(i as int));
        let start: usize = spans[i].range.start;
        let end: usize = spans[i].range.end;
        assert(start <= end);
        if end > range.start && start < range.end {
            let from: usize = if start < range.start {
                0
            } else {
                start - range.start
            };
            let to: usize = if end < range.end {
                end - range.start
            } else {
                range.end - range.start
            };
            proof {
                if before.len() > 0 {
                    assert(spans@[i - 1].range.end <= spans@[i as int].range.start);
                }
            }
            result.push(Span { range: Range { start: from, end: to }, style: spans[i].style });
            proof {
                lemma_pushed(before, result@);
            }
        } else {
            assert(i > 0 ==> spans@[i - 1].range.end <= spans@[i as int].range.start);
        }
        i = i + 1;
    }
    assert(spans@.take(i as int) =~= spans@);
    result
}

} // verus!
