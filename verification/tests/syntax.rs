use goro::syntax::{highlight, spans_in, spans_of, Event, Language, Span, Style};

fn styled<'a>(source: &'a str, spans: &[Span]) -> Vec<(&'a str, Style)> {
    spans.iter().map(|s| (&source[s.range.clone()], s.style)).collect()
}

#[test]
fn detects_languages_by_extension() {
    assert_eq!(Language::for_path("src/main.rs"), Some(Language::Rust));
    assert_eq!(Language::for_path("a/b.TSX"), Some(Language::Tsx));
    assert_eq!(Language::for_path("README.md"), Some(Language::Markdown));
    assert_eq!(Language::for_path("Makefile"), None);
    assert_eq!(Language::for_path("dir.rs/file"), None);
}

#[test]
fn every_extension_has_its_language() {
    for (path, language) in [
        ("a.ts", Language::TypeScript),
        ("a.mts", Language::TypeScript),
        ("a.cts", Language::TypeScript),
        ("a.js", Language::JavaScript),
        ("a.mjs", Language::JavaScript),
        ("a.cjs", Language::JavaScript),
        ("a.jsx", Language::JavaScript),
        ("a.py", Language::Python),
        ("a.pyi", Language::Python),
        ("a.go", Language::Go),
        ("a.json", Language::Json),
        ("a.jsonc", Language::Json),
        ("a.markdown", Language::Markdown),
    ] {
        assert_eq!(Language::for_path(path), Some(language), "{path}");
    }
    assert_eq!(Language::for_path("rs"), None);
    assert_eq!(Language::for_path("a.rs~"), None);
}

#[test]
fn highlights_rust() {
    let source = "fn main() {\n    let x = \"hi\"; // note\n}\n";
    let spans = highlight(Language::Rust, source.as_bytes());
    let styled = styled(source, &spans);
    assert!(styled.contains(&("fn", Style::Keyword)), "{styled:?}");
    assert!(styled.contains(&("main", Style::Function)), "{styled:?}");
    assert!(styled.contains(&("\"hi\"", Style::String)), "{styled:?}");
    assert!(styled.contains(&("// note", Style::Comment)), "{styled:?}");
}

#[test]
fn every_language_loads_and_highlights() {
    let samples = [
        (Language::Rust, "fn a() {}"),
        (Language::TypeScript, "const a: number = 1;"),
        (Language::Tsx, "const a = <div className=\"x\" />;"),
        (Language::JavaScript, "function a() { return 1; }"),
        (Language::Python, "def a():\n    return 1\n"),
        (Language::Go, "package main\nfunc a() {}\n"),
        (Language::Json, "{\"a\": 1}"),
        (Language::Markdown, "# Title\n\ntext\n"),
    ];
    for (language, source) in samples {
        assert!(!highlight(language, source.as_bytes()).is_empty(), "{language:?}");
    }
}

#[test]
fn spans_in_clips_to_line() {
    let spans = vec![
        Span { range: 0..4, style: Style::Keyword },
        Span { range: 6..12, style: Style::String },
    ];
    let clipped: Vec<_> = spans_in(&spans, 2..8);
    assert_eq!(
        clipped,
        vec![
            Span { range: 0..2, style: Style::Keyword },
            Span { range: 4..6, style: Style::String },
        ]
    );
}

#[test]
fn spans_use_the_innermost_capture_and_join() {
    let spans = spans_of(&[
        Event::Source { start: 0, end: 1 },
        Event::Start(10),
        Event::Source { start: 1, end: 2 },
        Event::Source { start: 2, end: 4 },
        Event::Start(17),
        Event::Source { start: 4, end: 5 },
        Event::End,
        Event::Source { start: 5, end: 6 },
        Event::End,
        Event::Source { start: 6, end: 9 },
    ]);
    assert_eq!(
        spans,
        vec![
            Span { range: 1..4, style: Style::Keyword },
            Span { range: 4..5, style: Style::String },
            Span { range: 5..6, style: Style::Keyword },
        ]
    );
}
