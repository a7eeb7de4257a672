use mdpage::highlight_code::Highlighter;

#[test]
fn highlight_produces_markup_not_the_input() {
    let highlighter = Highlighter::new();
    let source = "fn main() {}\n";
    let html = highlighter.highlight("rust", source).unwrap();
    assert_ne!(html, source);
    assert!(html.starts_with("<pre"), "expected a pre block, got: {html}");
    assert!(html.contains("main"), "the source text must appear in the markup");
}

#[test]
fn unknown_language_falls_back_to_plain_text() {
    let highlighter = Highlighter::new();
    let html = highlighter.highlight("no-such-language-tag", "just words\n").unwrap();
    assert!(html.contains("just words"));
    assert!(html.starts_with("<pre"));
}

#[test]
fn highlight_is_deterministic() {
    let first = Highlighter::new();
    let second = Highlighter::new();
    let a = first.highlight("rust", "let x = 1;\n").unwrap();
    let b = second.highlight("rust", "let x = 1;\n").unwrap();
    assert_eq!(a, b);
}
