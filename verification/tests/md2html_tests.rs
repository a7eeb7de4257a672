use mdpage::heading::HeadingLevel;
use mdpage::highlight_code::{HighlightError, Highlighter};
use mdpage::md2html::{code_block_out, heading_html, page_body, parse, parse_heading_html,
    transform, OutTok, StructuralFault, Token};

#[test]
fn heading_markup_has_documented_shape() {
    let html = heading_html(HeadingLevel::H2, "black_tea", "Black tea");
    assert_eq!(html, "<h2 id=\"black_tea\">Black tea</h2>");
    assert!(html.contains("id=\"black_tea\""));
}

#[test]
fn heading_markup_round_trips() {
    for (level, anchor, title) in [
        (HeadingLevel::H1, "coffee", "Coffee"),
        (HeadingLevel::H3, "a-b-c", "A, b & c!"),
        (HeadingLevel::H6, "", ""),
        (HeadingLevel::H4, "x", "tricky </h4> title"),
    ] {
        let html = heading_html(level, anchor, title);
        let parsed = parse_heading_html(&html);
        assert_eq!(parsed, Some((level.as_number(), anchor.to_owned(), title.to_owned())));
    }
}

#[test]
fn parse_heading_html_rejects_other_shapes() {
    assert_eq!(parse_heading_html(""), None);
    assert_eq!(parse_heading_html("<p>hello</p>"), None);
    assert_eq!(parse_heading_html("<h7 id=\"a\">t</h7>"), None);
    assert_eq!(parse_heading_html("<h2 id=\"a\">t</h3>"), None);
    assert_eq!(parse_heading_html("<h2 id=a>t</h2>"), None);
}

#[test]
fn transform_collapses_heading_regions() {
    let tokens = vec![
        Token::Other,
        Token::HeadingOpen(1),
        Token::Text("Hello ".to_owned()),
        Token::Text("World".to_owned()),
        Token::HeadingClose(1),
        Token::Other,
    ];
    let highlighter = Highlighter::new();
    let (out, outline) = transform(&tokens, &highlighter).unwrap();

    assert_eq!(out.len(), 3);
    match &out[0] {
        OutTok::Keep(idx) => assert_eq!(*idx, 0),
        OutTok::Html(_) => panic!("the leading token must be kept"),
    }
    match &out[1] {
        OutTok::Html(html) => assert_eq!(html, "<h1 id=\"hello-world\">Hello World</h1>"),
        OutTok::Keep(_) => panic!("the heading must be synthesized"),
    }
    match &out[2] {
        OutTok::Keep(idx) => assert_eq!(*idx, 5),
        OutTok::Html(_) => panic!("the trailing token must be kept"),
    }

    assert_eq!(outline.len(), 1);
    assert_eq!(outline[0].level, HeadingLevel::H1);
    assert_eq!(outline[0].anchor, "hello-world");
    assert_eq!(outline[0].title, "Hello World");
}

#[test]
fn transform_rejects_mismatched_heading_close() {
    let tokens = vec![Token::HeadingOpen(1), Token::HeadingClose(2)];
    let highlighter = Highlighter::new();
    let fault = transform(&tokens, &highlighter).unwrap_err();
    assert_eq!(fault, StructuralFault::HeadingLevelMismatch);
    assert_eq!(fault.message(), "the heading level should start and end the same");
}

#[test]
fn transform_rejects_unopened_heading_close() {
    let tokens = vec![Token::HeadingClose(3)];
    let highlighter = Highlighter::new();
    assert_eq!(transform(&tokens, &highlighter).unwrap_err(), StructuralFault::HeadingLevelMismatch);
}

#[test]
fn transform_highlights_code_blocks() {
    let tokens = vec![
        Token::CodeBlockOpen("rust".to_owned()),
        Token::Text("fn main() {}\n".to_owned()),
        Token::Other,
    ];
    let highlighter = Highlighter::new();
    let (out, outline) = transform(&tokens, &highlighter).unwrap();
    assert!(outline.is_empty());
    assert_eq!(out.len(), 3);
    match &out[1] {
        OutTok::Html(html) => {
            assert!(html.starts_with("<pre"), "highlighter markup expected, got: {html}");
            assert_ne!(html, "fn main() {}\n");
        }
        OutTok::Keep(_) => panic!("the code text must be replaced when highlighting succeeds"),
    }
}

#[test]
fn highlighter_failure_falls_back_to_the_original_token() {
    let failure: Result<String, HighlightError> =
        Err(HighlightError { message: "broken".to_owned() });
    match code_block_out(failure, 7) {
        OutTok::Keep(idx) => assert_eq!(idx, 7),
        OutTok::Html(_) => panic!("a failed highlight must keep the original text token"),
    }
    match code_block_out(Ok("<pre>markup</pre>".to_owned()), 7) {
        OutTok::Html(html) => assert_eq!(html, "<pre>markup</pre>"),
        OutTok::Keep(_) => panic!("a successful highlight must emit its markup"),
    }
}

#[test]
fn parse_tags_headings_and_builds_outline() {
    let markdown = "# Coffee\n\nSome text.\n\n## Tea\n\nMore text.\n";
    let (html, outline) = parse(markdown).unwrap();

    assert!(html.contains("<h1 id=\"coffee\">Coffee</h1>"));
    assert!(html.contains("<h2 id=\"tea\">Tea</h2>"));
    assert!(html.contains("<p>Some text.</p>"));

    assert_eq!(outline.len(), 2);
    assert_eq!(outline[0].anchor, "coffee");
    assert_eq!(outline[0].title, "Coffee");
    assert_eq!(outline[1].anchor, "tea");
    assert_eq!(outline[1].title, "Tea");
}

#[test]
fn parse_disambiguates_repeated_headings() {
    let markdown = "# A\n\n# A\n\n# A\n";
    let (html, outline) = parse(markdown).unwrap();
    assert_eq!(outline.len(), 3);
    assert_eq!(outline[0].anchor, "a");
    assert_eq!(outline[1].anchor, "a-2");
    assert_eq!(outline[2].anchor, "a-3");
    assert!(html.contains("<h1 id=\"a-3\">A</h1>"));
}

#[test]
fn parse_strips_emphasis_from_heading_titles() {
    let markdown = "# Hello *World*\n";
    let (html, outline) = parse(markdown).unwrap();
    assert_eq!(outline.len(), 1);
    assert_eq!(outline[0].title, "Hello World");
    assert!(html.contains("<h1 id=\"hello-world\">Hello World</h1>"));
}

#[test]
fn parse_highlights_fenced_code() {
    let markdown = "# Code\n\n```rust\nfn main() {}\n```\n";
    let (html, _outline) = parse(markdown).unwrap();
    assert!(html.contains("<pre"), "expected highlighter markup in: {html}");
    assert!(html.contains("style="), "expected inline styles in: {html}");
}

#[test]
fn parse_of_empty_document_has_no_headings() {
    let (html, outline) = parse("").unwrap();
    assert!(outline.is_empty());
    assert_eq!(html, "");
}

#[test]
fn parse_never_faults_on_wellformed_markdown() {
    for markdown in [
        "```rust\n```\n\nhello\n",
        "# A `code` *title*\n\n> quote\n\n- item\n",
        "###### Deep\n\n---\n\ntext <b>inline html</b>\n",
    ] {
        let (html, _outline) = parse(markdown).unwrap();
        assert!(!html.is_empty());
    }
}

#[test]
fn page_body_wraps_toc_and_main() {
    let body = page_body("<ul></ul>", "<p>x</p>");
    assert_eq!(body, "<nav class=\"toc\"><ul></ul></nav><main><p>x</p></main>");
}
