use mdpage::heading::{first_title, to_html_toc, Heading, HeadingLevel, Headings};
use mdpage::slug::{slugify, to_decimal};

fn heading(level: HeadingLevel, anchor: &str, title: &str) -> Heading {
    Heading { level, anchor: anchor.to_owned(), title: title.to_owned() }
}

#[test]
fn anchor_of_title_examples() {
    let mut headings = Headings::default();
    assert_eq!("a-b", headings.add(HeadingLevel::H1, " A b"));
    assert_eq!("passw-rter", headings.add(HeadingLevel::H1, "passw\u{f6}rter"));
}

#[test]
fn anchor_of_title_is_unique() {
    let mut headings = Headings::default();
    assert_eq!("a", headings.add(HeadingLevel::H1, "a"));
    assert_eq!("a-2", headings.add(HeadingLevel::H1, "a"));
    assert_eq!("a-3", headings.add(HeadingLevel::H1, "a"));
}

#[test]
fn to_html_toc_example_level2() {
    let expected = r##"
<ul>
<li><a href="#coffee">Coffee</a></li>
<li><a href="#tea">Tea</a>
<ul>
<li><a href="#black_tea">Black tea</a></li>
<li><a href="#green_tea">Green tea</a></li>
</ul>
</li>
<li><a href="#milk">Milk</a></li>
</ul>
"##;

    let headings = vec![
        heading(HeadingLevel::H1, "coffee", "Coffee"),
        heading(HeadingLevel::H1, "tea", "Tea"),
        heading(HeadingLevel::H2, "black_tea", "Black tea"),
        heading(HeadingLevel::H2, "green_tea", "Green tea"),
        heading(HeadingLevel::H1, "milk", "Milk"),
    ];

    let toc = to_html_toc(&headings);
    assert_eq!(toc, expected);
}

#[test]
fn to_html_toc_example_level3() {
    let expected = r##"
<ul>
<li><a href="#coffee">Coffee</a></li>
<li><a href="#tea">Tea</a>
<ul>
<li><a href="#black_tea">Black tea</a></li>
<li><a href="#green_tea">Green tea</a>
<ul>
<li><a href="#china">China</a></li>
<li><a href="#africa">Africa</a></li>
</ul>
</li>
</ul>
</li>
<li><a href="#milk">Milk</a></li>
</ul>
"##;

    let headings = vec![
        heading(HeadingLevel::H1, "coffee", "Coffee"),
        heading(HeadingLevel::H1, "tea", "Tea"),
        heading(HeadingLevel::H2, "black_tea", "Black tea"),
        heading(HeadingLevel::H2, "green_tea", "Green tea"),
        heading(HeadingLevel::H3, "china", "China"),
        heading(HeadingLevel::H3, "africa", "Africa"),
        heading(HeadingLevel::H1, "milk", "Milk"),
    ];

    let toc = to_html_toc(&headings);
    assert_eq!(toc, expected);
}

#[test]
fn anchors_stay_pairwise_distinct() {
    let mut registry = Headings::default();
    let titles = ["a", "a", "a-2", "", "", "b!!", "b", "A", "passw\u{f6}rter", "pass w\u{f6}rter"];
    let mut anchors = Vec::new();
    for title in titles {
        anchors.push(registry.add(HeadingLevel::H2, title));
    }
    for i in 0..anchors.len() {
        for j in 0..anchors.len() {
            if i != j {
                assert_ne!(anchors[i], anchors[j], "titles {i} and {j} got the same anchor");
            }
        }
    }
}

#[test]
fn empty_title_joins_the_collision_sequence() {
    let mut registry = Headings::default();
    assert_eq!("", registry.add(HeadingLevel::H1, "!!!"));
    assert_eq!("-2", registry.add(HeadingLevel::H1, ""));
    assert_eq!("-3", registry.add(HeadingLevel::H1, "??"));
}

#[test]
fn finish_returns_outline_in_document_order() {
    let mut registry = Headings::default();
    registry.add(HeadingLevel::H1, "First");
    registry.add(HeadingLevel::H2, "Second");
    let outline = registry.finish();
    assert_eq!(outline.len(), 2);
    assert_eq!(outline[0].title, "First");
    assert_eq!(outline[0].anchor, "first");
    assert_eq!(outline[1].title, "Second");
    assert_eq!(outline[1].anchor, "second");
}

#[test]
fn empty_outline_builds_empty_toc_and_no_title() {
    let headings: Vec<Heading> = Vec::new();
    assert_eq!(to_html_toc(&headings), "");
    assert!(first_title(&headings).is_none());
}

#[test]
fn first_title_of_nonempty_outline() {
    let headings = vec![
        heading(HeadingLevel::H1, "coffee", "Coffee"),
        heading(HeadingLevel::H1, "tea", "Tea"),
    ];
    assert_eq!(first_title(&headings), Some("Coffee".to_owned()));
}

#[test]
fn multilevel_jump_opens_and_closes_nested_lists() {
    let headings = vec![
        heading(HeadingLevel::H1, "a", "A"),
        heading(HeadingLevel::H3, "c", "C"),
        heading(HeadingLevel::H1, "m", "M"),
    ];
    let expected = "\n<ul>\n<li><a href=\"#a\">A</a>\n<ul>\n\n<ul>\n<li><a href=\"#c\">C</a></li>\n</ul>\n</li>\n</ul>\n</li>\n<li><a href=\"#m\">M</a></li>\n</ul>\n";
    assert_eq!(to_html_toc(&headings), expected);
}

#[test]
fn slugify_examples() {
    assert_eq!(slugify(" A b"), "a-b");
    assert_eq!(slugify("passw\u{f6}rter"), "passw-rter");
    assert_eq!(slugify("--a--"), "a");
    assert_eq!(slugify("Hello,  World!"), "hello-world");
    assert_eq!(slugify(""), "");
    assert_eq!(slugify("!!!"), "");
    assert_eq!(slugify("A1b2C3"), "a1b2c3");
}

#[test]
fn to_decimal_renders_digits() {
    assert_eq!(to_decimal(0), "0");
    assert_eq!(to_decimal(7), "7");
    assert_eq!(to_decimal(42), "42");
    assert_eq!(to_decimal(1200345), "1200345");
}

#[test]
fn level_numbers_round_trip() {
    let levels = [
        HeadingLevel::H1,
        HeadingLevel::H2,
        HeadingLevel::H3,
        HeadingLevel::H4,
        HeadingLevel::H5,
        HeadingLevel::H6,
    ];
    for (i, level) in levels.iter().enumerate() {
        let n = level.as_number();
        assert_eq!(n as usize, i + 1);
        assert_eq!(HeadingLevel::from_number(n), Some(*level));
    }
    assert_eq!(HeadingLevel::from_number(0), None);
    assert_eq!(HeadingLevel::from_number(7), None);
}
