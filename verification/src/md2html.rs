//! The transform engine: a single pass over the Markdown token stream that
//! collapses each heading into one synthesized HTML element carrying a
//! unique anchor, replaces each fenced code block's text with the
//! highlighter's markup (falling back to the literal text when the
//! highlighter fails), and forwards everything else unchanged and in order.

use vstd::prelude::*;

use std::io::Write;

use pulldown_cmark::{CodeBlockKind, Event, Tag, TagEnd};

use crate::heading::{anchors_distinct, anchors_of, heading_views, lemma_resolved_anchor_shaped,
    resolved_anchor, Heading, HeadingLevel, HeadingV, Headings};
use crate::highlight_code::{highlight_markup, highlight_ok, HighlightError, Highlighter};
use crate::slug::{anchor_shaped, is_anchor_char, slug_of, string_from_chars};

verus! {

// ---------------------------------------------------------------------------
// Tokens: what the engine reads of the event stream
// ---------------------------------------------------------------------------

/// One token of the incoming stream, as far as the engine looks at it.
/// Everything the engine does not rewrite is `Other`; the engine forwards
/// such tokens by their position in the stream.
#[derive(Debug)]
pub enum Token {
    HeadingOpen(u8),
    HeadingClose(u8),
    CodeBlockOpen(String),
    Text(String),
    Other,
}

/// The mathematical value of a token.
pub ghost enum TokenV {
    HeadingOpen(int),
    HeadingClose(int),
    CodeBlockOpen(Seq<char>),
    Text(Seq<char>),
    Other,
}

impl View for Token {
    type V = TokenV;

    open spec fn view(&self) -> TokenV {
        match self {
            Token::HeadingOpen(l) => TokenV::HeadingOpen(*l as int),
            Token::HeadingClose(l) => TokenV::HeadingClose(*l as int),
            Token::CodeBlockOpen(lang) => TokenV::CodeBlockOpen(lang@),
            Token::Text(t) => TokenV::Text(t@),
            Token::Other => TokenV::Other,
        }
    }
}

/// The views of a token sequence.
pub open spec fn token_views(ts: Seq<Token>) -> Seq<TokenV> {
    ts.map_values(|t: Token| t@)
}

/// Heading levels on the stream are ordinals 1..=6.
pub open spec fn wf_tokens(toks: Seq<TokenV>) -> bool {
    forall|i: int|
        0 <= i < toks.len() ==> match #[trigger] toks[i] {
            TokenV::HeadingOpen(l) => 1 <= l <= 6,
            TokenV::HeadingClose(l) => 1 <= l <= 6,
            _ => true,
        }
}

/// One token of the outgoing stream: either the input token at a position,
/// forwarded unchanged, or a synthesized piece of ready HTML.
#[derive(Debug)]
pub enum OutTok {
    Keep(usize),
    Html(String),
}

/// The mathematical value of an outgoing token.
pub ghost enum OutTokV {
    Keep(int),
    Html(Seq<char>),
}

impl View for OutTok {
    type V = OutTokV;

    open spec fn view(&self) -> OutTokV {
        match self {
            OutTok::Keep(i) => OutTokV::Keep(*i as int),
            OutTok::Html(s) => OutTokV::Html(s@),
        }
    }
}

/// The views of an outgoing token sequence.
pub open spec fn out_views(ts: Seq<OutTok>) -> Seq<OutTokV> {
    ts.map_values(|t: OutTok| t@)
}

/// The programming-error-class fault: the token stream broke the
/// tokenizer's guarantees, and the conversion is aborted rather than
/// allowed to produce a corrupt outline.
#[derive(Clone, Copy, PartialEq, Eq, Structural, Debug)]
pub enum StructuralFault {
    HeadingLevelMismatch,
}

impl StructuralFault {
    /// A description of the fault for diagnostics.
    pub fn message(&self) -> &'static str {
        "the heading level should start and end the same"
    }
}

// ---------------------------------------------------------------------------
// The synthesized heading element and its re-parsing
// ---------------------------------------------------------------------------

/// The single digit of a heading level.
pub open spec fn level_digit(l: int) -> Seq<char> {
    if l == 1 {
        "1"@
    } else if l == 2 {
        "2"@
    } else if l == 3 {
        "3"@
    } else if l == 4 {
        "4"@
    } else if l == 5 {
        "5"@
    } else {
        "6"@
    }
}

/// The heading element synthesized for a registered heading:
/// `<h{level} id="{anchor}">{title}</h{level}>`.
pub open spec fn heading_markup(level: int, anchor: Seq<char>, title: Seq<char>) -> Seq<char> {
    "<h"@ + level_digit(level) + " id=\""@ + anchor + "\">"@ + title + "</h"@ + level_digit(level)
        + ">"@
}

fn level_digit_str(level: HeadingLevel) -> (r: &'static str)
    ensures
        r@ == level_digit(level.ordinal()),
{
    match level {
        HeadingLevel::H1 => "1",
        HeadingLevel::H2 => "2",
        HeadingLevel::H3 => "3",
        HeadingLevel::H4 => "4",
        HeadingLevel::H5 => "5",
        HeadingLevel::H6 => "6",
    }
}

/// Synthesizes the HTML element of one heading.
pub fn heading_html(level: HeadingLevel, anchor: &str, title: &str) -> (r: String)
    ensures
        r@ == heading_markup(level.ordinal(), anchor@, title@),
{
    let digit = level_digit_str(level);
    let mut s = String::new();
    s.append("<h");
    s.append(digit);
    s.append(" id=\"");
    s.append(anchor);
    s.append("\">");
    s.append(title);
    s.append("</h");
    s.append(digit);
    s.append(">");
    proof {
        assert(s@ =~= heading_markup(level.ordinal(), anchor@, title@));
    }
    s
}

/// The level an element digit stands for; 0 for any other character.
pub open spec fn digit_level(c: char) -> int {
    if c == '1' {
        1
    } else if c == '2' {
        2
    } else if c == '3' {
        3
    } else if c == '4' {
        4
    } else if c == '5' {
        5
    } else if c == '6' {
        6
    } else {
        0
    }
}

/// The first position of `c` in `s` at or after `from`; -1 when absent.
pub open spec fn find_char(s: Seq<char>, c: char, from: int) -> int
    decreases s.len() - from,
{
    if from < 0 || from >= s.len() {
        -1
    } else if s[from] == c {
        from
    } else {
        find_char(s, c, from + 1)
    }
}

/// Recovers `(level, anchor, title)` from a string of the documented
/// heading-element shape; `None` if the string is not of that shape.
pub open spec fn parse_heading_markup(s: Seq<char>) -> Option<(int, Seq<char>, Seq<char>)> {
    if s.len() >= 15 && s[0] == '<' && s[1] == 'h' && 1 <= digit_level(s[2]) <= 6 && s[3] == ' '
        && s[4] == 'i' && s[5] == 'd' && s[6] == '=' && s[7] == '"' {
        let l = digit_level(s[2]);
        let q = find_char(s, '"', 8);
        if q >= 8 && q + 2 <= s.len() - 5 && s[q + 1] == '>' && s.subrange(
            s.len() - 5,
            s.len() as int,
        ) == "</h"@ + level_digit(l) + ">"@ {
            Some((l, s.subrange(8, q), s.subrange(q + 2, s.len() - 5)))
        } else {
            None
        }
    } else {
        None
    }
}

proof fn lemma_find_char_first(s: Seq<char>, c: char, from: int, p: int)
    requires
        0 <= from <= p < s.len(),
        s[p] == c,
        forall|j: int| from <= j < p ==> s[j] != c,
    ensures
        find_char(s, c, from) == p,
    decreases p - from,
{
    if from < p {
        lemma_find_char_first(s, c, from + 1, p);
    }
}

proof fn lemma_find_char_none(s: Seq<char>, c: char, from: int)
    requires
        forall|j: int| from <= j < s.len() ==> s[j] != c,
    ensures
        find_char(s, c, from) == -1,
    decreases s.len() - from,
{
    if 0 <= from && from < s.len() {
        lemma_find_char_none(s, c, from + 1);
    }
}

proof fn reveal_markup_literals()
    ensures
        "<h"@ =~= seq!['<', 'h'],
        " id=\""@ =~= seq![' ', 'i', 'd', '=', '"'],
        "\">"@ =~= seq!['"', '>'],
        "</h"@ =~= seq!['<', '/', 'h'],
        ">"@ =~= seq!['>'],
        "1"@ =~= seq!['1'],
        "2"@ =~= seq!['2'],
        "3"@ =~= seq!['3'],
        "4"@ =~= seq!['4'],
        "5"@ =~= seq!['5'],
        "6"@ =~= seq!['6'],
{
    reveal_strlit("<h");
    reveal_strlit(" id=\"");
    reveal_strlit("\">");
    reveal_strlit("</h");
    reveal_strlit(">");
    reveal_strlit("1");
    reveal_strlit("2");
    reveal_strlit("3");
    reveal_strlit("4");
    reveal_strlit("5");
    reveal_strlit("6");
}

/// Round trip on heading markup: re-parsing the synthesized element of any
/// heading whose anchor holds no double quote recovers the same level,
/// anchor and title. Anchors the registry issues consist of ASCII letters,
/// digits and hyphens, so they never hold a quote.
pub proof fn lemma_heading_markup_round_trip(level: int, anchor: Seq<char>, title: Seq<char>)
    requires
        1 <= level <= 6,
        !anchor.contains('"'),
    ensures
        parse_heading_markup(heading_markup(level, anchor, title)) == Some(
            (level, anchor, title),
        ),
{
    reveal_markup_literals();
    let s = heading_markup(level, anchor, title);
    let d = level_digit(level);
    assert(d.len() == 1);
    assert(digit_level(d[0]) == level);
    let alen = anchor.len() as int;
    let tlen = title.len() as int;
    assert(s.len() == 15 + alen + tlen);
    assert(s[0] == '<');
    assert(s[1] == 'h');
    assert(s[2] == d[0]);
    assert(s[3] == ' ');
    assert(s[4] == 'i');
    assert(s[5] == 'd');
    assert(s[6] == '=');
    assert(s[7] == '"');
    assert forall|j: int| 8 <= j < 8 + alen implies s[j] != '"' by {
        assert(s[j] == anchor[j - 8]);
        assert(!anchor.contains('"'));
        assert(anchor[j - 8] != '"');
    }
    assert(s[8 + alen] == '"');
    lemma_find_char_first(s, '"', 8, 8 + alen);
    assert(s[8 + alen + 1] == '>');
    assert(s.subrange(s.len() - 5, s.len() as int) =~= "</h"@ + level_digit(level) + ">"@);
    assert(s.subrange(8, 8 + alen) =~= anchor);
    assert(s.subrange(8 + alen + 2, s.len() - 5) =~= title);
}

/// Round trip for the headings the engine registers: whatever outline the
/// heading closes against, the synthesized element of the registered
/// heading re-parses to exactly its level, anchor and title, because the
/// registry's anchors are URL-fragment safe and so never hold a quote.
pub proof fn lemma_registered_round_trip(outline: Seq<HeadingV>, level: int, title: Seq<char>)
    requires
        1 <= level <= 6,
    ensures
        ({
            let h = registered(outline, level, title);
            parse_heading_markup(heading_markup(level, h.anchor, h.title)) == Some(
                (level, h.anchor, h.title),
            )
        }),
{
    let h = registered(outline, level, title);
    lemma_resolved_anchor_shaped(anchors_of(outline), title);
    assert(anchor_shaped(h.anchor));
    assert(!h.anchor.contains('"')) by {
        if h.anchor.contains('"') {
            let i = choose|i: int| 0 <= i < h.anchor.len() && h.anchor[i] == '"';
            assert(is_anchor_char(h.anchor[i]));
            assert(!is_anchor_char('"'));
        }
    }
    lemma_heading_markup_round_trip(level, h.anchor, h.title);
}

fn level_of_digit(c: char) -> (l: u8)
    ensures
        l as int == digit_level(c),
{
    match c {
        '1' => 1,
        '2' => 2,
        '3' => 3,
        '4' => 4,
        '5' => 5,
        '6' => 6,
        _ => 0,
    }
}

/// Re-parses a synthesized heading element, recovering its level, anchor
/// and title; `None` for a string not of the documented shape.
pub fn parse_heading_html(s: &str) -> (r: Option<(u8, String, String)>)
    ensures
        match parse_heading_markup(s@) {
            Some(p) => r matches Some(q) && q.0 as int == p.0 && q.1@ == p.1 && q.2@ == p.2,
            None => r is None,
        },
{
    proof {
        reveal_markup_literals();
    }
    let n = s.unicode_len();
    if n < 15 {
        return None;
    }
    if !(s.get_char(0) == '<' && s.get_char(1) == 'h' && s.get_char(3) == ' ' && s.get_char(4)
        == 'i' && s.get_char(5) == 'd' && s.get_char(6) == '=' && s.get_char(7) == '"') {
        return None;
    }
    let l = level_of_digit(s.get_char(2));
    if l == 0 {
        return None;
    }

    // Find the quote that closes the id attribute.
    let mut q: usize = 8;
    while q < n && s.get_char(q) != '"'
        invariant
            8 <= q <= n,
            n == s@.len(),
            forall|j: int| 8 <= j < q ==> s@[j] != '"',
        decreases n - q,
    {
        q = q + 1;
    }
    if q == n {
        proof {
            lemma_find_char_none(s@, '"', 8);
        }
        return None;
    }
    proof {
        lemma_find_char_first(s@, '"', 8, q as int);
    }
    if !(q <= n - 7 && s.get_char(q + 1) == '>') {
        return None;
    }

    // Check the closing element.
    let tail_ok = s.get_char(n - 5) == '<' && s.get_char(n - 4) == '/' && s.get_char(n - 3) == 'h'
        && level_of_digit(s.get_char(n - 2)) == l && s.get_char(n - 1) == '>';
    proof {
        let d = level_digit(l as int);
        assert(d.len() == 1);
        assert(digit_level(d[0]) == l as int);
        let close = "</h"@ + d + ">"@;
        let tl = s@.subrange(s@.len() - 5, s@.len() as int);
        assert(close[0] == '<' && close[1] == '/' && close[2] == 'h' && close[3] == d[0] && close[4]
            == '>');
        assert(tl[0] == s@[s@.len() - 5] && tl[1] == s@[s@.len() - 4] && tl[2] == s@[s@.len() - 3]
            && tl[3] == s@[s@.len() - 2] && tl[4] == s@[s@.len() - 1]);
        if tail_ok {
            // digit_level is one-to-one on the digits '1'..'6', so the
            // closing digit equals the opening one.
            assert(s@[s@.len() - 2] == d[0]);
            assert(tl =~= close);
        } else {
            if tl == close {
                assert(digit_level(s@[s@.len() - 2]) == l as int);
                assert(tail_ok);
            }
        }
    }
    if !tail_ok {
        return None;
    }

    // Extract the anchor and the title.
    let mut anchor_chars: Vec<char> = Vec::new();
    let mut i: usize = 8;
    while i < q
        invariant
            8 <= i <= q <= n,
            n == s@.len(),
            q + 2 <= n - 5,
            anchor_chars@ == s@.subrange(8, q as int).take(i - 8),
        decreases q - i,
    {
        anchor_chars.push(s.get_char(i));
        proof {
            assert(anchor_chars@ =~= s@.subrange(8, q as int).take(i + 1 - 8));
        }
        i = i + 1;
    }
    proof {
        assert(anchor_chars@ =~= s@.subrange(8, q as int));
    }
    let anchor = string_from_chars(&anchor_chars);

    let mut title_chars: Vec<char> = Vec::new();
    let mut i: usize = q + 2;
    while i < n - 5
        invariant
            q + 2 <= i <= n - 5,
            n == s@.len(),
            title_chars@ == s@.subrange(q + 2, n - 5).take(i - (q + 2)),
        decreases n - 5 - i,
    {
        title_chars.push(s.get_char(i));
        proof {
            assert(title_chars@ =~= s@.subrange(q + 2, n - 5).take(i + 1 - (q + 2)));
        }
        i = i + 1;
    }
    proof {
        assert(title_chars@ =~= s@.subrange(q + 2, n - 5));
    }
    let title = string_from_chars(&title_chars);

    Some((l, anchor, title))
}

// ---------------------------------------------------------------------------
// The code-block replacement
// ---------------------------------------------------------------------------

/// Relies on std's `stderr` and the `writeln` macro: surfaces the engine's
/// one non-fatal diagnostic, the warning that a code block could not be
/// highlighted. Nothing is promised of it; it changes no value.
#[verifier::external_body]
fn warn_highlight_failed(message: &str) {
    let _ = writeln!(
        std::io::stderr().lock(),
        "Warning: Failed creating source code formatting: {message}",
    );
}

/// The token emitted in place of a code block's text: the highlighter's
/// markup when it succeeded; the block's own text token, kept in place
/// unmodified, when the highlighter failed.
pub fn code_block_out(res: Result<String, HighlightError>, idx: usize) -> (r: OutTok)
    ensures
        res matches Ok(h) ==> r@ == OutTokV::Html(h@),
        res is Err ==> r@ == OutTokV::Keep(idx as int),
{
    match res {
        Ok(h) => OutTok::Html(h),
        Err(_) => OutTok::Keep(idx),
    }
}

// ---------------------------------------------------------------------------
// The engine's state machine, as a mathematical relation
// ---------------------------------------------------------------------------

/// The engine's transient state: the heading in progress (level and text
/// accumulated so far), the pending code-block language, and the outline
/// registered so far.
#[verifier::ext_equal]
pub ghost struct TransV {
    pub heading: Option<(int, Seq<char>)>,
    pub pending: Option<Seq<char>>,
    pub outline: Seq<HeadingV>,
}

/// The state before any token: nothing open, nothing registered.
pub open spec fn trans_init() -> TransV {
    TransV { heading: None, pending: None, outline: Seq::empty() }
}

/// The heading the registry creates when a heading at `level` with
/// accumulated `title` closes against `outline`.
pub open spec fn registered(outline: Seq<HeadingV>, level: int, title: Seq<char>) -> HeadingV {
    HeadingV { level, anchor: resolved_anchor(anchors_of(outline), slug_of(title)), title }
}

/// How one token changes the engine's state; `None` is the structural
/// fault of a heading-close whose level does not match the open heading.
pub open spec fn step_state(s: TransV, t: TokenV) -> Option<TransV> {
    match t {
        TokenV::CodeBlockOpen(lang) => Some(
            TransV { heading: s.heading, pending: Some(lang), outline: s.outline },
        ),
        TokenV::HeadingOpen(l) => Some(
            TransV { heading: Some((l, Seq::empty())), pending: s.pending, outline: s.outline },
        ),
        TokenV::HeadingClose(l) => match s.heading {
            Option::Some(p) => if p.0 == l {
                Some(
                    TransV {
                        heading: None,
                        pending: s.pending,
                        outline: s.outline.push(registered(s.outline, l, p.1)),
                    },
                )
            } else {
                None
            },
            Option::None => None,
        },
        TokenV::Text(txt) => match s.heading {
            Option::Some(p) => Some(
                TransV { heading: Some((p.0, p.1 + txt)), pending: s.pending, outline: s.outline },
            ),
            Option::None => if s.pending is Some {
                Some(TransV { heading: s.heading, pending: None, outline: s.outline })
            } else {
                Some(s)
            },
        },
        TokenV::Other => Some(s),
    }
}

/// The state after the tokens from `i` on; `None` on a structural fault.
pub open spec fn run_state(toks: Seq<TokenV>, i: int, s: TransV) -> Option<TransV>
    decreases toks.len() - i,
{
    if i < 0 || i >= toks.len() {
        Some(s)
    } else {
        match step_state(s, toks[i]) {
            Option::Some(s2) => run_state(toks, i + 1, s2),
            Option::None => None,
        }
    }
}

/// The language of the pending code block (empty when none is pending).
pub open spec fn pending_of(s: TransV) -> Seq<char> {
    match s.pending {
        Option::Some(l) => l,
        Option::None => Seq::empty(),
    }
}

/// The element synthesized when a heading at `l` closes in state `s`.
pub open spec fn closed_heading_html(s: TransV, l: int) -> Seq<char> {
    match s.heading {
        Option::Some(p) => heading_markup(l, registered(s.outline, l, p.1).anchor, p.1),
        Option::None => Seq::empty(),
    }
}

/// The relation between the tokens from `i` on, the state they are read
/// in, and the emitted stream: heading regions collapse to one synthesized
/// element, a pending code block's text becomes the highlighter's markup
/// when the highlighter succeeds on it and the kept original token when it
/// fails, and every other token is kept in place; order is preserved and
/// nothing else is emitted.
pub open spec fn out_rel(toks: Seq<TokenV>, i: int, s: TransV, out: Seq<OutTokV>) -> bool
    decreases toks.len() - i,
{
    if i < 0 || i >= toks.len() {
        out.len() == 0
    } else {
        match step_state(s, toks[i]) {
            Option::None => false,
            Option::Some(s2) => match toks[i] {
                TokenV::HeadingOpen(_) => out_rel(toks, i + 1, s2, out),
                TokenV::HeadingClose(l) => out.len() >= 1 && out[0] == OutTokV::Html(
                    closed_heading_html(s, l),
                ) && out_rel(toks, i + 1, s2, out.drop_first()),
                TokenV::Text(txt) => if s.heading is Some {
                    out_rel(toks, i + 1, s2, out)
                } else if s.pending is Some {
                    out.len() >= 1 && out[0] == (if highlight_ok(pending_of(s), txt) {
                        OutTokV::Html(highlight_markup(pending_of(s), txt))
                    } else {
                        OutTokV::Keep(i)
                    }) && out_rel(toks, i + 1, s2, out.drop_first())
                } else {
                    out.len() >= 1 && out[0] == OutTokV::Keep(i) && out_rel(
                        toks,
                        i + 1,
                        s2,
                        out.drop_first(),
                    )
                },
                TokenV::CodeBlockOpen(_) => out.len() >= 1 && out[0] == OutTokV::Keep(i)
                    && out_rel(toks, i + 1, s2, out.drop_first()),
                TokenV::Other => out.len() >= 1 && out[0] == OutTokV::Keep(i) && out_rel(
                    toks,
                    i + 1,
                    s2,
                    out.drop_first(),
                ),
            },
        }
    }
}

/// The input position a kept output token forwards; -1 for synthesized HTML.
pub open spec fn kept_index(o: OutTokV) -> int {
    match o {
        OutTokV::Keep(i) => i,
        OutTokV::Html(_) => -1,
    }
}

/// Forwarding order is preserved: every emitted stream the engine relation
/// allows keeps the forwarded input tokens in strictly increasing input
/// order, each at or after the point where it was read; nothing is
/// reordered or emitted twice.
pub proof fn lemma_out_rel_keeps_order(toks: Seq<TokenV>, i: int, s: TransV, out: Seq<OutTokV>)
    requires
        out_rel(toks, i, s, out),
    ensures
        forall|k: int|
            0 <= k < out.len() && out[k] is Keep ==> i <= kept_index(#[trigger] out[k])
                < toks.len(),
        forall|a: int, b: int|
            0 <= a < b < out.len() && out[a] is Keep && out[b] is Keep ==> kept_index(out[a])
                < kept_index(out[b]),
    decreases toks.len() - i,
{
    if i < 0 || i >= toks.len() {
        // nothing is emitted
    } else {
        match step_state(s, toks[i]) {
            Option::Some(s2) => {
                let consumes_head = match toks[i] {
                    TokenV::HeadingOpen(_) => false,
                    TokenV::Text(_) => !(s.heading is Some),
                    _ => true,
                };
                if consumes_head {
                    let rest = out.drop_first();
                    lemma_out_rel_keeps_order(toks, i + 1, s2, rest);
                    assert(out[0] is Keep ==> kept_index(out[0]) == i);
                    assert forall|k: int|
                        0 <= k < out.len() && out[k] is Keep implies i <= kept_index(
                        #[trigger] out[k],
                    ) < toks.len() by {
                        if k >= 1 {
                            assert(out[k] == rest[k - 1]);
                        }
                    }
                    assert forall|a: int, b: int|
                        0 <= a < b < out.len() && out[a] is Keep && out[b] is Keep implies
                        kept_index(out[a]) < kept_index(out[b]) by {
                        assert(out[b] == rest[b - 1]);
                        if a >= 1 {
                            assert(out[a] == rest[a - 1]);
                        } else {
                            assert(kept_index(out[a]) == i);
                            assert(i + 1 <= kept_index(rest[b - 1]));
                        }
                    }
                } else {
                    lemma_out_rel_keeps_order(toks, i + 1, s2, out);
                }
            },
            Option::None => {
                assert(false);
            },
        }
    }
}

// ---------------------------------------------------------------------------
// The engine
// ---------------------------------------------------------------------------

/// Runs the transform over a token stream: collapses headings (registering
/// each and synthesizing its element), replaces code-block text with the
/// highlighter's markup or keeps it on highlighter failure, forwards all
/// other tokens in place. `Err` exactly when the stream closes a heading
/// whose level does not match the open one (or none is open).
pub fn transform(tokens: &Vec<Token>, highlighter: &Highlighter) -> (r: Result<
    (Vec<OutTok>, Vec<Heading>),
    StructuralFault,
>)
    requires
        wf_tokens(token_views(tokens@)),
    ensures
        ({
            let toks = token_views(tokens@);
            &&& (r matches Ok(p) ==> {
                &&& run_state(toks, 0, trans_init()) matches Some(fin) && heading_views(p.1@)
                    == fin.outline
                &&& out_rel(toks, 0, trans_init(), out_views(p.0@))
                &&& anchors_distinct(heading_views(p.1@))
                &&& forall|k: int|
                    0 <= k < p.0@.len() ==> ((#[trigger] p.0@[k])@ matches OutTokV::Keep(idx) ==> 0
                        <= idx < tokens@.len())
            })
            &&& (r is Err ==> run_state(toks, 0, trans_init()) is None)
        }),
{
    let ghost toks = token_views(tokens@);

    let mut registry = Headings::default();
    let mut heading_level: Option<u8> = None;
    let mut heading_acc = String::new();
    let mut pending_lang: Option<String> = None;
    let mut out: Vec<OutTok> = Vec::new();

    let ghost mut cur = trans_init();

    let n = tokens.len();
    let mut i: usize = 0;
    while i < n
        invariant
            toks == token_views(tokens@),
            wf_tokens(toks),
            n == tokens@.len(),
            toks.len() == n,
            0 <= i <= n,
            registry.wf(),
            registry@ == cur.outline,
            anchors_distinct(registry@),
            match cur.heading {
                Option::Some(p) => heading_level matches Some(hl) && hl as int == p.0 && 1 <= p.0
                    <= 6 && heading_acc@ == p.1,
                Option::None => heading_level is None,
            },
            match cur.pending {
                Option::Some(lang) => pending_lang matches Some(pl) && pl@ == lang,
                Option::None => pending_lang is None,
            },
            forall|k: int|
                0 <= k < out@.len() ==> ((#[trigger] out@[k])@ matches OutTokV::Keep(idx) ==> 0
                    <= idx < i),
            run_state(toks, 0, trans_init()) == run_state(toks, i as int, cur),
            forall|rest: Seq<OutTokV>| #[trigger]
                out_rel(toks, i as int, cur, rest) ==> out_rel(
                    toks,
                    0,
                    trans_init(),
                    out_views(out@) + rest,
                ),
        decreases n - i,
    {
        let ghost prev = cur;
        let ghost out0 = out@;
        proof {
            assert(toks[i as int] == tokens@[i as int]@);
        }

        match &tokens[i] {
            Token::CodeBlockOpen(lang) => {
                pending_lang = Some(lang.clone());
                let kept = OutTok::Keep(i);
                out.push(kept);
                proof {
                    cur = TransV { heading: prev.heading, pending: Some(lang@), outline: prev.outline };
                    assert(step_state(prev, toks[i as int]) == Some(cur));
                    assert forall|rest: Seq<OutTokV>| #[trigger]
                        out_rel(toks, i + 1, cur, rest) implies out_rel(
                        toks,
                        0,
                        trans_init(),
                        out_views(out@) + rest,
                    ) by {
                        let withfrag = seq![OutTokV::Keep(i as int)] + rest;
                        assert(withfrag.drop_first() =~= rest);
                        assert(out_rel(toks, i as int, prev, withfrag));
                        assert(out_views(out@) =~= out_views(out0).push(OutTokV::Keep(i as int)));
                        assert(out_views(out@) + rest =~= out_views(out0) + withfrag);
                    }
                }
            },
            Token::HeadingOpen(l) => {
                heading_level = Some(*l);
                heading_acc = String::new();
                proof {
                    cur = TransV {
                        heading: Some((*l as int, Seq::empty())),
                        pending: prev.pending,
                        outline: prev.outline,
                    };
                    assert(step_state(prev, toks[i as int]) == Some(cur));
                    assert forall|rest: Seq<OutTokV>| #[trigger]
                        out_rel(toks, i + 1, cur, rest) implies out_rel(
                        toks,
                        0,
                        trans_init(),
                        out_views(out@) + rest,
                    ) by {
                        assert(out_rel(toks, i as int, prev, rest));
                    }
                }
            },
            Token::HeadingClose(l) => {
                let opened = match heading_level {
                    Some(hl) => hl,
                    None => {
                        proof {
                            assert(step_state(prev, toks[i as int]) is None);
                            assert(run_state(toks, i as int, prev) is None);
                        }
                        return Err(StructuralFault::HeadingLevelMismatch);
                    },
                };
                if opened != *l {
                    proof {
                        assert(step_state(prev, toks[i as int]) is None);
                        assert(run_state(toks, i as int, prev) is None);
                    }
                    return Err(StructuralFault::HeadingLevelMismatch);
                }
                let level_enum = match HeadingLevel::from_number(opened) {
                    Some(le) => le,
                    None => {
                        // unreachable: open levels are always 1..=6
                        return Err(StructuralFault::HeadingLevelMismatch);
                    },
                };
                let anchor = registry.add(level_enum, heading_acc.as_str());
                let html = heading_html(level_enum, anchor.as_str(), heading_acc.as_str());
                let ghost emitted = html@;
                out.push(OutTok::Html(html));
                heading_level = None;
                heading_acc = String::new();
                proof {
                    let acc = match prev.heading {
                        Option::Some(p) => p.1,
                        Option::None => Seq::empty(),
                    };
                    cur = TransV {
                        heading: None,
                        pending: prev.pending,
                        outline: prev.outline.push(registered(prev.outline, *l as int, acc)),
                    };
                    assert(step_state(prev, toks[i as int]) =~= Some(cur));
                    assert(registry@ =~= cur.outline);
                    assert(emitted == closed_heading_html(prev, *l as int));
                    assert forall|rest: Seq<OutTokV>| #[trigger]
                        out_rel(toks, i + 1, cur, rest) implies out_rel(
                        toks,
                        0,
                        trans_init(),
                        out_views(out@) + rest,
                    ) by {
                        let withfrag = seq![OutTokV::Html(emitted)] + rest;
                        assert(withfrag.drop_first() =~= rest);
                        assert(out_rel(toks, i as int, prev, withfrag));
                        assert(out_views(out@) =~= out_views(out0).push(OutTokV::Html(emitted)));
                        assert(out_views(out@) + rest =~= out_views(out0) + withfrag);
                    }
                }
            },
            Token::Text(txt) => {
                if heading_level.is_some() {
                    heading_acc.append(txt.as_str());
                    proof {
                        let p = match prev.heading {
                            Option::Some(p) => p,
                            Option::None => (0int, Seq::<char>::empty()),
                        };
                        cur = TransV {
                            heading: Some((p.0, p.1 + txt@)),
                            pending: prev.pending,
                            outline: prev.outline,
                        };
                        assert(step_state(prev, toks[i as int]) =~= Some(cur));
                        assert forall|rest: Seq<OutTokV>| #[trigger]
                            out_rel(toks, i + 1, cur, rest) implies out_rel(
                            toks,
                            0,
                            trans_init(),
                            out_views(out@) + rest,
                        ) by {
                            assert(out_rel(toks, i as int, prev, rest));
                        }
                    }
                } else {
                    let language = pending_lang;
                    pending_lang = None;
                    match language {
                        Some(lang) => {
                            let res = highlighter.highlight(lang.as_str(), txt.as_str());
                            if let Err(why) = &res {
                                warn_highlight_failed(why.message.as_str());
                            }
                            let emitted = code_block_out(res, i);
                            let ghost ev = emitted@;
                            out.push(emitted);
                            proof {
                                cur = TransV {
                                    heading: prev.heading,
                                    pending: None,
                                    outline: prev.outline,
                                };
                                assert(step_state(prev, toks[i as int]) =~= Some(cur));
                                assert(ev == (if highlight_ok(pending_of(prev), txt@) {
                                    OutTokV::Html(highlight_markup(pending_of(prev), txt@))
                                } else {
                                    OutTokV::Keep(i as int)
                                }));
                                assert forall|rest: Seq<OutTokV>| #[trigger]
                                    out_rel(toks, i + 1, cur, rest) implies out_rel(
                                    toks,
                                    0,
                                    trans_init(),
                                    out_views(out@) + rest,
                                ) by {
                                    let withfrag = seq![ev] + rest;
                                    assert(withfrag.drop_first() =~= rest);
                                    assert(out_rel(toks, i as int, prev, withfrag));
                                    assert(out_views(out@) =~= out_views(out0).push(ev));
                                    assert(out_views(out@) + rest =~= out_views(out0) + withfrag);
                                }
                            }
                        },
                        None => {
                            let kept = OutTok::Keep(i);
                            out.push(kept);
                            proof {
                                cur = prev;
                                assert(step_state(prev, toks[i as int]) =~= Some(cur));
                                assert forall|rest: Seq<OutTokV>| #[trigger]
                                    out_rel(toks, i + 1, cur, rest) implies out_rel(
                                    toks,
                                    0,
                                    trans_init(),
                                    out_views(out@) + rest,
                                ) by {
                                    let withfrag = seq![OutTokV::Keep(i as int)] + rest;
                                    assert(withfrag.drop_first() =~= rest);
                                    assert(out_rel(toks, i as int, prev, withfrag));
                                    assert(out_views(out@) =~= out_views(out0).push(
                                        OutTokV::Keep(i as int),
                                    ));
                                    assert(out_views(out@) + rest =~= out_views(out0) + withfrag);
                                }
                            }
                        },
                    }
                }
            },
            Token::Other => {
                let kept = OutTok::Keep(i);
                out.push(kept);
                proof {
                    cur = prev;
                    assert(step_state(prev, toks[i as int]) =~= Some(cur));
                    assert forall|rest: Seq<OutTokV>| #[trigger]
                        out_rel(toks, i + 1, cur, rest) implies out_rel(
                        toks,
                        0,
                        trans_init(),
                        out_views(out@) + rest,
                    ) by {
                        let withfrag = seq![OutTokV::Keep(i as int)] + rest;
                        assert(withfrag.drop_first() =~= rest);
                        assert(out_rel(toks, i as int, prev, withfrag));
                        assert(out_views(out@) =~= out_views(out0).push(OutTokV::Keep(i as int)));
                        assert(out_views(out@) + rest =~= out_views(out0) + withfrag);
                    }
                }
            },
        }
        i = i + 1;
    }

    proof {
        assert(run_state(toks, 0, trans_init()) == Some(cur));
        assert(out_rel(toks, i as int, cur, Seq::<OutTokV>::empty()));
        assert(out_views(out@) + Seq::<OutTokV>::empty() =~= out_views(out@));
        assert(out_rel(toks, 0, trans_init(), out_views(out@)));
    }
    let outline = registry.finish();
    Ok((out, outline))
}

// ---------------------------------------------------------------------------
// Parsing a whole document, over pulldown-cmark
// ---------------------------------------------------------------------------

#[verifier::external_type_specification]
#[verifier::external_body]
pub struct ExEvent<'a>(Event<'a>);

/// The stream of engine-visible tokens that pulldown-cmark produces for a
/// Markdown document. Parsing is a function of the document text alone;
/// this names its result as far as the engine reads it.
pub uninterp spec fn md_tokens(md: Seq<char>) -> Seq<TokenV>;

/// Relies on pulldown-cmark's `Parser`, which tokenizes a Markdown document
/// into its event stream in document order (`into_static` only unties the
/// collected events from the input's lifetime), and on the shape of its
/// `Event`, `Tag`, `TagEnd` and `CodeBlockKind` enums: each arm of the
/// token projection only tells the variants apart and moves the level or
/// text out, position by position, so the two returned vectors run in
/// parallel and the tokens are `md_tokens` of the document. The
/// `HeadingLevel` variants H1..H6 carry the discriminants 1..6. The last
/// clause is pulldown-cmark's documented guarantee that start and end
/// events are balanced and a heading's end event carries the level of its
/// start event: no heading-close arrives unopened or with another level,
/// which is the engine's one structural fault.
#[verifier::external_body]
fn tokenize(markdown: &str) -> (r: (Vec<Event<'static>>, Vec<Token>))
    ensures
        token_views(r.1@) == md_tokens(markdown@),
        r.0@.len() == r.1@.len(),
        wf_tokens(token_views(r.1@)),
        run_state(token_views(r.1@), 0, trans_init()) is Some,
{
    let events: Vec<Event<'static>> =
        pulldown_cmark::Parser::new(markdown).map(|e| e.into_static()).collect();
    let tokens = events.iter().map(|e| match e {
        Event::Start(Tag::Heading { level, .. }) => Token::HeadingOpen(*level as u8),
        Event::End(TagEnd::Heading(level)) => Token::HeadingClose(*level as u8),
        Event::Start(Tag::CodeBlock(CodeBlockKind::Fenced(l))) => Token::CodeBlockOpen(l.to_string()),
        Event::Text(t) => Token::Text(t.to_string()),
        _ => Token::Other,
    }).collect();
    (events, tokens)
}

/// Relies on the derived `Clone` of pulldown-cmark's `Event`.
#[verifier::external_body]
fn clone_event(e: &Event<'static>) -> Event<'static> {
    e.clone()
}

/// Relies on pulldown-cmark's `Event::Html` and `CowStr::from`: wraps a
/// ready piece of HTML as one event.
#[verifier::external_body]
fn html_event(s: &String) -> Event<'static> {
    Event::Html(pulldown_cmark::CowStr::from(s.clone()))
}

/// Relies on pulldown-cmark's `html::push_html`: renders an event stream
/// to HTML, event by event, in order.
#[verifier::external_body]
fn push_html_events(events: Vec<Event<'static>>) -> String {
    let mut html = String::new();
    pulldown_cmark::html::push_html(&mut html, events.into_iter());
    html
}

/// Converts a Markdown document: the returned HTML body has each heading
/// collapsed to one element carrying a unique anchor and each fenced code
/// block highlighted (or left literal if the highlighter failed), and the
/// returned outline is exactly the outline the engine's state machine
/// registers over the document's token stream: the document's headings in
/// order, with pairwise distinct anchors. Always `Ok`: the structural
/// fault cannot occur on a pulldown-cmark stream, whose heading events are
/// balanced.
pub fn parse(markdown: &str) -> (r: Result<(String, Vec<Heading>), StructuralFault>)
    ensures
        r is Ok,
        r matches Ok(p) ==> run_state(md_tokens(markdown@), 0, trans_init()) matches Some(f)
            && heading_views(p.1@) == f.outline,
        r matches Ok(p) ==> anchors_distinct(heading_views(p.1@)),
{
    let (events, tokens) = tokenize(markdown);

    let highlighter = Highlighter::new();
    match transform(&tokens, &highlighter) {
        Err(fault) => {
            // unreachable: the tokenizer's stream drives the state machine
            // to completion
            proof {
                assert(run_state(token_views(tokens@), 0, trans_init()) is Some);
            }
            Err(fault)
        },
        Ok((out, outline)) => {
            let mut rendered: Vec<Event<'static>> = Vec::new();
            let mut j: usize = 0;
            while j < out.len()
                invariant
                    0 <= j <= out@.len(),
                    tokens@.len() == events@.len(),
                    forall|k: int|
                        0 <= k < out@.len() ==> ((#[trigger] out@[k])@ matches OutTokV::Keep(idx)
                            ==> 0 <= idx < tokens@.len()),
                decreases out@.len() - j,
            {
                match &out[j] {
                    OutTok::Keep(idx) => {
                        let e = clone_event(&events[*idx]);
                        rendered.push(e);
                    },
                    OutTok::Html(s) => {
                        let e = html_event(s);
                        rendered.push(e);
                    },
                }
                j = j + 1;
            }
            let html = push_html_events(rendered);
            Ok((html, outline))
        },
    }
}

/// The page body handed to the template: the TOC in a `nav` element
/// followed by the document body in a `main` element.
pub open spec fn page_body_markup(toc_part: Seq<char>, html_part: Seq<char>) -> Seq<char> {
    "<nav class=\"toc\">"@ + toc_part + "</nav><main>"@ + html_part + "</main>"@
}

/// Wraps the TOC and the body HTML as the template's `body` value.
pub fn page_body(toc_part: &str, html_part: &str) -> (r: String)
    ensures
        r@ == page_body_markup(toc_part@, html_part@),
{
    let mut s = String::new();
    s.append("<nav class=\"toc\">");
    s.append(toc_part);
    s.append("</nav><main>");
    s.append(html_part);
    s.append("</main>");
    proof {
        assert(s@ =~= page_body_markup(toc_part@, html_part@));
    }
    s
}

} // verus!


