//! Syntax highlighting of fenced code blocks, over syntect's embedded
//! default syntax definitions and the `base16-eighties.dark` theme.

use vstd::prelude::*;

use syntect::highlighting::{Theme, ThemeSet};
use syntect::parsing::SyntaxSet;

verus! {

#[verifier::external_type_specification]
#[verifier::external_body]
pub struct ExSyntaxSet(SyntaxSet);

#[verifier::external_type_specification]
#[verifier::external_body]
pub struct ExTheme(Theme);

#[verifier::external_type_specification]
#[verifier::external_body]
pub struct ExThemeSet(ThemeSet);

/// The HTML markup syntect renders for a code block, as a function of the
/// language tag and the block's text. Every `Highlighter` is built over
/// syntect's embedded defaults, so the markup depends on these two alone.
pub uninterp spec fn highlight_markup(language: Seq<char>, text: Seq<char>) -> Seq<char>;

/// Whether syntect renders this language tag and text at all, over the same
/// embedded defaults: like the markup itself, success is a function of the
/// two arguments alone.
pub uninterp spec fn highlight_ok(language: Seq<char>, text: Seq<char>) -> bool;

/// Why the highlighter could not render a block; recovered from locally by
/// falling back to the block's literal text.
#[derive(Debug)]
pub struct HighlightError {
    pub message: String,
}

/// The syntax highlighter: syntect's default syntax definitions together
/// with the theme the rendered pages use.
pub struct Highlighter {
    syntaxes: SyntaxSet,
    theme: Theme,
}

/// Relies on syntect's `SyntaxSet::load_defaults_newlines`, which loads the
/// syntax definitions embedded in the crate.
#[verifier::external_body]
fn load_default_syntaxes() -> SyntaxSet {
    SyntaxSet::load_defaults_newlines()
}

/// Relies on syntect's `ThemeSet::load_defaults`, which loads the theme
/// table embedded in the crate.
#[verifier::external_body]
fn load_default_themes() -> ThemeSet {
    ThemeSet::load_defaults()
}

/// Relies on the public `themes` field of syntect's `ThemeSet` (a std
/// `BTreeMap`): `get` looks the name up and `cloned` copies the theme out,
/// `None` when the set has no theme of that name.
#[verifier::external_body]
fn theme_from_set(themes: &ThemeSet, name: &str) -> Option<Theme> {
    themes.themes.get(name).cloned()
}

/// Relies on syntect's `Default` impl for `Theme`: a theme with no color
/// settings, used only if the named default theme were ever missing.
#[verifier::external_body]
fn plain_theme() -> Theme {
    Theme::default()
}

impl Highlighter {
    /// Creates a highlighter over syntect's embedded defaults. The
    /// `base16-eighties.dark` theme is among the defaults; if it were ever
    /// missing, an empty theme keeps the conversion going.
    pub fn new() -> Highlighter {
        let syntaxes = load_default_syntaxes();
        let themes = load_default_themes();
        let theme = match theme_from_set(&themes, "base16-eighties.dark") {
            Some(t) => t,
            None => plain_theme(),
        };
        Highlighter { syntaxes, theme }
    }

    /// Relies on syntect's `find_syntax_by_token` (with
    /// `find_syntax_plain_text` as the fallback for unknown language tags,
    /// present in the default syntax set) and `highlighted_html_for_string`.
    /// The only constructor of `Highlighter` loads syntect's embedded
    /// defaults, so both whether the call succeeds and what markup it
    /// renders are functions of the language tag and the text alone;
    /// `highlight_ok` and `highlight_markup` name them.
    #[verifier::external_body]
    fn highlight_raw(&self, language: &str, text: &str) -> (r: Result<String, String>)
        ensures
            r is Ok <==> highlight_ok(language@, text@),
            r matches Ok(h) ==> h@ == highlight_markup(language@, text@),
    {
        let syntax = self
            .syntaxes
            .find_syntax_by_token(language)
            .unwrap_or_else(|| self.syntaxes.find_syntax_plain_text());
        syntect::html::highlighted_html_for_string(text, &self.syntaxes, syntax, &self.theme)
            .map_err(|e| e.to_string())
    }

    /// Highlights one code block: `Ok` exactly when syntect renders this
    /// language tag and text, holding the markup it renders; `Err` reports
    /// why the highlighter failed (the caller falls back to the literal
    /// text).
    pub fn highlight(&self, language: &str, text: &str) -> (r: Result<String, HighlightError>)
        ensures
            r is Ok <==> highlight_ok(language@, text@),
            r matches Ok(h) ==> h@ == highlight_markup(language@, text@),
    {
        match self.highlight_raw(language, text) {
            Ok(h) => Ok(h),
            Err(message) => Err(HighlightError { message }),
        }
    }
}

} // verus!

