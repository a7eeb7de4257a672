//! The command-line surface of the tool, as plain data. Argument parsing
//! itself is I/O plumbing and stays outside the library; it hands over one
//! of these values. Paths are carried as plain strings.

use vstd::prelude::*;

verus! {

/// What the tool was asked to do.
pub enum SubCommands {
    /// Render the markdown to html, wrapped in a page template.
    Render {
        /// Template file to be used instead of the builtin one.
        template_file: Option<String>,
        /// Don't try to inline assets.
        no_inline: bool,
        /// Markdown file to be parsed; `-` reads from stdin.
        markdown_file: String,
    },
    /// Print the included template to stdout.
    Template,
    /// Only parse the markdown to html without any further modifications.
    Raw {
        /// Markdown file to be parsed; `-` reads from stdin.
        markdown_file: String,
    },
}

/// The parsed command line.
pub struct Cli {
    pub subcommands: SubCommands,
}

} // verus!
