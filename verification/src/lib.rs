//! Conversion between snippet-collection file formats.
//!
//! Every format is read into, and written from, one shared representation:
//! a [`SnippetFile`], an ordered list of [`Snippet`] records.

use vstd::prelude::*;

pub mod backends;
pub mod number;
pub mod selection;
pub mod text;

pub use selection::{BackendSelection, Source, Targets};

verus! {

/// One expansion rule.
#[derive(Clone, Debug, Default, PartialEq, Eq)]
pub struct Snippet {
    /// What the user types to invoke the expansion.
    pub trigger: String,
    /// The text that the trigger expands to.
    pub replacement: String,
    /// Single-character flags, kept in the order they were given.
    pub options: Option<String>,
    /// A short annotation.
    pub description: Option<String>,
    /// Evaluation order in the host tool.
    pub priority: Option<i64>,
}

/// An ordered collection of snippets; the order is that of the file.
#[derive(Clone, Debug, Default, PartialEq, Eq)]
pub struct SnippetFile {
    pub snippets: Vec<Snippet>,
}

/// What a [`Snippet`] holds, as mathematical values.
pub struct SnippetView {
    pub trigger: Seq<char>,
    pub replacement: Seq<char>,
    pub options: Option<Seq<char>>,
    pub description: Option<Seq<char>>,
    pub priority: Option<i64>,
}

/// The text of an optional string.
pub open spec fn opt_text(s: Option<String>) -> Option<Seq<char>> {
    match s {
        Some(s) => Some(s@),
        None => None,
    }
}

impl View for Snippet {
    type V = SnippetView;

    open spec fn view(&self) -> SnippetView {
        SnippetView {
            trigger: self.trigger@,
            replacement: self.replacement@,
            options: opt_text(self.options),
            description: opt_text(self.description),
            priority: self.priority,
        }
    }
}

impl View for SnippetFile {
    type V = Seq<SnippetView>;

    open spec fn view(&self) -> Seq<SnippetView> {
        self.snippets@.map_values(|s: Snippet| s@)
    }
}

} // verus!
