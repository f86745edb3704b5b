//! The supported file formats.
//!
//! A backend is a value that implements [`Backend`]: it has a name, reads a
//! file into a [`SnippetFile`] and writes one back. The command-line
//! arguments of a backend are derived from its name.

pub mod ultisnips;

use crate::SnippetFile;
use ultisnips::de::{ParseError, ParseErrorView};
use ultisnips::ser::{SerializeError, SerializeErrorView};
use vstd::prelude::*;
use vstd::string::StringExecFns;

pub use ultisnips::UltiSnips;

verus! {

/// Why a backend could not read or write a file.
#[derive(Clone, Debug, PartialEq, Eq)]
pub enum Error {
    /// The input is no file of the line format.
    Parse(ParseError),
    /// The snippets cannot be written in the line format.
    Serialize(SerializeError),
    /// Another backend failed, with this message.
    Other(String),
}

/// An [`Error`] as mathematical values.
pub enum ErrorView {
    Parse(ParseErrorView),
    Serialize(SerializeErrorView),
    Other(Seq<char>),
}

impl View for Error {
    type V = ErrorView;

    open spec fn view(&self) -> ErrorView {
        match self {
            Error::Parse(e) => ErrorView::Parse(e@),
            Error::Serialize(e) => ErrorView::Serialize(e@),
            Error::Other(m) => ErrorView::Other(m@),
        }
    }
}

impl Error {
    /// The error in words.
    pub fn message(&self) -> (out: String)
        ensures
            out@ == (match self@ {
                ErrorView::Parse(e) => e.message(),
                ErrorView::Serialize(e) => e.message(),
                ErrorView::Other(m) => m,
            }),
    {
        match self {
            Error::Parse(e) => e.message(),
            Error::Serialize(e) => e.message(),
            Error::Other(m) => m.clone(),
        }
    }
}

/// Offers communication to and from a file format.
pub trait Backend {
    /// The name of this backend: a short identifier in lower case.
    fn name(&self) -> &'static str;

    /// Reads the text of a file.
    fn deserialize(&self, input: &str) -> Result<SnippetFile, Error>;

    /// Writes snippets as the text of a file.
    fn serialize(&self, snippets: &SnippetFile) -> Result<String, Error>;

    /// The name of the argument that gives this backend its input, or `None`
    /// where it cannot read. Unless a backend says otherwise, it has one:
    /// its name followed by `-in`.
    fn name_in(&self) -> (out: Option<String>)
        default_ensures
            out matches Some(argument) && exists|name: &'static str|
                call_ensures(Self::name, (self,), name) && argument@ == name@ + "-in"@,
    {
        Some(String::from_str(self.name()).concat("-in"))
    }

    /// The name of the argument that gives this backend its output, or
    /// `None` where it cannot write. Unless a backend says otherwise, it has
    /// one: its name followed by `-out`.
    fn name_out(&self) -> (out: Option<String>)
        default_ensures
            out matches Some(argument) && exists|name: &'static str|
                call_ensures(Self::name, (self,), name) && argument@ == name@ + "-out"@,
    {
        Some(String::from_str(self.name()).concat("-out"))
    }
}

} // verus!
