//! The UltiSnips line format.

pub mod de;
pub mod laws;
pub mod ser;

use super::{Backend, Error, ErrorView};
use crate::SnippetFile;
use vstd::prelude::*;

verus! {

/// Backend for files in the UltiSnips line format.
#[derive(Debug)]
pub struct UltiSnips;

impl Backend for UltiSnips {
    fn name(&self) -> (out: &'static str)
        ensures
            out@ == "ultisnips"@,
    {
        "ultisnips"
    }

    fn deserialize(&self, input: &str) -> (out: Result<SnippetFile, Error>)
        ensures
            match de::parse_text(input@) {
                Ok(records) => out matches Ok(file) && file@ == records,
                Err(e) => out matches Err(f) && f@ == ErrorView::Parse(e),
            },
            out matches Ok(file) ==> forall|i: int|
                0 <= i < file@.len() ==> (#[trigger] file@[i]).trigger.len() > 0,
    {
        match de::deserialize(input) {
            Ok(file) => Ok(file),
            Err(e) => Err(Error::Parse(e)),
        }
    }

    fn serialize(&self, snippets: &SnippetFile) -> (out: Result<String, Error>)
        ensures
            match ser::render(snippets@) {
                Ok(text) => out matches Ok(s) && s@ == text,
                Err(e) => out matches Err(f) && f@ == ErrorView::Serialize(e),
            },
    {
        match ser::serialize(snippets) {
            Ok(text) => Ok(text),
            Err(e) => Err(Error::Serialize(e)),
        }
    }
}

} // verus!
