//! A literate-programming tangle engine: named code fragments scattered over a
//! Markdown document are gathered into a web of sections, and a section is woven
//! into flat source text by expanding every reference it holds.

use vstd::prelude::*;
use vstd::string::*;

pub mod header;
pub mod line_counter;
pub mod normalize;
pub mod scan;
pub mod tangle;
pub mod text;
pub mod tokenizer;
pub mod unresolved;
pub mod weave;
pub mod web;

verus! {

/// What a span of a document holds, or what went wrong there.
#[derive(Debug, Clone, PartialEq, Eq)]
pub enum Ilk {
    /// The name of a section, between its delimiters.
    SectionName,
    /// Code, taken as it stands.
    JustCode,
    /// Something asked for is not there; the complaint says what.
    NotFound(String),
    /// Something was opened and never closed; the word says what.
    Unterminated(&'static str),
}

/// A range of positions, `lo` up to but not including `hi`, and what it holds.
#[derive(Debug, Clone, PartialEq, Eq)]
pub struct Span {
    pub lo: usize,
    pub hi: usize,
    pub ilk: Ilk,
}

impl Ilk {
    /// The words that `describe` gives.
    pub open spec fn description(&self) -> Seq<char> {
        match self {
            Ilk::SectionName => "Section Name"@,
            Ilk::JustCode => "Just Code"@,
            Ilk::NotFound(complaint) => complaint@,
            Ilk::Unterminated(thingy) => "Unterminated "@ + thingy@,
        }
    }

    /// The ilk in words, for a reader of diagnostics.
    pub fn describe(&self) -> (words: String)
        ensures
            words@ == self.description(),
    {
        match self {
            Ilk::SectionName => String::from_str("Section Name"),
            Ilk::JustCode => String::from_str("Just Code"),
            Ilk::NotFound(complaint) => complaint.clone(),
            Ilk::Unterminated(thingy) => String::from_str("Unterminated ").concat(thingy),
        }
    }
}

} // verus!
