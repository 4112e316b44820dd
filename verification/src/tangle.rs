//! A document as the tool sees it: from Markdown to the web of its sections,
//! and from the web to the text of a section.

use crate::header::{CLOSE, OPEN};
use crate::scan::{blocks_of, collect_blocks, event_models, is_unterminated, markdown_events, scan};
use crate::scan::{EventModel, ScanEvent};
use crate::text::{chars_of, string_of};
use crate::unresolved::{unresolved, unresolved_models, Unresolved};
use crate::weave::{woven, WeaveError};
use crate::web::{block_models, web_of, BlockModel, CodeBlock, SectionModel, Web};
use crate::{Ilk, Span};
use vstd::prelude::*;
use vstd::string::*;

verus! {

/// The web of one document.
pub struct Tangle {
    web: Web,
}

/// The web that a document with these events gives for `tag`, or the range
/// of the code block that its events leave open.
pub open spec fn tangle_of(events: Seq<EventModel>, tag: Seq<char>) -> Result<
    Seq<SectionModel>,
    (usize, usize),
> {
    match blocks_of(events) {
        Ok(blocks) => Ok(web_of(blocks, tag)),
        Err(range) => Err(range),
    }
}

/// What `get` complains of when the web has no section named `key`.
pub open spec fn missing_complaint(key: Seq<char>) -> Seq<char> {
    "No matching code found for section "@ + seq![OPEN] + key + seq![CLOSE]
}

/// What `get` complains of when the section named `name` is referred to from
/// inside its own expansion.
pub open spec fn cycle_complaint(name: Seq<char>) -> Seq<char> {
    "No end to the expansion of section "@ + seq![OPEN] + name + seq![CLOSE]
}

impl View for Tangle {
    type V = Seq<SectionModel>;

    closed spec fn view(&self) -> Seq<SectionModel> {
        self.web@
    }
}

impl Tangle {
    #[verifier::type_invariant]
    spec fn well_formed(&self) -> bool {
        self.web.wf()
    }

    /// The web of the code blocks tagged `tag`.
    pub fn from_blocks(blocks: &[CodeBlock], tag: &str) -> (tangle: Tangle)
        ensures
            tangle@ == web_of(block_models(blocks@), tag@),
    {
        let tag = chars_of(tag);
        Tangle { web: Web::build(blocks, tag.as_slice()) }
    }

    /// The web of a document, from the events that the parser reports for
    /// it. A code block that is never closed fails the whole document.
    pub fn from_events(events: &[ScanEvent], tag: &str) -> (result: Result<Tangle, Span>)
        ensures
            match result {
                Ok(tangle) => tangle_of(event_models(events@), tag@) == Ok::<
                    Seq<SectionModel>,
                    (usize, usize),
                >(tangle@),
                Err(span) => match tangle_of(event_models(events@), tag@) {
                    Ok(_) => false,
                    Err(range) => is_unterminated(span, range),
                },
            },
    {
        match collect_blocks(events) {
            Ok(blocks) => Ok(Tangle::from_blocks(blocks.as_slice(), tag)),
            Err(span) => Err(span),
        }
    }

    /// The web of a Markdown document, made of its code blocks tagged `tag`.
    pub fn with_tag(doc: &str, tag: &str) -> (result: Result<Tangle, Span>)
        ensures
            match result {
                Ok(tangle) => tangle_of(markdown_events(doc@), tag@) == Ok::<
                    Seq<SectionModel>,
                    (usize, usize),
                >(tangle@),
                Err(span) => match tangle_of(markdown_events(doc@), tag@) {
                    Ok(_) => false,
                    Err(range) => is_unterminated(span, range),
                },
            },
    {
        match scan(doc) {
            Ok(blocks) => Ok(Tangle::from_blocks(blocks.as_slice(), tag)),
            Err(span) => Err(span),
        }
    }

    /// The web of a Markdown document, made of its code blocks tagged `rust`.
    pub fn new(doc: &str) -> (result: Result<Tangle, Span>)
        ensures
            match result {
                Ok(tangle) => tangle_of(markdown_events(doc@), "rust"@) == Ok::<
                    Seq<SectionModel>,
                    (usize, usize),
                >(tangle@),
                Err(span) => match tangle_of(markdown_events(doc@), "rust"@) {
                    Ok(_) => false,
                    Err(range) => is_unterminated(span, range),
                },
            },
    {
        Tangle::with_tag(doc, "rust")
    }

    /// The web itself.
    pub fn web(&self) -> (web: &Web)
        ensures
            web@ == self@,
            web.wf(),
    {
        proof {
            use_type_invariant(self);
        }
        &self.web
    }

    /// The canonical names of the sections, in the order in which the
    /// document first names them.
    pub fn names(&self) -> (names: Vec<String>)
        ensures
            names.len() == self@.len(),
            forall|i: int| 0 <= i < names.len() ==> (#[trigger] names[i])@ == self@[i].name,
    {
        let mut names: Vec<String> = Vec::new();
        let mut i: usize = 0;
        while i < self.web.sections.len()
            invariant
                i <= self.web.sections.len(),
                names.len() == i,
                forall|j: int| 0 <= j < i ==> (#[trigger] names[j])@ == self@[j].name,
            decreases self.web.sections.len() - i,
        {
            names.push(string_of(self.web.sections[i].name.as_slice()));
            i += 1;
        }
        names
    }

    /// The references that name no section, which weaving leaves out.
    pub fn unresolved(&self) -> (found: Vec<Unresolved>)
        ensures
            unresolved_models(found@) == unresolved(self@),
    {
        proof {
            use_type_invariant(self);
        }
        self.web.unresolved()
    }

    /// Weaves the section named `key`; the section without a name is the
    /// root of the document.
    pub fn weave(&self, key: &str) -> (result: Result<String, WeaveError>)
        ensures
            match result {
                Ok(text) => woven(self@, key@) == Some(Ok::<Seq<char>, int>(text@)),
                Err(WeaveError::NotFound) => woven(self@, key@) is None,
                Err(WeaveError::Cycle { section }) => woven(self@, key@) == Some(
                    Err::<Seq<char>, int>(section as int),
                ) && section < self@.len(),
            },
    {
        proof {
            use_type_invariant(self);
        }
        let key = chars_of(key);
        match self.web.weave(key.as_slice()) {
            Ok(text) => Ok(string_of(text.as_slice())),
            Err(error) => Err(error),
        }
    }

    /// The woven text of the section named `key`, or the complaint that
    /// there is none: because the web has no section of that name, or
    /// because a section is referred to from inside its own expansion.
    pub fn get(&self, key: &str) -> (result: Result<String, Ilk>)
        ensures
            match woven(self@, key@) {
                Some(Ok(text)) => result matches Ok(got) && got@ == text,
                Some(Err(section)) => 0 <= section < self@.len() && (result matches Err(
                    Ilk::NotFound(complaint),
                ) && complaint@ == cycle_complaint(self@[section].name)),
                None => result matches Err(Ilk::NotFound(complaint)) && complaint@
                    == missing_complaint(key@),
            },
    {
        match self.weave(key) {
            Ok(text) => Ok(text),
            Err(WeaveError::NotFound) => {
                let mut complaint = String::from_str("No matching code found for section ");
                complaint.push(OPEN);
                complaint.append(key);
                complaint.push(CLOSE);
                assert(complaint@ =~= missing_complaint(key@));
                Err(Ilk::NotFound(complaint))
            },
            Err(WeaveError::Cycle { section }) => {
                let name = string_of(self.web.sections[section].name.as_slice());
                let mut complaint = String::from_str("No end to the expansion of section ");
                complaint.push(OPEN);
                complaint.append(name.as_str());
                complaint.push(CLOSE);
                assert(complaint@ =~= cycle_complaint(self@[section as int].name));
                Err(Ilk::NotFound(complaint))
            },
        }
    }
}

} // verus!
