//! From a Markdown document to its code blocks. The Markdown parser reports
//! the document as a sequence of events; the blocks are read off the events
//! that open, fill and close a code block.

use crate::text::chars_of;
use crate::web::{block_models, BlockModel, CodeBlock};
use crate::{Ilk, Span};
use pulldown_cmark::{CodeBlockKind, Event, Parser, Tag, TagEnd};
use vstd::prelude::*;

verus! {

/// What an event of the parser means to the scanner.
#[derive(Debug, Clone, Copy, PartialEq, Eq, Structural)]
pub enum EventKind {
    /// A code block starts; the event's text is the tag on its fence, and is
    /// empty for an indented block.
    Open,
    /// Text, inside a code block or elsewhere.
    Text,
    /// A code block ends.
    Close,
    /// Anything else.
    Other,
}

/// An event of the parser: its kind, its text, and the range of the document,
/// in bytes, that it stands for.
#[derive(Debug)]
pub struct ScanEvent {
    pub kind: EventKind,
    pub text: String,
    pub lo: usize,
    pub hi: usize,
}

/// An event as a value.
pub ghost struct EventModel {
    pub kind: EventKind,
    pub text: Seq<char>,
    pub lo: usize,
    pub hi: usize,
}

impl View for ScanEvent {
    type V = EventModel;

    open spec fn view(&self) -> EventModel {
        EventModel { kind: self.kind, text: self.text@, lo: self.lo, hi: self.hi }
    }
}

/// The events as values.
pub open spec fn event_models(events: Seq<ScanEvent>) -> Seq<EventModel> {
    events.map_values(|e: ScanEvent| e@)
}

/// The events that the Markdown parser reports for a document, in order.
pub uninterp spec fn markdown_events(doc: Seq<char>) -> Seq<EventModel>;

/// Runs `pulldown_cmark::Parser::new(doc).into_offset_iter()` to its end and
/// keeps of each event its kind, its text and its range. The events are those
/// that `markdown_events` names for the document; nothing else is claimed of
/// them.
#[verifier::external_body]
fn scan_markdown(doc: &str) -> (events: Vec<ScanEvent>)
    ensures
        event_models(events@) == markdown_events(doc@),
{
    Parser::new(doc).into_offset_iter().map(|(event, range)| {
        let (kind, text) = match event {
            Event::Start(Tag::CodeBlock(CodeBlockKind::Fenced(tag))) => (EventKind::Open, tag.into_string()),
            Event::Start(Tag::CodeBlock(CodeBlockKind::Indented)) => (EventKind::Open, String::new()),
            Event::End(TagEnd::CodeBlock) => (EventKind::Close, String::new()),
            Event::Text(text) => (EventKind::Text, text.into_string()),
            _ => (EventKind::Other, String::new()),
        };
        ScanEvent { kind, text, lo: range.start, hi: range.end }
    }).collect()
}

/// A code block that was opened and is being filled.
pub ghost struct OpenBlock {
    pub tag: Seq<char>,
    pub body: Seq<char>,
    pub lo: usize,
    pub hi: usize,
}

/// What the scanner knows after some events: the blocks that were closed,
/// and the block that is open, if one is.
pub ghost struct ScanState {
    pub blocks: Seq<BlockModel>,
    pub open: Option<OpenBlock>,
}

/// The scanner's state after one more event. An event that opens a block
/// while another is open fails, with the range of the block that is open.
pub open spec fn scan_step(state: ScanState, event: EventModel) -> Result<
    ScanState,
    (usize, usize),
> {
    match state.open {
        Some(open) => match event.kind {
            EventKind::Open => Err((open.lo, open.hi)),
            EventKind::Text => Ok(
                ScanState {
                    blocks: state.blocks,
                    open: Some(
                        OpenBlock {
                            tag: open.tag,
                            body: open.body + event.text,
                            lo: open.lo,
                            hi: open.hi,
                        },
                    ),
                },
            ),
            EventKind::Close => Ok(
                ScanState {
                    blocks: state.blocks.push(
                        BlockModel { tag: open.tag, body: open.body, offset: open.lo },
                    ),
                    open: None,
                },
            ),
            EventKind::Other => Ok(state),
        },
        None => match event.kind {
            EventKind::Open => Ok(
                ScanState {
                    blocks: state.blocks,
                    open: Some(
                        OpenBlock {
                            tag: event.text,
                            body: Seq::empty(),
                            lo: event.lo,
                            hi: event.hi,
                        },
                    ),
                },
            ),
            _ => Ok(state),
        },
    }
}

/// The scanner's state after all of `events`.
pub open spec fn scan_state(events: Seq<EventModel>) -> Result<ScanState, (usize, usize)>
    decreases events.len(),
{
    if events.len() == 0 {
        Ok(ScanState { blocks: Seq::empty(), open: None })
    } else {
        match scan_state(events.drop_last()) {
            Ok(state) => scan_step(state, events.last()),
            Err(range) => Err(range),
        }
    }
}

/// The code blocks that `events` report, in order: for each, the tag that
/// opened it, the text reported while it was open, and where it starts. A
/// block that is still open when another opens, or when the events end,
/// makes the whole document fail, with the range of that block.
pub open spec fn blocks_of(events: Seq<EventModel>) -> Result<Seq<BlockModel>, (usize, usize)> {
    match scan_state(events) {
        Ok(state) => match state.open {
            Some(open) => Err((open.lo, open.hi)),
            None => Ok(state.blocks),
        },
        Err(range) => Err(range),
    }
}

/// Whether `span` reports a code block at `range` that was never closed.
pub open spec fn is_unterminated(span: Span, range: (usize, usize)) -> bool {
    &&& span.lo == range.0
    &&& span.hi == range.1
    &&& match span.ilk {
        Ilk::Unterminated(what) => what@ == "code block"@,
        _ => false,
    }
}

/// Once the scanner has failed, more events change nothing.
pub proof fn lemma_scan_state_fails(events: Seq<EventModel>, upto: int)
    requires
        0 <= upto <= events.len(),
        scan_state(events.take(upto)) is Err,
    ensures
        scan_state(events) == scan_state(events.take(upto)),
    decreases events.len() - upto,
{
    if upto == events.len() {
        assert(events.take(upto) =~= events);
    } else {
        assert(events.take(upto + 1).drop_last() =~= events.take(upto));
        lemma_scan_state_fails(events, upto + 1);
    }
}

fn unterminated(lo: usize, hi: usize) -> (span: Span)
    ensures
        is_unterminated(span, (lo, hi)),
{
    Span { lo, hi, ilk: Ilk::Unterminated("code block") }
}

/// Reads the code blocks off the events of a document.
pub fn collect_blocks(events: &[ScanEvent]) -> (result: Result<Vec<CodeBlock>, Span>)
    ensures
        match result {
            Ok(blocks) => blocks_of(event_models(events@)) == Ok::<Seq<BlockModel>, (usize, usize)>(
                block_models(blocks@),
            ),
            Err(span) => match blocks_of(event_models(events@)) {
                Ok(_) => false,
                Err(range) => is_unterminated(span, range),
            },
        },
{
    let ghost all = event_models(events@);
    let mut blocks: Vec<CodeBlock> = Vec::new();
    let mut inside = false;
    let mut tag: Vec<char> = Vec::new();
    let mut body: Vec<char> = Vec::new();
    let mut lo: usize = 0;
    let mut hi: usize = 0;
    let mut i: usize = 0;
    proof {
        assert(all.take(0).len() == 0);
        assert(block_models(blocks@) =~= Seq::<BlockModel>::empty());
    }
    while i < events.len()
        invariant
            i <= events.len(),
            all == event_models(events@),
            scan_state(all.take(i as int)) == Ok::<ScanState, (usize, usize)>(
                ScanState {
                    blocks: block_models(blocks@),
                    open: if inside {
                        Some(OpenBlock { tag: tag@, body: body@, lo, hi })
                    } else {
                        None
                    },
                },
            ),
        decreases events.len() - i,
    {
        let event = &events[i];
        proof {
            assert(all.take(i + 1).drop_last() =~= all.take(i as int));
            assert(all.take(i + 1).last() == event@);
        }
        match event.kind {
            EventKind::Open => {
                if inside {
                    proof {
                        lemma_scan_state_fails(all, i + 1);
                    }
                    return Err(unterminated(lo, hi));
                }
                inside = true;
                tag = chars_of(event.text.as_str());
                body = Vec::new();
                lo = event.lo;
                hi = event.hi;
            },
            EventKind::Text => {
                if inside {
                    let mut more = chars_of(event.text.as_str());
                    body.append(&mut more);
                }
            },
            EventKind::Close => {
                if inside {
                    let ghost before = block_models(blocks@);
                    let block = CodeBlock { tag, body, offset: lo };
                    let ghost closed = block@;
                    blocks.push(block);
                    assert(block_models(blocks@) =~= before.push(closed));
                    inside = false;
                    tag = Vec::new();
                    body = Vec::new();
                }
            },
            EventKind::Other => {},
        }
        i += 1;
    }
    assert(all.take(i as int) =~= all);
    if inside {
        Err(unterminated(lo, hi))
    } else {
        Ok(blocks)
    }
}

/// The code blocks of a Markdown document, in document order.
pub fn scan(doc: &str) -> (result: Result<Vec<CodeBlock>, Span>)
    ensures
        match result {
            Ok(blocks) => blocks_of(markdown_events(doc@)) == Ok::<Seq<BlockModel>, (usize, usize)>(
                block_models(blocks@),
            ),
            Err(span) => match blocks_of(markdown_events(doc@)) {
                Ok(_) => false,
                Err(range) => is_unterminated(span, range),
            },
        },
{
    let events = scan_markdown(doc);
    collect_blocks(events.as_slice())
}

} // verus!
