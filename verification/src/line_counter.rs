//! Lines of a document, counted by its line ends.

use vstd::prelude::*;
use vstd::slice::slice_subrange;
use vstd::string::StringSliceAdditionalSpecFns;

verus! {

/// The byte that ends a line.
pub const NEWLINE: u8 = 10;

/// How many of the first `upto` bytes end a line.
pub open spec fn newlines_before(bytes: Seq<u8>, upto: int) -> nat
    decreases upto,
{
    if upto <= 0 {
        0
    } else {
        newlines_before(bytes, upto - 1) + if upto <= bytes.len() && bytes[upto - 1] == NEWLINE {
            1nat
        } else {
            0nat
        }
    }
}

/// A stretch without a line end adds nothing to the count.
pub proof fn lemma_no_newlines(bytes: Seq<u8>, from: int, to: int)
    requires
        0 <= from <= to <= bytes.len(),
        forall|j: int| from <= j < to ==> bytes[j] != NEWLINE,
    ensures
        newlines_before(bytes, to) == newlines_before(bytes, from),
    decreases to - from,
{
    if from < to {
        lemma_no_newlines(bytes, from, to - 1);
    }
}

/// `memchr::memchr`: the place of the first byte of `haystack` equal to
/// `needle`, and nothing where no byte of it is.
#[verifier::external_body]
fn find_byte(needle: u8, haystack: &[u8]) -> (found: Option<usize>)
    ensures
        match found {
            Some(at) => {
                &&& at < haystack@.len()
                &&& haystack@[at as int] == needle
                &&& forall|j: int| 0 <= j < at ==> haystack@[j] != needle
            },
            None => forall|j: int| 0 <= j < haystack@.len() ==> haystack@[j] != needle,
        },
{
    memchr::memchr(needle, haystack)
}

/// How many lines of `doc` end before the byte at `offset`; an offset past
/// the document's end counts every line end. The byte at `offset` is on the
/// line after those.
pub fn lines_before(doc: &str, offset: usize) -> (lines: usize)
    ensures
        lines == newlines_before(
            doc.spec_bytes(),
            if offset <= doc.spec_bytes().len() {
                offset as int
            } else {
                doc.spec_bytes().len() as int
            },
        ),
{
    let bytes = doc.as_bytes();
    let end = if offset <= bytes.len() {
        offset
    } else {
        bytes.len()
    };
    let mut lines: usize = 0;
    let mut pos: usize = 0;
    while pos < end
        invariant
            bytes@ == doc.spec_bytes(),
            pos <= end <= bytes.len(),
            lines <= pos,
            lines == newlines_before(bytes@, pos as int),
        decreases end - pos,
    {
        let rest = slice_subrange(bytes, pos, end);
        match find_byte(NEWLINE, rest) {
            Some(at) => {
                proof {
                    assert forall|j: int| pos <= j < pos + at implies bytes@[j] != NEWLINE by {
                        assert(rest@[j - pos] == bytes@[j]);
                    }
                    assert(rest@[at as int] == bytes@[pos + at]);
                    lemma_no_newlines(bytes@, pos as int, pos + at);
                }
                lines += 1;
                pos = pos + at + 1;
            },
            None => {
                proof {
                    assert forall|j: int| pos <= j < end implies bytes@[j] != NEWLINE by {
                        assert(rest@[j - pos] == bytes@[j]);
                    }
                    lemma_no_newlines(bytes@, pos as int, end as int);
                }
                pos = end;
            },
        }
    }
    lines
}

} // verus!
