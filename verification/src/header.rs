//! The header line that may open a code block: the name of the section that
//! the block belongs to, between its delimiters, and the sign that assigns the
//! block's code to it.

use crate::text::{find_char, find_from, skip_blank, skip_blanks, skip_spaces, skip_whitespace};
use crate::{Ilk, Span};
use vstd::prelude::*;

verus! {

/// Opens a section's name.
pub const OPEN: char = '\u{27E8}';

/// Closes a section's name.
pub const CLOSE: char = '\u{27E9}';

/// Assigns the code that follows to the section named before it.
pub const ASSIGN: char = '\u{2261}';

/// Before `ASSIGN`: the code continues a section begun elsewhere.
pub const CONTINUE: char = '+';

/// What the start of a code block says of the block.
#[derive(Debug)]
pub struct Header {
    /// Where the raw name stands in the block; empty where there is no header.
    pub name: Span,
    /// Whether the block begins its section, rather than continuing it.
    pub is_first: bool,
    /// The block's code: what is left of it after the header line.
    pub code: Span,
}

/// The places of a header's parts in the block that it opens.
pub ghost struct HeaderShape {
    pub name_lo: int,
    pub name_hi: int,
    pub is_first: bool,
    pub code_lo: int,
}

/// Where the code starts that follows a header whose last blank ends before
/// `eol`: behind the line end that stands there, be it a line feed or a
/// carriage return with a line feed, and at `eol` itself where none stands
/// there.
pub open spec fn after_line_end(body: Seq<char>, eol: int) -> int {
    if eol < body.len() && body[eol] == '\n' {
        eol + 1
    } else if eol + 1 < body.len() && body[eol] == '\r' && body[eol + 1] == '\n' {
        eol + 2
    } else {
        eol
    }
}

/// The header that `body` opens with, if it opens with one: whitespace, the
/// name between `OPEN` and the first `CLOSE` after it, `CONTINUE` or nothing,
/// `ASSIGN`, spaces and tabs, and a line end if one stands there.
pub open spec fn header_shape(body: Seq<char>) -> Option<HeaderShape> {
    let open = skip_spaces(body, 0);
    let close = find_from(body, CLOSE, open + 1);
    let continues = close + 1 < body.len() && body[close + 1] == CONTINUE;
    let mark = if continues {
        close + 2
    } else {
        close + 1
    };
    let eol = skip_blanks(body, mark + 1);
    if open < body.len() && body[open] == OPEN && close < body.len() && mark < body.len()
        && body[mark] == ASSIGN {
        Some(
            HeaderShape {
                name_lo: open + 1,
                name_hi: close,
                is_first: !continues,
                code_lo: after_line_end(body, eol),
            },
        )
    } else {
        None
    }
}

impl Header {
    /// The header says of `body` what `header_shape` finds in it; where that
    /// finds no header, the name is empty, the block continues its section and
    /// the code is the whole of `body`.
    pub open spec fn describes(&self, body: Seq<char>) -> bool {
        &&& self.name.ilk is SectionName
        &&& self.code.ilk is JustCode
        &&& self.code.hi == body.len()
        &&& match header_shape(body) {
            Some(shape) => {
                &&& self.name.lo == shape.name_lo
                &&& self.name.hi == shape.name_hi
                &&& self.is_first == shape.is_first
                &&& self.code.lo == shape.code_lo
            },
            None => {
                &&& self.name.lo == 0
                &&& self.name.hi == 0
                &&& !self.is_first
                &&& self.code.lo == 0
            },
        }
    }

    /// The raw name, as it stands in `body`.
    pub open spec fn name_in(&self, body: Seq<char>) -> Seq<char> {
        body.subrange(self.name.lo as int, self.name.hi as int)
    }

    /// The code, as it stands in `body`.
    pub open spec fn code_in(&self, body: Seq<char>) -> Seq<char> {
        body.subrange(self.code.lo as int, self.code.hi as int)
    }
}

/// The parts of a header lie in the block, in their order.
pub proof fn lemma_header_shape_bounds(body: Seq<char>)
    ensures
        match header_shape(body) {
            Some(shape) => 0 < shape.name_lo <= shape.name_hi < shape.code_lo <= body.len(),
            None => true,
        },
{
    crate::text::lemma_skip_spaces(body, 0);
    let open = skip_spaces(body, 0);
    if open < body.len() {
        crate::text::lemma_find_from(body, CLOSE, open + 1);
        let close = find_from(body, CLOSE, open + 1);
        if close < body.len() {
            let mark = if close + 1 < body.len() && body[close + 1] == CONTINUE {
                close + 2
            } else {
                close + 1
            };
            if mark < body.len() {
                crate::text::lemma_skip_blanks(body, mark + 1);
            }
        }
    }
}

fn no_header(body: &[char]) -> (header: Header)
    requires
        header_shape(body@) is None,
    ensures
        header.describes(body@),
{
    Header {
        name: Span { lo: 0, hi: 0, ilk: Ilk::SectionName },
        is_first: false,
        code: Span { lo: 0, hi: body.len(), ilk: Ilk::JustCode },
    }
}

/// Reads the header that `body` opens with. A block that opens with none is
/// code from its first character on, and belongs to the section without a name.
pub fn parse_header(body: &[char]) -> (header: Header)
    ensures
        header.describes(body@),
        header.name.lo <= header.name.hi <= header.code.lo <= header.code.hi == body.len(),
{
    proof {
        lemma_header_shape_bounds(body@);
    }
    let n = body.len();
    let open = skip_whitespace(body, 0);
    if open >= n || body[open] != OPEN {
        return no_header(body);
    }
    let close = find_char(body, CLOSE, open + 1);
    if close >= n {
        return no_header(body);
    }
    let continues = close + 1 < n && body[close + 1] == CONTINUE;
    let mark = if continues {
        close + 2
    } else {
        close + 1
    };
    if mark >= n || body[mark] != ASSIGN {
        return no_header(body);
    }
    let eol = skip_blank(body, mark + 1);
    let code_lo = if eol < n && body[eol] == '\n' {
        eol + 1
    } else if eol < n - 1 && body[eol] == '\r' && body[eol + 1] == '\n' {
        eol + 2
    } else {
        eol
    };
    Header {
        name: Span { lo: open + 1, hi: close, ilk: Ilk::SectionName },
        is_first: !continues,
        code: Span { lo: code_lo, hi: n, ilk: Ilk::JustCode },
    }
}

} // verus!
