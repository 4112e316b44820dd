//! A block's code is cut into chunklets: literal text, and references to
//! other sections.

use crate::header::{CLOSE, OPEN};
use crate::text::{find_char, find_from, lemma_find_from};
use vstd::prelude::*;

verus! {

/// A piece of a block's code, by its place in the code: `lo` up to but not
/// including `hi`.
#[derive(Debug, Clone, Copy, PartialEq, Eq, Structural)]
pub enum Chunklet {
    /// Text to copy as it stands.
    Text { lo: usize, hi: usize },
    /// The name of another section, with its delimiters around it.
    SectionReference { lo: usize, hi: usize },
}

impl Chunklet {
    /// Where the chunklet starts.
    pub open spec fn lo(&self) -> int {
        match self {
            Chunklet::Text { lo, .. } => *lo as int,
            Chunklet::SectionReference { lo, .. } => *lo as int,
        }
    }

    /// Where the chunklet ends: the place after its last character.
    pub open spec fn hi(&self) -> int {
        match self {
            Chunklet::Text { hi, .. } => *hi as int,
            Chunklet::SectionReference { hi, .. } => *hi as int,
        }
    }

    /// The characters of `code` that the chunklet covers.
    pub open spec fn raw(&self, code: Seq<char>) -> Seq<char> {
        code.subrange(self.lo(), self.hi())
    }

    /// The name that a reference holds between its delimiters.
    pub open spec fn raw_name(&self, code: Seq<char>) -> Seq<char> {
        code.subrange(self.lo() + 1, self.hi() - 1)
    }

    /// The chunklet lies in `code` and is not empty; a reference starts with
    /// `OPEN` and ends with the first `CLOSE` after it.
    pub open spec fn fits(&self, code: Seq<char>) -> bool {
        &&& 0 <= self.lo() < self.hi() <= code.len()
        &&& self is SectionReference ==> {
            &&& self.lo() + 2 <= self.hi()
            &&& code[self.lo()] == OPEN
            &&& code[self.hi() - 1] == CLOSE
            &&& forall|j: int| self.lo() < j < self.hi() - 1 ==> code[j] != CLOSE
        }
    }
}

/// The chunklets of `code` from `from` on. A reference is the first `OPEN`
/// that has a `CLOSE` somewhere after it, up to the first such `CLOSE`; the
/// text before it is one chunklet, and so is the text after the last
/// reference.
pub open spec fn chunklets_from(code: Seq<char>, from: int) -> Seq<Chunklet>
    decreases code.len() - from,
{
    let open = find_from(code, OPEN, from);
    let close = find_from(code, CLOSE, open + 1);
    if from < 0 || from >= code.len() {
        Seq::empty()
    } else if close < code.len() && from <= open < close {
        let reference = Chunklet::SectionReference { lo: open as usize, hi: (close + 1) as usize };
        let rest = chunklets_from(code, close + 1);
        if from < open {
            seq![Chunklet::Text { lo: from as usize, hi: open as usize }, reference] + rest
        } else {
            seq![reference] + rest
        }
    } else {
        seq![Chunklet::Text { lo: from as usize, hi: code.len() as usize }]
    }
}

/// The chunklets of a block's code.
pub open spec fn chunklets_of(code: Seq<char>) -> Seq<Chunklet> {
    chunklets_from(code, 0)
}

/// The characters that the chunklets cover, one chunklet after the other.
pub open spec fn raw_text(code: Seq<char>, chunklets: Seq<Chunklet>) -> Seq<char>
    decreases chunklets.len(),
{
    if chunklets.len() == 0 {
        Seq::empty()
    } else {
        raw_text(code, chunklets.drop_last()) + chunklets.last().raw(code)
    }
}

/// The text of one chunklet alone is what it covers.
pub proof fn lemma_raw_text_single(code: Seq<char>, chunklet: Chunklet)
    ensures
        raw_text(code, seq![chunklet]) == chunklet.raw(code),
{
    let one = seq![chunklet];
    assert(one.drop_last().len() == 0);
    assert(raw_text(code, one.drop_last()) =~= Seq::<char>::empty());
    assert(raw_text(code, one) =~= chunklet.raw(code));
}

/// The text of two runs of chunklets is the text of the first and then that
/// of the second.
pub proof fn lemma_raw_text_concat(code: Seq<char>, a: Seq<Chunklet>, b: Seq<Chunklet>)
    ensures
        raw_text(code, a + b) == raw_text(code, a) + raw_text(code, b),
    decreases b.len(),
{
    if b.len() == 0 {
        assert(a + b =~= a);
        assert(raw_text(code, a) + raw_text(code, b) =~= raw_text(code, a));
    } else {
        lemma_raw_text_concat(code, a, b.drop_last());
        assert((a + b).drop_last() =~= a + b.drop_last());
        assert((a + b).last() == b.last());
        assert(raw_text(code, a + b) =~= raw_text(code, a) + raw_text(code, b));
    }
}

/// Every chunklet of the code from `from` on fits the code, and together they
/// cover that code exactly, in order.
pub proof fn lemma_chunklets_from(code: Seq<char>, from: int)
    requires
        0 <= from <= code.len(),
        code.len() <= usize::MAX,
    ensures
        raw_text(code, chunklets_from(code, from)) == code.skip(from),
        forall|i: int|
            0 <= i < chunklets_from(code, from).len() ==> (#[trigger] chunklets_from(
                code,
                from,
            )[i]).fits(code),
    decreases code.len() - from,
{
    let all = chunklets_from(code, from);
    if from >= code.len() {
        assert(code.skip(from) =~= Seq::<char>::empty());
    } else {
        lemma_find_from(code, OPEN, from);
        let open = find_from(code, OPEN, from);
        if open < code.len() {
            lemma_find_from(code, CLOSE, open + 1);
        }
        let close = find_from(code, CLOSE, open + 1);
        if close < code.len() && from <= open < close {
            let reference = Chunklet::SectionReference {
                lo: open as usize,
                hi: (close + 1) as usize,
            };
            let rest = chunklets_from(code, close + 1);
            lemma_chunklets_from(code, close + 1);
            assert(reference.fits(code));
            let first = if from < open {
                seq![Chunklet::Text { lo: from as usize, hi: open as usize }, reference]
            } else {
                seq![reference]
            };
            assert(all == first + rest);
            lemma_raw_text_concat(code, first, rest);
            assert(raw_text(code, first) =~= code.subrange(from, close + 1)) by {
                if from < open {
                    let text = Chunklet::Text { lo: from as usize, hi: open as usize };
                    assert(first.drop_last() =~= seq![text]);
                    lemma_raw_text_single(code, text);
                } else {
                    lemma_raw_text_single(code, reference);
                }
            }
            assert(code.subrange(from, close + 1) + code.skip(close + 1) =~= code.skip(from));
            assert forall|i: int| 0 <= i < all.len() implies (#[trigger] all[i]).fits(code) by {
                if i >= first.len() {
                    assert(all[i] == rest[i - first.len()]);
                }
            }
        } else {
            let text = Chunklet::Text { lo: from as usize, hi: code.len() as usize };
            lemma_raw_text_single(code, text);
            assert(text.raw(code) =~= code.skip(from));
        }
    }
}

/// Tokenizing loses nothing: the chunklets of a code, read one after the
/// other, give the code back.
pub proof fn lemma_tokenize_lossless(code: Seq<char>)
    requires
        code.len() <= usize::MAX,
    ensures
        raw_text(code, chunklets_of(code)) == code,
{
    lemma_chunklets_from(code, 0);
    assert(code.skip(0) =~= code);
}

/// Cuts `code` into its chunklets.
pub fn tokenize(code: &[char]) -> (chunklets: Vec<Chunklet>)
    ensures
        chunklets@ == chunklets_of(code@),
        raw_text(code@, chunklets@) == code@,
        forall|i: int| 0 <= i < chunklets.len() ==> (#[trigger] chunklets[i]).fits(code@),
{
    let n = code.len();
    let mut chunklets: Vec<Chunklet> = Vec::new();
    let mut from: usize = 0;
    while from < n
        invariant
            n == code.len(),
            from <= n,
            chunklets@ + chunklets_from(code@, from as int) == chunklets_of(code@),
        decreases n - from,
    {
        proof {
            lemma_find_from(code@, OPEN, from as int);
        }
        let ghost before = chunklets@;
        let open = find_char(code, OPEN, from);
        if open >= n {
            chunklets.push(Chunklet::Text { lo: from, hi: n });
            proof {
                assert(chunklets@ + chunklets_from(code@, n as int) =~= before + chunklets_from(
                    code@,
                    from as int,
                ));
            }
            from = n;
        } else {
            proof {
                lemma_find_from(code@, CLOSE, open + 1);
            }
            let close = find_char(code, CLOSE, open + 1);
            if close >= n {
                chunklets.push(Chunklet::Text { lo: from, hi: n });
                proof {
                    assert(chunklets@ + chunklets_from(code@, n as int) =~= before
                        + chunklets_from(code@, from as int));
                }
                from = n;
            } else {
                if from < open {
                    chunklets.push(Chunklet::Text { lo: from, hi: open });
                }
                chunklets.push(Chunklet::SectionReference { lo: open, hi: close + 1 });
                proof {
                    assert(chunklets@ + chunklets_from(code@, close + 1) =~= before
                        + chunklets_from(code@, from as int));
                }
                from = close + 1;
            }
        }
    }
    proof {
        assert(chunklets@ + chunklets_from(code@, n as int) =~= chunklets@);
        lemma_chunklets_from(code@, 0);
        assert(code@.skip(0) =~= code@);
    }
    chunklets
}

} // verus!
