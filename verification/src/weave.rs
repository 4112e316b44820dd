//! Weaving: a section becomes flat text. Its fragments are read in document
//! order; text is copied, and a reference gives way to a marker line that
//! names the section referred to and to that section's own woven text. A
//! reference to a section that the web does not have leaves nothing.

use crate::header::{CLOSE, OPEN};
use crate::normalize::{normalize, normalized};
use crate::tokenizer::Chunklet;
use crate::web::{
    fragment_fits, position, position_from, well_formed, FragmentModel, SectionModel, Web,
};
use vstd::prelude::*;
use vstd::slice::slice_subrange;

verus! {

/// What a chunklet asks of the weaver.
pub ghost enum Piece {
    /// Copy this text.
    Literal(Seq<char>),
    /// Weave the section at this place of the web.
    Include(int),
}

/// A section as the weaver reads it: its name and its pieces.
pub ghost struct Plan {
    pub name: Seq<char>,
    pub pieces: Seq<Piece>,
}

/// Why a section could not be woven.
#[derive(Debug, Clone, Copy, PartialEq, Eq, Structural)]
pub enum WeaveError {
    /// The web has no section of the name asked for.
    NotFound,
    /// The section at this place of the web was referred to from inside its
    /// own expansion.
    Cycle { section: usize },
}

/// The pieces of a run of chunklets of `code`: a text chunklet gives its
/// text, a reference gives the section that its canonical name finds in the
/// web, and a reference that finds none gives nothing.
pub open spec fn pieces_of(web: Seq<SectionModel>, code: Seq<char>, chunklets: Seq<Chunklet>) -> Seq<
    Piece,
>
    decreases chunklets.len(),
{
    if chunklets.len() == 0 {
        Seq::empty()
    } else {
        let head = pieces_of(web, code, chunklets.drop_last());
        let last = chunklets.last();
        match last {
            Chunklet::Text { .. } => head.push(Piece::Literal(last.raw(code))),
            Chunklet::SectionReference { .. } => match position(
                web,
                normalized(last.raw_name(code)),
            ) {
                Some(at) => head.push(Piece::Include(at)),
                None => head,
            },
        }
    }
}

/// The pieces of a section: those of its fragments, in the order of the
/// fragments.
pub open spec fn section_pieces(web: Seq<SectionModel>, fragments: Seq<FragmentModel>) -> Seq<
    Piece,
>
    decreases fragments.len(),
{
    if fragments.len() == 0 {
        Seq::empty()
    } else {
        section_pieces(web, fragments.drop_last()) + pieces_of(
            web,
            fragments.last().code,
            fragments.last().chunklets,
        )
    }
}

/// The web as the weaver reads it.
pub open spec fn plan_of(web: Seq<SectionModel>) -> Seq<Plan> {
    Seq::new(
        web.len(),
        |i: int| Plan { name: web[i].name, pieces: section_pieces(web, web[i].fragments) },
    )
}

/// The line that stands before the woven text of a section referred to: a
/// comment that holds the section's name between the delimiters.
pub open spec fn marker(name: Seq<char>) -> Seq<char> {
    seq!['/', '/', ' ', OPEN] + name + seq![CLOSE, '\n']
}

/// How many sections are not being woven.
pub open spec fn free_count(on_path: Seq<bool>) -> nat
    decreases on_path.len(),
{
    if on_path.len() == 0 {
        0
    } else {
        free_count(on_path.drop_last()) + if on_path.last() {
            0nat
        } else {
            1nat
        }
    }
}

/// Taking a free section onto the path leaves one free section fewer.
pub proof fn lemma_free_count_update(on_path: Seq<bool>, at: int)
    requires
        0 <= at < on_path.len(),
        !on_path[at],
    ensures
        free_count(on_path.update(at, true)) + 1 == free_count(on_path),
    decreases on_path.len(),
{
    let next = on_path.update(at, true);
    if at == on_path.len() - 1 {
        assert(next.drop_last() =~= on_path.drop_last());
    } else {
        lemma_free_count_update(on_path.drop_last(), at);
        assert(next.drop_last() =~= on_path.drop_last().update(at, true));
    }
}

/// The text of a run of pieces, while the sections marked in `on_path` are
/// being woven. A reference to one of those cannot be woven: the result is
/// then the place of the first section so referred to.
pub open spec fn expand_pieces(plan: Seq<Plan>, pieces: Seq<Piece>, on_path: Seq<bool>) -> Result<
    Seq<char>,
    int,
>
    decreases free_count(on_path), 1int, pieces.len(),
{
    if pieces.len() == 0 {
        Ok(Seq::empty())
    } else {
        match expand_pieces(plan, pieces.drop_last(), on_path) {
            Err(at) => Err(at),
            Ok(head) => match pieces.last() {
                Piece::Literal(text) => Ok(head + text),
                Piece::Include(at) => match expand_section(plan, at, on_path) {
                    Ok(body) => Ok(head + marker(plan[at].name) + body),
                    Err(e) => Err(e),
                },
            },
        }
    }
}

/// The text of the section at `at`, while the sections marked in `on_path`
/// are being woven.
pub open spec fn expand_section(plan: Seq<Plan>, at: int, on_path: Seq<bool>) -> Result<
    Seq<char>,
    int,
>
    decreases free_count(on_path), 0int, 0nat,
{
    if 0 <= at < plan.len() && on_path.len() == plan.len() && !on_path[at] {
        proof {
            lemma_free_count_update(on_path, at);
        }
        expand_pieces(plan, plan[at].pieces, on_path.update(at, true))
    } else {
        Err(at)
    }
}

/// No section of `n` is being woven.
pub open spec fn all_free(n: nat) -> Seq<bool> {
    Seq::new(n, |i: int| false)
}

/// The woven text of the section named `key`: nothing where the web has no
/// such section, and the place of a section that refers back to itself where
/// the expansion meets one.
pub open spec fn woven(web: Seq<SectionModel>, key: Seq<char>) -> Option<Result<Seq<char>, int>> {
    match position(web, key) {
        Some(at) => Some(expand_section(plan_of(web), at, all_free(web.len()))),
        None => None,
    }
}

/// The pieces of two runs of chunklets are those of the first and then those
/// of the second.
pub proof fn lemma_pieces_concat(
    web: Seq<SectionModel>,
    code: Seq<char>,
    a: Seq<Chunklet>,
    b: Seq<Chunklet>,
)
    ensures
        pieces_of(web, code, a + b) == pieces_of(web, code, a) + pieces_of(web, code, b),
    decreases b.len(),
{
    if b.len() == 0 {
        assert(a + b =~= a);
        assert(pieces_of(web, code, a) + pieces_of(web, code, b) =~= pieces_of(web, code, a));
    } else {
        lemma_pieces_concat(web, code, a, b.drop_last());
        assert((a + b).drop_last() =~= a + b.drop_last());
        assert((a + b).last() == b.last());
        assert(pieces_of(web, code, a + b) =~= pieces_of(web, code, a) + pieces_of(web, code, b));
    }
}

/// The pieces of two runs of fragments are those of the first and then those
/// of the second.
pub proof fn lemma_section_pieces_concat(
    web: Seq<SectionModel>,
    a: Seq<FragmentModel>,
    b: Seq<FragmentModel>,
)
    ensures
        section_pieces(web, a + b) == section_pieces(web, a) + section_pieces(web, b),
    decreases b.len(),
{
    if b.len() == 0 {
        assert(a + b =~= a);
        assert(section_pieces(web, a) + section_pieces(web, b) =~= section_pieces(web, a));
    } else {
        lemma_section_pieces_concat(web, a, b.drop_last());
        assert((a + b).drop_last() =~= a + b.drop_last());
        assert((a + b).last() == b.last());
        assert(section_pieces(web, a + b) =~= section_pieces(web, a) + section_pieces(web, b));
    }
}

/// The text of two runs of pieces is that of the first and then that of the
/// second; the first reference that cannot be woven decides the result.
pub proof fn lemma_expand_concat(plan: Seq<Plan>, a: Seq<Piece>, b: Seq<Piece>, on_path: Seq<bool>)
    ensures
        expand_pieces(plan, a + b, on_path) == match expand_pieces(plan, a, on_path) {
            Err(at) => Err(at),
            Ok(head) => match expand_pieces(plan, b, on_path) {
                Ok(tail) => Ok(head + tail),
                Err(at) => Err(at),
            },
        },
    decreases b.len(),
{
    if b.len() == 0 {
        assert(a + b =~= a);
        match expand_pieces(plan, a, on_path) {
            Ok(head) => {
                assert(head + Seq::<char>::empty() =~= head);
            },
            Err(_) => {},
        }
    } else {
        lemma_expand_concat(plan, a, b.drop_last(), on_path);
        assert((a + b).drop_last() =~= a + b.drop_last());
        assert((a + b).last() == b.last());
        match (expand_pieces(plan, a, on_path), expand_pieces(plan, b.drop_last(), on_path)) {
            (Ok(head), Ok(mid)) => {
                match b.last() {
                    Piece::Literal(text) => {
                        assert((head + mid) + text =~= head + (mid + text));
                    },
                    Piece::Include(at) => {
                        match expand_section(plan, at, on_path) {
                            Ok(body) => {
                                assert((head + mid) + marker(plan[at].name) + body =~= head + (mid
                                    + marker(plan[at].name) + body));
                            },
                            Err(_) => {},
                        }
                    },
                }
            },
            _ => {},
        }
    }
}

/// The pieces of a section, cut where the weaver stands: the fragments
/// before `f`, the chunklets of fragment `f` before `c`, and all that follows.
pub proof fn lemma_section_pieces_split(
    web: Seq<SectionModel>,
    fragments: Seq<FragmentModel>,
    f: int,
    c: int,
)
    requires
        0 <= f < fragments.len(),
        0 <= c <= fragments[f].chunklets.len(),
    ensures
        section_pieces(web, fragments) == section_pieces(web, fragments.take(f)) + pieces_of(
            web,
            fragments[f].code,
            fragments[f].chunklets.take(c),
        ) + (pieces_of(web, fragments[f].code, fragments[f].chunklets.skip(c)) + section_pieces(
            web,
            fragments.skip(f + 1),
        )),
{
    let upto = fragments.take(f + 1);
    let chunklets = fragments[f].chunklets;
    assert(fragments =~= upto + fragments.skip(f + 1));
    lemma_section_pieces_concat(web, upto, fragments.skip(f + 1));
    assert(upto.drop_last() =~= fragments.take(f));
    assert(upto.last() == fragments[f]);
    assert(chunklets =~= chunklets.take(c) + chunklets.skip(c));
    lemma_pieces_concat(web, fragments[f].code, chunklets.take(c), chunklets.skip(c));
    let before = section_pieces(web, fragments.take(f));
    let here = pieces_of(web, fragments[f].code, chunklets.take(c));
    let there = pieces_of(web, fragments[f].code, chunklets.skip(c));
    let after = section_pieces(web, fragments.skip(f + 1));
    assert((before + (here + there)) + after =~= (before + here) + (there + after));
}

/// Copies the characters of `code` from `lo` up to `hi` to the end of `out`.
fn push_range(out: &mut Vec<char>, code: &[char], lo: usize, hi: usize)
    requires
        lo <= hi <= code.len(),
    ensures
        final(out)@ == old(out)@ + code@.subrange(lo as int, hi as int),
{
    let mut i: usize = lo;
    while i < hi
        invariant
            lo <= i <= hi <= code.len(),
            out@ == old(out)@ + code@.subrange(lo as int, i as int),
        decreases hi - i,
    {
        out.push(code[i]);
        i += 1;
        assert(out@ =~= old(out)@ + code@.subrange(lo as int, i as int));
    }
    assert(out@ =~= old(out)@ + code@.subrange(lo as int, hi as int));
}

/// Writes the marker line of the section named `name` to the end of `out`.
fn push_marker(out: &mut Vec<char>, name: &[char])
    ensures
        final(out)@ == old(out)@ + marker(name@),
{
    out.push('/');
    out.push('/');
    out.push(' ');
    out.push(OPEN);
    push_range(out, name, 0, name.len());
    out.push(CLOSE);
    out.push('\n');
    assert(name@.subrange(0, name@.len() as int) =~= name@);
    assert(out@ =~= old(out)@ + marker(name@));
}

impl Web {
    /// Writes the woven text of the section at `at` to the end of `out`,
    /// while the sections marked in `on_path` are being woven.
    fn expand(&self, at: usize, on_path: &mut Vec<bool>, out: &mut Vec<char>) -> (done: Result<
        (),
        usize,
    >)
        requires
            self.wf(),
            at < self.sections.len(),
            old(on_path)@.len() == self.sections.len(),
            !old(on_path)@[at as int],
        ensures
            final(on_path)@ == old(on_path)@,
            match expand_section(plan_of(self@), at as int, old(on_path)@) {
                Ok(text) => done is Ok && final(out)@ == old(out)@ + text,
                Err(e) => 0 <= e < self@.len() && done == Err::<(), usize>(e as usize),
            },
        decreases free_count(old(on_path)@),
    {
        let ghost plan = plan_of(self@);
        let ghost free = on_path@;
        let ghost start = out@;
        let ghost fragments = self@[at as int].fragments;
        let ghost total = section_pieces(self@, fragments);
        on_path[at] = true;
        let ghost path = on_path@;
        let ghost mut text: Seq<char> = Seq::empty();
        proof {
            lemma_free_count_update(free, at as int);
            assert(path =~= free.update(at as int, true));
            assert(path.update(at as int, false) =~= free);
            assert(plan[at as int].pieces == total);
            assert(start + text =~= start);
        }
        let section = &self.sections[at];
        let mut f: usize = 0;
        while f < section.fragments.len()
            invariant
                self.wf(),
                at < self.sections.len(),
                section == &self.sections[at as int],
                fragments == self@[at as int].fragments,
                plan == plan_of(self@),
                total == section_pieces(self@, fragments),
                path == free.update(at as int, true),
                path.update(at as int, false) == free,
                path.len() == self.sections.len(),
                free_count(path) < free_count(free),
                on_path@ == path,
                free == old(on_path)@,
                start == old(out)@,
                f <= section.fragments.len(),
                out@ == start + text,
                expand_pieces(plan, section_pieces(self@, fragments.take(f as int)), path) == Ok::<
                    Seq<char>,
                    int,
                >(text),
            decreases section.fragments.len() - f,
        {
            let fragment = &section.fragments[f];
            let code = fragment.code.as_slice();
            let ghost before = section_pieces(self@, fragments.take(f as int));
            let ghost chunklets = fragments[f as int].chunklets;
            proof {
                assert(fragments[f as int] == fragment@);
                assert(fragment_fits(self@[at as int].fragments[f as int]));
                assert(chunklets.take(0) =~= Seq::<Chunklet>::empty());
                assert(before + pieces_of(self@, code@, chunklets.take(0)) =~= before);
            }
            let mut c: usize = 0;
            while c < fragment.chunklets.len()
                invariant
                    self.wf(),
                    at < self.sections.len(),
                    f < section.fragments.len(),
                    section == &self.sections[at as int],
                    fragment == &section.fragments[f as int],
                    code@ == fragment.code@,
                    fragments == self@[at as int].fragments,
                    fragments[f as int] == fragment@,
                    chunklets == fragment.chunklets@,
                    fragment_fits(fragment@),
                    plan == plan_of(self@),
                    total == section_pieces(self@, fragments),
                    before == section_pieces(self@, fragments.take(f as int)),
                    path == free.update(at as int, true),
                    path.update(at as int, false) == free,
                    path.len() == self.sections.len(),
                    free_count(path) < free_count(free),
                    on_path@ == path,
                    free == old(on_path)@,
                    start == old(out)@,
                    c <= fragment.chunklets.len(),
                    out@ == start + text,
                    expand_pieces(
                        plan,
                        before + pieces_of(self@, code@, chunklets.take(c as int)),
                        path,
                    ) == Ok::<Seq<char>, int>(text),
                decreases fragment.chunklets.len() - c,
            {
                let chunklet = fragment.chunklets[c];
                let ghost seen = pieces_of(self@, code@, chunklets.take(c as int));
                let ghost next = pieces_of(self@, code@, chunklets.take(c + 1));
                proof {
                    assert(fragment@.chunklets[c as int] == chunklet);
                    assert(chunklet.fits(code@));
                    assert(chunklets.take(c + 1).drop_last() =~= chunklets.take(c as int));
                    assert(chunklets.take(c + 1).last() == chunklet);
                }
                match chunklet {
                    Chunklet::Text { lo, hi } => {
                        push_range(out, code, lo, hi);
                        proof {
                            let piece = Piece::Literal(chunklet.raw(code@));
                            assert(next == seen.push(piece));
                            assert((before + next).drop_last() =~= before + seen);
                            assert((before + next).last() == piece);
                            text = text + chunklet.raw(code@);
                            assert(out@ =~= start + text);
                        }
                    },
                    Chunklet::SectionReference { lo, hi } => {
                        let key = normalize(slice_subrange(code, lo + 1, hi - 1));
                        match self.position(key.as_slice()) {
                            None => {
                                assert(next == seen);
                            },
                            Some(to) => {
                                proof {
                                    crate::web::lemma_position_from(self@, key@, 0);
                                    let piece = Piece::Include(to as int);
                                    assert(next == seen.push(piece));
                                    assert((before + next).drop_last() =~= before + seen);
                                    assert((before + next).last() == piece);
                                    lemma_section_pieces_split(self@, fragments, f as int, c + 1);
                                    lemma_expand_concat(
                                        plan,
                                        before + next,
                                        pieces_of(self@, code@, chunklets.skip(c + 1))
                                            + section_pieces(self@, fragments.skip(f + 1)),
                                        path,
                                    );
                                }
                                if on_path[to] {
                                    on_path[at] = false;
                                    assert(on_path@ =~= free);
                                    return Err(to);
                                }
                                push_marker(out, self.sections[to].name.as_slice());
                                match self.expand(to, on_path, out) {
                                    Ok(()) => {
                                        proof {
                                            let body = expand_section(plan, to as int, path)->Ok_0;
                                            text = text + marker(plan[to as int].name) + body;
                                            assert(out@ =~= start + text);
                                        }
                                    },
                                    Err(e) => {
                                        on_path[at] = false;
                                        assert(on_path@ =~= free);
                                        return Err(e);
                                    },
                                }
                            },
                        }
                    },
                }
                c += 1;
            }
            proof {
                assert(chunklets.take(c as int) =~= chunklets);
                assert(fragments.take(f + 1).drop_last() =~= fragments.take(f as int));
                assert(fragments.take(f + 1).last() == fragments[f as int]);
            }
            f += 1;
        }
        proof {
            assert(fragments.take(f as int) =~= fragments);
        }
        on_path[at] = false;
        assert(on_path@ =~= free);
        Ok(())
    }

    /// Weaves the section named `key`: the text of its fragments in document
    /// order, each reference replaced by a marker line and the woven text of
    /// the section that it names, or by nothing where the web has no such
    /// section. A section that is referred to from inside its own expansion
    /// cannot be woven; the error gives its place in the web.
    pub fn weave(&self, key: &[char]) -> (result: Result<Vec<char>, WeaveError>)
        requires
            self.wf(),
        ensures
            match result {
                Ok(text) => woven(self@, key@) == Some(Ok::<Seq<char>, int>(text@)),
                Err(WeaveError::NotFound) => woven(self@, key@) is None,
                Err(WeaveError::Cycle { section }) => woven(self@, key@) == Some(
                    Err::<Seq<char>, int>(section as int),
                ) && section < self.sections.len(),
            },
    {
        match self.position(key) {
            None => Err(WeaveError::NotFound),
            Some(at) => {
                proof {
                    crate::web::lemma_position_from(self@, key@, 0);
                }
                let mut on_path: Vec<bool> = Vec::new();
                let mut i: usize = 0;
                while i < self.sections.len()
                    invariant
                        i <= self.sections.len(),
                        on_path@ == all_free(i as nat),
                    decreases self.sections.len() - i,
                {
                    on_path.push(false);
                    i += 1;
                    assert(on_path@ =~= all_free(i as nat));
                }
                let mut out: Vec<char> = Vec::new();
                match self.expand(at, &mut on_path, &mut out) {
                    Ok(()) => {
                        proof {
                            let text = expand_section(
                                plan_of(self@),
                                at as int,
                                all_free(self@.len()),
                            )->Ok_0;
                            assert(Seq::<char>::empty() + text =~= text);
                        }
                        Ok(out)
                    },
                    Err(section) => Err(WeaveError::Cycle { section }),
                }
            },
        }
    }
}

/// Two webs with the same names in the same places find the same section
/// under every key.
pub proof fn lemma_position_same_names(
    a: Seq<SectionModel>,
    b: Seq<SectionModel>,
    key: Seq<char>,
    from: int,
)
    requires
        a.len() == b.len(),
        forall|i: int| 0 <= i < a.len() ==> (#[trigger] a[i]).name == b[i].name,
    ensures
        position_from(a, key, from) == position_from(b, key, from),
    decreases a.len() - from,
{
    if from < a.len() {
        lemma_position_same_names(a, b, key, from + 1);
    }
}

/// Two webs with the same names in the same places read the same pieces
/// from a run of chunklets.
pub proof fn lemma_pieces_same_names(
    a: Seq<SectionModel>,
    b: Seq<SectionModel>,
    code: Seq<char>,
    chunklets: Seq<Chunklet>,
)
    requires
        a.len() == b.len(),
        forall|i: int| 0 <= i < a.len() ==> (#[trigger] a[i]).name == b[i].name,
    ensures
        pieces_of(a, code, chunklets) == pieces_of(b, code, chunklets),
    decreases chunklets.len(),
{
    if chunklets.len() > 0 {
        lemma_pieces_same_names(a, b, code, chunklets.drop_last());
        lemma_position_same_names(a, b, normalized(chunklets.last().raw_name(code)), 0);
    }
}

/// The pieces of a run of fragments depend on the code and the chunklets of
/// each fragment and on the names in the web, and on nothing else: not on
/// whether a fragment starts or continues its section.
pub proof fn lemma_section_pieces_same_text(
    a: Seq<SectionModel>,
    b: Seq<SectionModel>,
    x: Seq<FragmentModel>,
    y: Seq<FragmentModel>,
)
    requires
        a.len() == b.len(),
        forall|i: int| 0 <= i < a.len() ==> (#[trigger] a[i]).name == b[i].name,
        x.len() == y.len(),
        forall|i: int|
            0 <= i < x.len() ==> (#[trigger] x[i]).code == y[i].code && x[i].chunklets
                == y[i].chunklets,
    ensures
        section_pieces(a, x) == section_pieces(b, y),
    decreases x.len(),
{
    if x.len() > 0 {
        lemma_section_pieces_same_text(a, b, x.drop_last(), y.drop_last());
        lemma_pieces_same_names(a, b, x.last().code, x.last().chunklets);
    }
}

/// Two webs whose sections have the same names and read the same pieces
/// weave the same text under every key.
pub proof fn lemma_woven_same_pieces(a: Seq<SectionModel>, b: Seq<SectionModel>, key: Seq<char>)
    requires
        a.len() == b.len(),
        forall|i: int| 0 <= i < a.len() ==> (#[trigger] a[i]).name == b[i].name,
        forall|i: int|
            0 <= i < a.len() ==> section_pieces(a, (#[trigger] a[i]).fragments) == section_pieces(
                b,
                b[i].fragments,
            ),
    ensures
        woven(a, key) == woven(b, key),
{
    lemma_position_same_names(a, b, key, 0);
    assert(plan_of(a) =~= plan_of(b));
}

/// Whether two webs hold the same sections with the same code, fragment by
/// fragment, and differ at most in what the fragments say of starting or
/// continuing their section, of their tag and of their place in the document.
pub open spec fn same_text(a: Seq<SectionModel>, b: Seq<SectionModel>) -> bool {
    &&& a.len() == b.len()
    &&& forall|i: int|
        0 <= i < a.len() ==> {
            &&& (#[trigger] a[i]).name == b[i].name
            &&& a[i].fragments.len() == b[i].fragments.len()
        }
    &&& forall|i: int, f: int|
        0 <= i < a.len() && 0 <= f < a[i].fragments.len() ==> {
            &&& (#[trigger] a[i].fragments[f]).code == b[i].fragments[f].code
            &&& a[i].fragments[f].chunklets == b[i].fragments[f].chunklets
        }
}

/// The fragments of a section are woven in the order in which the web holds
/// them, whatever each says of starting or continuing the section: two webs
/// that differ only in that weave the same text.
pub proof fn lemma_order_ignores_flags(a: Seq<SectionModel>, b: Seq<SectionModel>, key: Seq<char>)
    requires
        same_text(a, b),
    ensures
        woven(a, key) == woven(b, key),
{
    assert forall|i: int| 0 <= i < a.len() implies section_pieces(a, (#[trigger] a[i]).fragments)
        == section_pieces(b, b[i].fragments) by {
        let x = a[i].fragments;
        let y = b[i].fragments;
        assert forall|f: int| 0 <= f < x.len() implies (#[trigger] x[f]).code == y[f].code
            && x[f].chunklets == y[f].chunklets by {
            assert(a[i].fragments[f].code == b[i].fragments[f].code);
        }
        lemma_section_pieces_same_text(a, b, x, y);
    }
    lemma_woven_same_pieces(a, b, key);
}

/// The web without chunklet `c` of fragment `f` of the section at `at`.
pub open spec fn without_chunklet(web: Seq<SectionModel>, at: int, f: int, c: int) -> Seq<
    SectionModel,
> {
    let section = web[at];
    let fragment = section.fragments[f];
    web.update(
        at,
        SectionModel {
            name: section.name,
            fragments: section.fragments.update(
                f,
                FragmentModel {
                    code: fragment.code,
                    chunklets: fragment.chunklets.remove(c),
                    starts_section: fragment.starts_section,
                    tag: fragment.tag,
                    offset: fragment.offset,
                },
            ),
        },
    )
}

/// A reference to a section that the web does not have leaves nothing:
/// every section is woven as it is without that reference.
pub proof fn lemma_unresolved_reference_omitted(
    web: Seq<SectionModel>,
    at: int,
    f: int,
    c: int,
    key: Seq<char>,
)
    requires
        0 <= at < web.len(),
        0 <= f < web[at].fragments.len(),
        0 <= c < web[at].fragments[f].chunklets.len(),
        web[at].fragments[f].chunklets[c] is SectionReference,
        position(
            web,
            normalized(web[at].fragments[f].chunklets[c].raw_name(web[at].fragments[f].code)),
        ) is None,
    ensures
        woven(without_chunklet(web, at, f, c), key) == woven(web, key),
{
    let less = without_chunklet(web, at, f, c);
    let fragments = web[at].fragments;
    let code = fragments[f].code;
    let chunklets = fragments[f].chunklets;
    assert forall|i: int| 0 <= i < web.len() implies section_pieces(
        less,
        (#[trigger] less[i]).fragments,
    ) == section_pieces(web, web[i].fragments) by {
        if i == at {
            let shorter = less[at].fragments;
            let dead = seq![chunklets[c]];
            assert(dead.last() == chunklets[c]);
            assert(dead.drop_last().len() == 0);
            assert(pieces_of(web, code, dead.drop_last()) =~= Seq::<Piece>::empty());
            assert(pieces_of(web, code, dead) =~= Seq::<Piece>::empty());
            assert(chunklets =~= chunklets.take(c) + dead + chunklets.skip(c + 1));
            assert(chunklets.remove(c) =~= chunklets.take(c) + chunklets.skip(c + 1));
            lemma_pieces_concat(web, code, chunklets.take(c), dead);
            lemma_pieces_concat(web, code, chunklets.take(c) + dead, chunklets.skip(c + 1));
            lemma_pieces_concat(web, code, chunklets.take(c), chunklets.skip(c + 1));
            assert(pieces_of(web, code, chunklets.take(c)) + Seq::<Piece>::empty() =~= pieces_of(
                web,
                code,
                chunklets.take(c),
            ));
            assert(pieces_of(web, code, chunklets.remove(c)) == pieces_of(web, code, chunklets));
            lemma_section_pieces_split(web, fragments, f, 0);
            lemma_section_pieces_split(web, shorter, f, 0);
            assert(shorter.take(f) =~= fragments.take(f));
            assert(shorter.skip(f + 1) =~= fragments.skip(f + 1));
            assert(chunklets.remove(c).skip(0) =~= chunklets.remove(c));
            assert(chunklets.skip(0) =~= chunklets);
            assert(section_pieces(web, shorter) == section_pieces(web, fragments));
            lemma_section_pieces_same_text(less, web, shorter, shorter);
        } else {
            lemma_section_pieces_same_text(less, web, web[i].fragments, web[i].fragments);
        }
    }
    lemma_woven_same_pieces(less, web, key);
}

/// The pieces of the section under `key` in the web of a document are those
/// of its fragments in the order in which the document gives their blocks.
pub proof fn lemma_woven_in_document_order(
    blocks: Seq<crate::web::BlockModel>,
    tag: Seq<char>,
    key: Seq<char>,
)
    ensures
        match position(crate::web::web_of(blocks, tag), key) {
            Some(at) => plan_of(crate::web::web_of(blocks, tag))[at].pieces == section_pieces(
                crate::web::web_of(blocks, tag),
                crate::web::selected(blocks, tag, key),
            ),
            None => crate::web::selected(blocks, tag, key).len() == 0,
        },
{
    crate::web::lemma_fragments_in_document_order(blocks, tag, key);
    crate::web::lemma_position_from(crate::web::web_of(blocks, tag), key, 0);
}

} // verus!
