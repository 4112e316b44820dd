//! References that name no section. Weaving leaves them out without a word;
//! here they are listed, each with the place where it stands.

use crate::normalize::{normalize, normalized};
use crate::tokenizer::Chunklet;
use crate::web::{fragment_fits, position, FragmentModel, SectionModel, Web};
use vstd::prelude::*;
use vstd::slice::slice_subrange;

verus! {

/// A reference to a section that the web does not have.
#[derive(Debug, Clone, PartialEq, Eq)]
pub struct Unresolved {
    /// The canonical name referred to.
    pub name: Vec<char>,
    /// Where in the document the block starts that holds the reference.
    pub offset: usize,
    /// Where in the code of that block the reference starts.
    pub at: usize,
}

/// An unresolved reference as a value.
pub ghost struct UnresolvedModel {
    pub name: Seq<char>,
    pub offset: usize,
    pub at: usize,
}

impl View for Unresolved {
    type V = UnresolvedModel;

    open spec fn view(&self) -> UnresolvedModel {
        UnresolvedModel { name: self.name@, offset: self.offset, at: self.at }
    }
}

/// The references as values.
pub open spec fn unresolved_models(found: Seq<Unresolved>) -> Seq<UnresolvedModel> {
    found.map_values(|u: Unresolved| u@)
}

/// The unresolved references among `chunklets`, which are chunklets of
/// `fragment`, in order.
pub open spec fn unresolved_in(
    web: Seq<SectionModel>,
    fragment: FragmentModel,
    chunklets: Seq<Chunklet>,
) -> Seq<UnresolvedModel>
    decreases chunklets.len(),
{
    if chunklets.len() == 0 {
        Seq::empty()
    } else {
        let head = unresolved_in(web, fragment, chunklets.drop_last());
        let last = chunklets.last();
        let name = normalized(last.raw_name(fragment.code));
        match last {
            Chunklet::SectionReference { lo, .. } => if position(web, name) is None {
                head.push(UnresolvedModel { name, offset: fragment.offset, at: lo })
            } else {
                head
            },
            Chunklet::Text { .. } => head,
        }
    }
}

/// The unresolved references of a run of fragments, in order.
pub open spec fn unresolved_among(web: Seq<SectionModel>, fragments: Seq<FragmentModel>) -> Seq<
    UnresolvedModel,
>
    decreases fragments.len(),
{
    if fragments.len() == 0 {
        Seq::empty()
    } else {
        unresolved_among(web, fragments.drop_last()) + unresolved_in(
            web,
            fragments.last(),
            fragments.last().chunklets,
        )
    }
}

/// The unresolved references of the first `n` sections of the web.
pub open spec fn unresolved_upto(web: Seq<SectionModel>, n: int) -> Seq<UnresolvedModel>
    decreases n,
{
    if n <= 0 || n > web.len() {
        Seq::empty()
    } else {
        unresolved_upto(web, n - 1) + unresolved_among(web, web[n - 1].fragments)
    }
}

/// Every unresolved reference of the web: section by section, fragment by
/// fragment, in the order in which the references stand.
pub open spec fn unresolved(web: Seq<SectionModel>) -> Seq<UnresolvedModel> {
    unresolved_upto(web, web.len() as int)
}

impl Web {
    /// Lists the references that weaving would leave out because the web
    /// has no section of their name.
    pub fn unresolved(&self) -> (found: Vec<Unresolved>)
        requires
            self.wf(),
        ensures
            unresolved_models(found@) == unresolved(self@),
    {
        let mut found: Vec<Unresolved> = Vec::new();
        let mut s: usize = 0;
        proof {
            assert(unresolved_models(found@) =~= Seq::<UnresolvedModel>::empty());
        }
        while s < self.sections.len()
            invariant
                self.wf(),
                s <= self.sections.len(),
                unresolved_models(found@) == unresolved_upto(self@, s as int),
            decreases self.sections.len() - s,
        {
            let section = &self.sections[s];
            let ghost fragments = self@[s as int].fragments;
            let ghost before = unresolved_upto(self@, s as int);
            let mut f: usize = 0;
            proof {
                assert(fragments.take(0).len() == 0);
                assert(before + unresolved_among(self@, fragments.take(0)) =~= before);
            }
            while f < section.fragments.len()
                invariant
                    self.wf(),
                    s < self.sections.len(),
                    section == &self.sections[s as int],
                    fragments == self@[s as int].fragments,
                    before == unresolved_upto(self@, s as int),
                    f <= section.fragments.len(),
                    unresolved_models(found@) == before + unresolved_among(
                        self@,
                        fragments.take(f as int),
                    ),
                decreases section.fragments.len() - f,
            {
                let fragment = &section.fragments[f];
                let code = fragment.code.as_slice();
                let ghost earlier = before + unresolved_among(self@, fragments.take(f as int));
                let ghost chunklets = fragment.chunklets@;
                proof {
                    assert(fragments[f as int] == fragment@);
                    assert(fragment_fits(self@[s as int].fragments[f as int]));
                    assert(chunklets.take(0).len() == 0);
                    assert(earlier + unresolved_in(self@, fragment@, chunklets.take(0))
                        =~= earlier);
                }
                let mut c: usize = 0;
                while c < fragment.chunklets.len()
                    invariant
                        self.wf(),
                        fragment_fits(fragment@),
                        code@ == fragment.code@,
                        chunklets == fragment.chunklets@,
                        c <= fragment.chunklets.len(),
                        unresolved_models(found@) == earlier + unresolved_in(
                            self@,
                            fragment@,
                            chunklets.take(c as int),
                        ),
                    decreases fragment.chunklets.len() - c,
                {
                    let chunklet = fragment.chunklets[c];
                    let ghost seen = unresolved_in(self@, fragment@, chunklets.take(c as int));
                    let ghost listed = unresolved_models(found@);
                    proof {
                        assert(fragment@.chunklets[c as int] == chunklet);
                        assert(chunklet.fits(code@));
                        assert(chunklets.take(c + 1).drop_last() =~= chunklets.take(c as int));
                        assert(chunklets.take(c + 1).last() == chunklet);
                    }
                    match chunklet {
                        Chunklet::SectionReference { lo, hi } => {
                            let name = normalize(slice_subrange(code, lo + 1, hi - 1));
                            if self.position(name.as_slice()).is_none() {
                                let entry = Unresolved { name, offset: fragment.offset, at: lo };
                                let ghost added = entry@;
                                found.push(entry);
                                assert(unresolved_models(found@) =~= listed.push(added));
                                assert(earlier + seen.push(added) =~= (earlier + seen).push(
                                    added,
                                ));
                            }
                        },
                        Chunklet::Text { .. } => {},
                    }
                    c += 1;
                }
                proof {
                    assert(chunklets.take(c as int) =~= chunklets);
                    assert(fragments.take(f + 1).drop_last() =~= fragments.take(f as int));
                    assert(fragments.take(f + 1).last() == fragments[f as int]);
                    let sofar = unresolved_among(self@, fragments.take(f as int));
                    let here = unresolved_in(self@, fragment@, chunklets);
                    assert(before + (sofar + here) =~= (before + sofar) + here);
                }
                f += 1;
            }
            proof {
                assert(fragments.take(f as int) =~= fragments);
            }
            s += 1;
        }
        found
    }
}

} // verus!
