//! The web: every section of a document by its canonical name, with the
//! fragments that make it up in the order in which the document gives them.

use crate::header::{header_shape, parse_header};
use crate::normalize::{is_canonical, normalize, normalized};
use crate::text::same_text;
use crate::tokenizer::{chunklets_of, tokenize, Chunklet};
use vstd::prelude::*;
use vstd::slice::{slice_subrange, slice_to_vec};

verus! {

/// A code block of a document: the tag on its fence, what stands between the
/// fences, and where in the document it starts.
#[derive(Debug)]
pub struct CodeBlock {
    pub tag: Vec<char>,
    pub body: Vec<char>,
    pub offset: usize,
}

/// One occurrence of a section's code.
#[derive(Debug)]
pub struct Fragment {
    /// The block's code, without its header line.
    pub code: Vec<char>,
    /// The code cut into text and references.
    pub chunklets: Vec<Chunklet>,
    /// Whether the block begins its section, rather than continuing it.
    pub starts_section: bool,
    /// The tag of the block.
    pub tag: Vec<char>,
    /// Where in the document the block starts.
    pub offset: usize,
}

/// A section: its canonical name and its fragments, in document order.
#[derive(Debug)]
pub struct Section {
    pub name: Vec<char>,
    pub fragments: Vec<Fragment>,
}

/// The sections of a document, each name once, in the order in which the
/// names first appear.
#[derive(Debug)]
pub struct Web {
    pub sections: Vec<Section>,
}

/// A code block as a value.
pub ghost struct BlockModel {
    pub tag: Seq<char>,
    pub body: Seq<char>,
    pub offset: usize,
}

/// A fragment as a value.
pub ghost struct FragmentModel {
    pub code: Seq<char>,
    pub chunklets: Seq<Chunklet>,
    pub starts_section: bool,
    pub tag: Seq<char>,
    pub offset: usize,
}

/// A section as a value.
pub ghost struct SectionModel {
    pub name: Seq<char>,
    pub fragments: Seq<FragmentModel>,
}

impl View for CodeBlock {
    type V = BlockModel;

    open spec fn view(&self) -> BlockModel {
        BlockModel { tag: self.tag@, body: self.body@, offset: self.offset }
    }
}

impl View for Fragment {
    type V = FragmentModel;

    open spec fn view(&self) -> FragmentModel {
        FragmentModel {
            code: self.code@,
            chunklets: self.chunklets@,
            starts_section: self.starts_section,
            tag: self.tag@,
            offset: self.offset,
        }
    }
}

impl View for Section {
    type V = SectionModel;

    open spec fn view(&self) -> SectionModel {
        SectionModel { name: self.name@, fragments: self.fragments@.map_values(|f: Fragment| f@) }
    }
}

impl View for Web {
    type V = Seq<SectionModel>;

    open spec fn view(&self) -> Seq<SectionModel> {
        self.sections@.map_values(|s: Section| s@)
    }
}

/// The blocks as values.
pub open spec fn block_models(blocks: Seq<CodeBlock>) -> Seq<BlockModel> {
    blocks.map_values(|b: CodeBlock| b@)
}

/// The canonical name of the section that a block with this body belongs to:
/// that of its header, and the empty name where it has no header.
pub open spec fn key_of(body: Seq<char>) -> Seq<char> {
    match header_shape(body) {
        Some(shape) => normalized(body.subrange(shape.name_lo, shape.name_hi)),
        None => Seq::empty(),
    }
}

/// The code of a block with this body: what follows its header line.
pub open spec fn code_of(body: Seq<char>) -> Seq<char> {
    match header_shape(body) {
        Some(shape) => body.subrange(shape.code_lo, body.len() as int),
        None => body,
    }
}

/// The fragment that a block gives.
pub open spec fn fragment_of(block: BlockModel) -> FragmentModel {
    FragmentModel {
        code: code_of(block.body),
        chunklets: chunklets_of(code_of(block.body)),
        starts_section: match header_shape(block.body) {
            Some(shape) => shape.is_first,
            None => false,
        },
        tag: block.tag,
        offset: block.offset,
    }
}

/// The place of the first section at or after `from` that is named `key`, or
/// the number of sections where none is.
pub open spec fn position_from(web: Seq<SectionModel>, key: Seq<char>, from: int) -> int
    decreases web.len() - from,
{
    if from >= web.len() {
        web.len() as int
    } else if from >= 0 && web[from].name == key {
        from
    } else {
        position_from(web, key, from + 1)
    }
}

/// The place of the section named `key`.
pub open spec fn position(web: Seq<SectionModel>, key: Seq<char>) -> Option<int> {
    if position_from(web, key, 0) < web.len() {
        Some(position_from(web, key, 0))
    } else {
        None
    }
}

/// The fragments of the section named `key`, in document order.
pub open spec fn fragments_of(web: Seq<SectionModel>, key: Seq<char>) -> Option<
    Seq<FragmentModel>,
> {
    match position(web, key) {
        Some(at) => Some(web[at].fragments),
        None => None,
    }
}

/// The web with one more fragment under `key`: at the end of the section of
/// that name, or as the first of a new section, which comes last.
pub open spec fn with_fragment(
    web: Seq<SectionModel>,
    key: Seq<char>,
    fragment: FragmentModel,
) -> Seq<SectionModel> {
    match position(web, key) {
        Some(at) => web.update(
            at,
            SectionModel { name: key, fragments: web[at].fragments.push(fragment) },
        ),
        None => web.push(SectionModel { name: key, fragments: seq![fragment] }),
    }
}

/// The web of a document: its blocks taken in order, those tagged `tag` each
/// adding its fragment under its key, the others adding nothing.
pub open spec fn web_of(blocks: Seq<BlockModel>, tag: Seq<char>) -> Seq<SectionModel>
    decreases blocks.len(),
{
    if blocks.len() == 0 {
        Seq::empty()
    } else if blocks.last().tag == tag {
        with_fragment(
            web_of(blocks.drop_last(), tag),
            key_of(blocks.last().body),
            fragment_of(blocks.last()),
        )
    } else {
        web_of(blocks.drop_last(), tag)
    }
}

/// The fragments of the blocks tagged `tag` whose key is `key`, in the order
/// of the blocks.
pub open spec fn selected(blocks: Seq<BlockModel>, tag: Seq<char>, key: Seq<char>) -> Seq<
    FragmentModel,
>
    decreases blocks.len(),
{
    if blocks.len() == 0 {
        Seq::empty()
    } else if blocks.last().tag == tag && key_of(blocks.last().body) == key {
        selected(blocks.drop_last(), tag, key).push(fragment_of(blocks.last()))
    } else {
        selected(blocks.drop_last(), tag, key)
    }
}

/// Every chunklet of the fragment lies in the fragment's code.
pub open spec fn fragment_fits(fragment: FragmentModel) -> bool {
    forall|i: int|
        0 <= i < fragment.chunklets.len() ==> (#[trigger] fragment.chunklets[i]).fits(
            fragment.code,
        )
}

/// A web as `web_of` makes it: no name twice, every name canonical, no section
/// without a fragment, every chunklet inside its fragment's code.
pub open spec fn well_formed(web: Seq<SectionModel>) -> bool {
    &&& forall|i: int, j: int|
        0 <= i < j < web.len() ==> (#[trigger] web[i]).name != (#[trigger] web[j]).name
    &&& forall|i: int| 0 <= i < web.len() ==> is_canonical((#[trigger] web[i]).name)
    &&& forall|i: int| 0 <= i < web.len() ==> (#[trigger] web[i]).fragments.len() > 0
    &&& forall|i: int, f: int|
        0 <= i < web.len() && 0 <= f < web[i].fragments.len() ==> fragment_fits(
            #[trigger] web[i].fragments[f],
        )
}

/// `position_from` stops at the first section named `key`.
pub proof fn lemma_position_from(web: Seq<SectionModel>, key: Seq<char>, from: int)
    requires
        0 <= from <= web.len(),
    ensures
        from <= position_from(web, key, from) <= web.len(),
        position_from(web, key, from) < web.len() ==> web[position_from(web, key, from)].name
            == key,
        forall|j: int| from <= j < position_from(web, key, from) ==> web[j].name != key,
    decreases web.len() - from,
{
    if from < web.len() && web[from].name != key {
        lemma_position_from(web, key, from + 1);
    }
}

/// If `at` is the first section at or after `from` named `key`, `position_from`
/// finds it; if there is none, it finds none.
pub proof fn lemma_position_is(web: Seq<SectionModel>, key: Seq<char>, from: int, at: int)
    requires
        0 <= from <= at <= web.len(),
        forall|j: int| from <= j < at ==> web[j].name != key,
        at < web.len() ==> web[at].name == key,
    ensures
        position_from(web, key, from) == at,
    decreases at - from,
{
    if from < at {
        lemma_position_is(web, key, from + 1, at);
    }
}

/// What a key finds after a fragment was added: under the fragment's key the
/// old fragments and then the new one, under every other key what was there.
pub proof fn lemma_with_fragment(
    web: Seq<SectionModel>,
    key: Seq<char>,
    fragment: FragmentModel,
    other: Seq<char>,
)
    ensures
        fragments_of(with_fragment(web, key, fragment), other) == if other == key {
            Some(
                match fragments_of(web, key) {
                    Some(fragments) => fragments.push(fragment),
                    None => seq![fragment],
                },
            )
        } else {
            fragments_of(web, other)
        },
        position(web, other) is Some ==> position(with_fragment(web, key, fragment), other)
            == position(web, other),
{
    let next = with_fragment(web, key, fragment);
    lemma_position_from(web, key, 0);
    lemma_position_from(web, other, 0);
    let at = position_from(web, key, 0);
    let found = position_from(web, other, 0);
    if at < web.len() {
        assert(next.len() == web.len());
        assert forall|j: int| 0 <= j < next.len() implies (#[trigger] next[j]).name
            == web[j].name by {}
        lemma_position_is(next, other, 0, found);
    } else {
        if other == key {
            lemma_position_is(next, other, 0, web.len() as int);
        } else {
            assert forall|j: int| 0 <= j < web.len() implies (#[trigger] next[j]) == web[j] by {}
            if found < web.len() {
                lemma_position_is(next, other, 0, found);
            } else {
                lemma_position_is(next, other, 0, next.len() as int);
            }
        }
    }
}

/// The fragments under a key are those of the blocks with the web's tag and
/// that key, in the order in which the document gives the blocks, whatever
/// each says of starting or continuing its section; a key with no such block
/// has no section.
pub proof fn lemma_fragments_in_document_order(
    blocks: Seq<BlockModel>,
    tag: Seq<char>,
    key: Seq<char>,
)
    ensures
        fragments_of(web_of(blocks, tag), key) == if selected(blocks, tag, key).len() == 0 {
            None
        } else {
            Some(selected(blocks, tag, key))
        },
    decreases blocks.len(),
{
    if blocks.len() == 0 {
        assert(position_from(Seq::<SectionModel>::empty(), key, 0) == 0);
    } else {
        lemma_fragments_in_document_order(blocks.drop_last(), tag, key);
        if blocks.last().tag == tag {
            lemma_with_fragment(
                web_of(blocks.drop_last(), tag),
                key_of(blocks.last().body),
                fragment_of(blocks.last()),
                key,
            );
        }
    }
}

/// A block with another tag adds nothing: the web is the one that the
/// document gives without that block.
pub proof fn lemma_other_tag_ignored(blocks: Seq<BlockModel>, tag: Seq<char>, at: int)
    requires
        0 <= at < blocks.len(),
        blocks[at].tag != tag,
    ensures
        web_of(blocks, tag) == web_of(blocks.remove(at), tag),
    decreases blocks.len(),
{
    if at == blocks.len() - 1 {
        assert(blocks.remove(at) =~= blocks.drop_last());
    } else {
        lemma_other_tag_ignored(blocks.drop_last(), tag, at);
        let rest = blocks.remove(at);
        assert(rest.drop_last() =~= blocks.drop_last().remove(at));
        assert(rest.last() == blocks.last());
    }
}

/// Adding a fragment that fits its code, under a canonical key, keeps a web
/// well formed.
pub proof fn lemma_with_fragment_well_formed(
    web: Seq<SectionModel>,
    key: Seq<char>,
    fragment: FragmentModel,
)
    requires
        well_formed(web),
        is_canonical(key),
        fragment_fits(fragment),
    ensures
        well_formed(with_fragment(web, key, fragment)),
{
    let next = with_fragment(web, key, fragment);
    lemma_position_from(web, key, 0);
    let at = position_from(web, key, 0);
    if at < web.len() {
        assert forall|i: int| 0 <= i < next.len() implies (#[trigger] next[i]).name
            == web[i].name by {}
        assert forall|i: int, f: int|
            0 <= i < next.len() && 0 <= f < next[i].fragments.len() implies fragment_fits(
            #[trigger] next[i].fragments[f],
        ) by {
            if i != at || f < web[at].fragments.len() {
                assert(next[i].fragments[f] == web[i].fragments[f]);
            }
        }
        assert forall|i: int| 0 <= i < next.len() implies (#[trigger] next[i]).fragments.len()
            > 0 by {
            assert(web[i].fragments.len() > 0);
        }
        assert forall|i: int| 0 <= i < next.len() implies is_canonical(
            (#[trigger] next[i]).name,
        ) by {
            assert(is_canonical(web[i].name));
        }
        assert forall|i: int, j: int| 0 <= i < j < next.len() implies (#[trigger] next[i]).name != (
        #[trigger] next[j]).name by {
            assert(web[i].name != web[j].name);
        }
    } else {
        assert forall|i: int| 0 <= i < web.len() implies (#[trigger] next[i]) == web[i] by {}
        assert forall|i: int, f: int|
            0 <= i < next.len() && 0 <= f < next[i].fragments.len() implies fragment_fits(
            #[trigger] next[i].fragments[f],
        ) by {
            if i < web.len() {
                assert(next[i].fragments[f] == web[i].fragments[f]);
            }
        }
        assert forall|i: int| 0 <= i < next.len() implies (#[trigger] next[i]).fragments.len()
            > 0 by {
            if i < web.len() {
                assert(web[i].fragments.len() > 0);
            }
        }
        assert forall|i: int| 0 <= i < next.len() implies is_canonical(
            (#[trigger] next[i]).name,
        ) by {
            if i < web.len() {
                assert(is_canonical(web[i].name));
            }
        }
        assert forall|i: int, j: int| 0 <= i < j < next.len() implies (#[trigger] next[i]).name != (
        #[trigger] next[j]).name by {
            if j < web.len() {
                assert(web[i].name != web[j].name);
            }
        }
    }
}

impl CodeBlock {
    /// Reads the block: its header, the key of its section, and its code cut
    /// into chunklets.
    pub fn fragment(&self) -> (named: (Vec<char>, Fragment))
        ensures
            named.0@ == key_of(self@.body),
            named.1@ == fragment_of(self@),
            is_canonical(named.0@),
            fragment_fits(named.1@),
    {
        let body = self.body.as_slice();
        let header = parse_header(body);
        let key = normalize(slice_subrange(body, header.name.lo, header.name.hi));
        let code = slice_to_vec(slice_subrange(body, header.code.lo, header.code.hi));
        let chunklets = tokenize(code.as_slice());
        proof {
            if header_shape(body@) is None {
                assert(body@.subrange(0, body@.len() as int) =~= body@);
                assert(body@.subrange(0, 0) =~= Seq::<char>::empty());
                assert(normalized(Seq::<char>::empty()) =~= Seq::<char>::empty());
            }
        }
        let fragment = Fragment {
            code,
            chunklets,
            starts_section: header.is_first,
            tag: slice_to_vec(self.tag.as_slice()),
            offset: self.offset,
        };
        (key, fragment)
    }
}

impl Web {
    /// The web is well formed.
    pub open spec fn wf(&self) -> bool {
        well_formed(self@)
    }

    /// A web without sections.
    pub fn new() -> (web: Web)
        ensures
            web@ == Seq::<SectionModel>::empty(),
            web.wf(),
    {
        let web = Web { sections: Vec::new() };
        assert(web@ =~= Seq::<SectionModel>::empty());
        web
    }

    /// Where the section named `key` stands, if the web has it.
    pub fn position(&self, key: &[char]) -> (at: Option<usize>)
        ensures
            match at {
                Some(i) => position(self@, key@) == Some(i as int),
                None => position(self@, key@) is None,
            },
    {
        let mut i: usize = 0;
        while i < self.sections.len()
            invariant
                i <= self.sections.len(),
                position_from(self@, key@, i as int) == position_from(self@, key@, 0),
            decreases self.sections.len() - i,
        {
            if same_text(self.sections[i].name.as_slice(), key) {
                return Some(i);
            }
            i += 1;
        }
        None
    }

    /// Whether the web has a section named `key`.
    pub fn contains(&self, key: &[char]) -> (found: bool)
        ensures
            found == (fragments_of(self@, key@) is Some),
    {
        self.position(key).is_some()
    }

    /// Puts `fragment` under `key`: behind the fragments that the section of
    /// that name has, or as the first of a new section.
    pub fn append(&mut self, key: Vec<char>, fragment: Fragment)
        requires
            old(self).wf(),
            is_canonical(key@),
            fragment_fits(fragment@),
        ensures
            final(self)@ == with_fragment(old(self)@, key@, fragment@),
            final(self).wf(),
    {
        proof {
            lemma_with_fragment_well_formed(self@, key@, fragment@);
            lemma_position_from(self@, key@, 0);
        }
        let ghost before = self@;
        let ghost added = fragment@;
        match self.position(key.as_slice()) {
            Some(at) => {
                let ghost fragments = self.sections[at as int].fragments@;
                self.sections[at].fragments.push(fragment);
                assert(self.sections[at as int].fragments@ == fragments.push(fragment));
                assert(self.sections[at as int]@.fragments =~= before[at as int].fragments.push(
                    added,
                ));
                assert(self@ =~= with_fragment(before, key@, added));
            },
            None => {
                let mut fragments: Vec<Fragment> = Vec::new();
                fragments.push(fragment);
                let section = Section { name: key, fragments };
                assert(section@.fragments =~= seq![added]);
                self.sections.push(section);
                assert(self@ =~= with_fragment(before, key@, added));
            },
        }
    }

    /// Gathers the web of a document from its code blocks, in one pass: each
    /// block tagged `tag` gives a fragment, which goes under the key that
    /// the block's header names; a block with another tag gives nothing.
    pub fn build(blocks: &[CodeBlock], tag: &[char]) -> (web: Web)
        ensures
            web@ == web_of(block_models(blocks@), tag@),
            web.wf(),
    {
        let mut web = Web::new();
        let mut i: usize = 0;
        while i < blocks.len()
            invariant
                i <= blocks.len(),
                web@ == web_of(block_models(blocks@.take(i as int)), tag@),
                web.wf(),
            decreases blocks.len() - i,
        {
            proof {
                let next = block_models(blocks@.take(i + 1));
                assert(next.drop_last() =~= block_models(blocks@.take(i as int)));
                assert(next.last() == blocks@[i as int]@);
            }
            if same_text(blocks[i].tag.as_slice(), tag) {
                let (key, fragment) = blocks[i].fragment();
                web.append(key, fragment);
            }
            i += 1;
        }
        assert(blocks@.take(blocks.len() as int) =~= blocks@);
        web
    }
}

} // verus!
