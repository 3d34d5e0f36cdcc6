use crate::files::parse::{texts, Parse, ParseError, SnippetFile};
use comrak::nodes::NodeValue;
use comrak::{format_commonmark, parse_document, Arena, ComrakOptions};
use vstd::prelude::*;

verus! {

/// One block-level unit of a Markdown document: whether it is a heading, and
/// its text written out as CommonMark.
pub struct Block {
    pub heading: bool,
    pub text: String,
}

impl View for Block {
    type V = (bool, Seq<char>);

    open spec fn view(&self) -> (bool, Seq<char>) {
        (self.heading, self.text@)
    }
}

/// The views of a run of blocks.
pub open spec fn block_views(blocks: Seq<Block>) -> Seq<(bool, Seq<char>)> {
    Seq::new(blocks.len(), |i: int| blocks[i]@)
}

/// The top-level blocks that `comrak::parse_document` finds in `content`
/// under the default options, each with the text that
/// `comrak::format_commonmark` writes for it.
pub uninterp spec fn commonmark_blocks(content: Seq<char>) -> Seq<(bool, Seq<char>)>;

/// Parses `content` with `comrak::parse_document` and writes every child of
/// the root out again with `comrak::format_commonmark`, noting which of them
/// are headings. Nothing is proved of the outcome; it is only given its name.
#[verifier::external_body]
fn markdown_blocks(content: &str) -> (blocks: Vec<Block>)
    ensures
        block_views(blocks@) == commonmark_blocks(content@),
{
    let arena = Arena::new();
    let options = ComrakOptions::default();
    let root = parse_document(&arena, content, &options);
    let mut blocks = Vec::new();
    for node in root.children() {
        let heading = matches!(node.data.borrow().value, NodeValue::Heading(_));
        let mut text = Vec::new();
        let _ = format_commonmark(node, &options, &mut text);
        blocks.push(Block { heading, text: String::from_utf8_lossy(&text).into_owned() });
    }
    blocks
}

/// The text gathered since the last boundary, after `blocks`.
pub open spec fn open_section(blocks: Seq<(bool, Seq<char>)>, heading_boundaries: bool) -> Seq<
    char,
>
    decreases blocks.len(),
{
    if blocks.len() == 0 {
        Seq::empty()
    } else if blocks.last().0 {
        if heading_boundaries {
            Seq::empty()
        } else {
            open_section(blocks.drop_last(), heading_boundaries)
        }
    } else {
        open_section(blocks.drop_last(), heading_boundaries) + blocks.last().1
    }
}

/// The sections that `blocks` have closed: a heading closes the text
/// gathered before it, unless there is none.
pub open spec fn closed_sections(blocks: Seq<(bool, Seq<char>)>, heading_boundaries: bool) -> Seq<
    Seq<char>,
>
    decreases blocks.len(),
{
    if blocks.len() == 0 {
        Seq::empty()
    } else {
        let before = blocks.drop_last();
        if blocks.last().0 && heading_boundaries && open_section(before, heading_boundaries).len()
            > 0 {
            closed_sections(before, heading_boundaries).push(
                open_section(before, heading_boundaries),
            )
        } else {
            closed_sections(before, heading_boundaries)
        }
    }
}

/// The provisional segments of a document: the text between one heading and
/// the next, headings left out, empty stretches left out. Without heading
/// boundaries all the text is one segment.
pub open spec fn sections_of(blocks: Seq<(bool, Seq<char>)>, heading_boundaries: bool) -> Seq<
    Seq<char>,
> {
    if open_section(blocks, heading_boundaries).len() > 0 {
        closed_sections(blocks, heading_boundaries).push(open_section(blocks, heading_boundaries))
    } else {
        closed_sections(blocks, heading_boundaries)
    }
}

/// Cuts a run of blocks into its provisional segments.
pub fn split_sections(blocks: &Vec<Block>, heading_boundaries: bool) -> (sections: Vec<String>)
    ensures
        texts(sections@) == sections_of(block_views(blocks@), heading_boundaries),
{
    let mut sections: Vec<String> = Vec::new();
    let mut current = String::new();
    let mut i: usize = 0;
    let ghost views = block_views(blocks@);
    assert(views.take(0).len() == 0);
    assert(texts(sections@) == closed_sections(views.take(0), heading_boundaries));
    while i < blocks.len()
        invariant
            i <= blocks.len(),
            views == block_views(blocks@),
            texts(sections@) == closed_sections(views.take(i as int), heading_boundaries),
            current@ == open_section(views.take(i as int), heading_boundaries),
        decreases blocks.len() - i,
    {
        proof {
            assert(views.take(i + 1).drop_last() == views.take(i as int));
            assert(views.take(i + 1).last() == blocks@[i as int]@);
        }
        let block = &blocks[i];
        if block.heading {
            if heading_boundaries {
                if !current.as_str().is_empty() {
                    let ghost before = sections@;
                    sections.push(current);
                    assert(texts(sections@) == texts(before).push(current@));
                }
                current = String::new();
            }
        } else {
            current.append(block.text.as_str());
        }
        i += 1;
    }
    assert(views.take(blocks.len() as int) == views);
    if !current.as_str().is_empty() {
        let ghost before = sections@;
        sections.push(current);
        assert(texts(sections@) == texts(before).push(current@));
    }
    sections
}

/// The chunk still being gathered after `sections`: a section joins it while
/// the two together stay under `min_len` characters, and starts it afresh
/// otherwise.
pub open spec fn gathering(sections: Seq<Seq<char>>, min_len: nat) -> Seq<char>
    decreases sections.len(),
{
    if sections.len() == 0 {
        Seq::empty()
    } else {
        let before = gathering(sections.drop_last(), min_len);
        if before.len() + sections.last().len() < min_len {
            before + sections.last()
        } else {
            sections.last()
        }
    }
}

/// The chunks that `sections` have completed: a section that no longer fits
/// under `min_len` with what was gathered sends the gathered text out,
/// unless there is none.
pub open spec fn emitted(sections: Seq<Seq<char>>, min_len: nat) -> Seq<Seq<char>>
    decreases sections.len(),
{
    if sections.len() == 0 {
        Seq::empty()
    } else {
        let before = gathering(sections.drop_last(), min_len);
        if before.len() + sections.last().len() >= min_len && before.len() > 0 {
            emitted(sections.drop_last(), min_len).push(before)
        } else {
            emitted(sections.drop_last(), min_len)
        }
    }
}

/// The chunks of a run of sections: what was completed, then what is left,
/// whatever its size, unless it is empty.
pub open spec fn coalesced(sections: Seq<Seq<char>>, min_len: nat) -> Seq<Seq<char>> {
    if gathering(sections, min_len).len() > 0 {
        emitted(sections, min_len).push(gathering(sections, min_len))
    } else {
        emitted(sections, min_len)
    }
}

/// Merges sections that are too short into the chunk before them.
pub fn coalesce(sections: &Vec<String>, min_len: usize) -> (chunks: Vec<String>)
    ensures
        texts(chunks@) == coalesced(texts(sections@), min_len as nat),
{
    let mut chunks: Vec<String> = Vec::new();
    let mut prev = String::new();
    let mut prev_len: usize = 0;
    let mut i: usize = 0;
    let ghost all = texts(sections@);
    assert(all.take(0).len() == 0);
    assert(texts(chunks@) == emitted(all.take(0), min_len as nat));
    while i < sections.len()
        invariant
            i <= sections.len(),
            all == texts(sections@),
            texts(chunks@) == emitted(all.take(i as int), min_len as nat),
            prev@ == gathering(all.take(i as int), min_len as nat),
            prev_len == prev@.len(),
        decreases sections.len() - i,
    {
        proof {
            assert(all.take(i + 1).drop_last() == all.take(i as int));
            assert(all.take(i + 1).last() == sections@[i as int]@);
        }
        let section = &sections[i];
        let section_len = section.as_str().unicode_len();
        if prev_len < min_len && section_len < min_len - prev_len {
            prev.append(section.as_str());
            prev_len += section_len;
        } else {
            if prev_len > 0 {
                let ghost before = chunks@;
                chunks.push(prev);
                assert(texts(chunks@) == texts(before).push(prev@));
            }
            prev = section.clone();
            prev_len = section_len;
        }
        i += 1;
    }
    assert(all.take(sections.len() as int) == all);
    if prev_len > 0 {
        let ghost before = chunks@;
        chunks.push(prev);
        assert(texts(chunks@) == texts(before).push(prev@));
    }
    chunks
}

/// The chunks of a document whose blocks are `blocks`.
pub open spec fn chunks_of(
    blocks: Seq<(bool, Seq<char>)>,
    heading_boundaries: bool,
    min_chunk_chars: nat,
) -> Seq<Seq<char>> {
    coalesced(sections_of(blocks, heading_boundaries), min_chunk_chars)
}

/// Splits a run of blocks into chunks: first by structure, then by size.
pub fn split_blocks(blocks: &Vec<Block>, heading_boundaries: bool, min_chunk_chars: usize) -> (chunks:
    Vec<String>)
    ensures
        texts(chunks@) == chunks_of(
            block_views(blocks@),
            heading_boundaries,
            min_chunk_chars as nat,
        ),
{
    let sections = split_sections(blocks, heading_boundaries);
    coalesce(&sections, min_chunk_chars)
}

/// Splits a Markdown document into chunks of at least `min_chunk_chars`
/// characters, the last one excepted, cutting at headings where
/// `heading_boundaries` is set.
pub fn split(document_text: &str, heading_boundaries: bool, min_chunk_chars: usize) -> (chunks:
    Vec<String>)
    ensures
        texts(chunks@) == chunks_of(
            commonmark_blocks(document_text@),
            heading_boundaries,
            min_chunk_chars as nat,
        ),
{
    let blocks = markdown_blocks(document_text);
    split_blocks(&blocks, heading_boundaries, min_chunk_chars)
}

/// Markdown documents, cut at headings into chunks of at least 1024
/// characters.
pub struct Markdown;

impl Parse for Markdown {
    open spec fn chunk_texts(content: Seq<char>) -> Option<Seq<Seq<char>>> {
        Some(chunks_of(commonmark_blocks(content), true, 1024))
    }

    fn parse(path: &str, content: &str) -> (r: Result<SnippetFile, ParseError>) {
        let chunks = split(content, true, 1024);
        Ok(SnippetFile { file_path: path.to_owned(), code_snippets: chunks })
    }
}

/// The texts of `parts`, one after the other.
pub open spec fn concat(parts: Seq<Seq<char>>) -> Seq<char>
    decreases parts.len(),
{
    if parts.len() == 0 {
        Seq::empty()
    } else {
        concat(parts.drop_last()) + parts.last()
    }
}

/// The text of a document without its headings.
pub open spec fn body_text(blocks: Seq<(bool, Seq<char>)>) -> Seq<char>
    decreases blocks.len(),
{
    if blocks.len() == 0 {
        Seq::empty()
    } else if blocks.last().0 {
        body_text(blocks.drop_last())
    } else {
        body_text(blocks.drop_last()) + blocks.last().1
    }
}

/// Whether a run of sections never sends out a gathered text that is still
/// under `min_len`: whenever a section does not fit with what was gathered,
/// what was gathered is either empty or already long enough.
pub open spec fn steady(sections: Seq<Seq<char>>, min_len: nat) -> bool
    decreases sections.len(),
{
    sections.len() == 0 || {
        let before = gathering(sections.drop_last(), min_len);
        &&& steady(sections.drop_last(), min_len)
        &&& (before.len() + sections.last().len() < min_len || before.len() == 0 || before.len()
            >= min_len)
    }
}

proof fn lemma_sections_concat(blocks: Seq<(bool, Seq<char>)>, heading_boundaries: bool)
    ensures
        concat(closed_sections(blocks, heading_boundaries)) + open_section(
            blocks,
            heading_boundaries,
        ) == body_text(blocks),
    decreases blocks.len(),
{
    if blocks.len() > 0 {
        let before = blocks.drop_last();
        lemma_sections_concat(before, heading_boundaries);
        let closed = closed_sections(before, heading_boundaries);
        let open = open_section(before, heading_boundaries);
        if blocks.last().0 && heading_boundaries {
            if open.len() > 0 {
                assert(closed.push(open).drop_last() == closed);
            }
            assert(concat(closed) + open + Seq::<char>::empty() == concat(closed) + open);
        } else if !blocks.last().0 {
            assert(concat(closed) + (open + blocks.last().1) == (concat(closed) + open)
                + blocks.last().1);
        }
    }
}

proof fn lemma_coalesced_concat(sections: Seq<Seq<char>>, min_len: nat)
    ensures
        concat(emitted(sections, min_len)) + gathering(sections, min_len) == concat(sections),
    decreases sections.len(),
{
    if sections.len() > 0 {
        let rest = sections.drop_last();
        lemma_coalesced_concat(rest, min_len);
        let before = gathering(rest, min_len);
        let out = emitted(rest, min_len);
        if before.len() + sections.last().len() < min_len {
            assert(concat(out) + (before + sections.last()) == (concat(out) + before)
                + sections.last());
        } else if before.len() > 0 {
            assert(out.push(before).drop_last() == out);
        } else {
            assert(concat(out) + before == concat(out));
        }
    }
}

/// Order preservation: the chunks of a document, one after the other, are
/// the document's text without its headings, in the original order.
pub proof fn lemma_chunks_preserve_text(
    blocks: Seq<(bool, Seq<char>)>,
    heading_boundaries: bool,
    min_chunk_chars: nat,
)
    ensures
        concat(chunks_of(blocks, heading_boundaries, min_chunk_chars)) == body_text(blocks),
{
    let sections = sections_of(blocks, heading_boundaries);
    lemma_sections_concat(blocks, heading_boundaries);
    let closed = closed_sections(blocks, heading_boundaries);
    let open = open_section(blocks, heading_boundaries);
    if open.len() > 0 {
        assert(closed.push(open).drop_last() == closed);
    } else {
        assert(concat(closed) + open == concat(closed));
    }
    assert(concat(sections) == body_text(blocks));
    lemma_coalesced_concat(sections, min_chunk_chars);
    let out = emitted(sections, min_chunk_chars);
    let left = gathering(sections, min_chunk_chars);
    if left.len() > 0 {
        assert(out.push(left).drop_last() == out);
    } else {
        assert(concat(out) + left == concat(out));
    }
}

proof fn lemma_emitted_long(sections: Seq<Seq<char>>, min_len: nat)
    requires
        steady(sections, min_len),
    ensures
        forall|i: int| 0 <= i < emitted(sections, min_len).len() ==> #[trigger] emitted(
            sections,
            min_len,
        )[i].len() >= min_len,
    decreases sections.len(),
{
    if sections.len() > 0 {
        let rest = sections.drop_last();
        lemma_emitted_long(rest, min_len);
        let out = emitted(sections, min_len);
        assert forall|i: int| 0 <= i < out.len() implies #[trigger] out[i].len() >= min_len by {
            if i < emitted(rest, min_len).len() {
                assert(out[i] == emitted(rest, min_len)[i]);
            }
        }
    }
}

/// The coalescing invariant, for the runs of sections on which it holds:
/// where no gathered text is sent out short, every chunk but the last has
/// at least `min_len` characters.
pub proof fn lemma_coalescing_invariant(sections: Seq<Seq<char>>, min_len: nat)
    requires
        steady(sections, min_len),
    ensures
        forall|i: int|
            0 <= i < coalesced(sections, min_len).len() - 1 ==> #[trigger] coalesced(
                sections,
                min_len,
            )[i].len() >= min_len,
{
    lemma_emitted_long(sections, min_len);
}

proof fn lemma_empty_gathering(sections: Seq<Seq<char>>, min_len: nat)
    ensures
        gathering(sections, min_len).len() == 0 ==> emitted(sections, min_len).len() == 0
            || emitted(sections, min_len).last().len() >= min_len,
    decreases sections.len(),
{
    if sections.len() > 0 {
        lemma_empty_gathering(sections.drop_last(), min_len);
    }
}

proof fn lemma_unsteady_emits_short(sections: Seq<Seq<char>>, min_len: nat)
    requires
        !steady(sections, min_len),
    ensures
        exists|i: int|
            0 <= i < emitted(sections, min_len).len() && (#[trigger] emitted(
                sections,
                min_len,
            )[i]).len() < min_len,
    decreases sections.len(),
{
    let rest = sections.drop_last();
    let out = emitted(sections, min_len);
    if !steady(rest, min_len) {
        lemma_unsteady_emits_short(rest, min_len);
        let i = choose|i: int|
            0 <= i < emitted(rest, min_len).len() && (#[trigger] emitted(rest, min_len)[i]).len()
                < min_len;
        assert(out[i] == emitted(rest, min_len)[i]);
    } else {
        let before = gathering(rest, min_len);
        assert(out == emitted(rest, min_len).push(before));
        assert(out[out.len() - 1] == before);
    }
}

/// The coalescing invariant holds of no other run of sections: where a
/// gathered text is sent out short, a chunk that is not the last has fewer
/// than `min_len` characters.
pub proof fn lemma_coalescing_invariant_needs_steady(sections: Seq<Seq<char>>, min_len: nat)
    requires
        !steady(sections, min_len),
    ensures
        exists|i: int|
            0 <= i < coalesced(sections, min_len).len() - 1 && (#[trigger] coalesced(
                sections,
                min_len,
            )[i]).len() < min_len,
{
    lemma_unsteady_emits_short(sections, min_len);
    lemma_empty_gathering(sections, min_len);
    let out = emitted(sections, min_len);
    let i = choose|i: int| 0 <= i < out.len() && (#[trigger] out[i]).len() < min_len;
    assert(coalesced(sections, min_len)[i] == out[i]);
}

/// A run of sections that together stay under `min_len` collapses into one
/// chunk, which holds all of their text.
pub proof fn lemma_short_document_is_one_chunk(sections: Seq<Seq<char>>, min_len: nat)
    requires
        concat(sections).len() < min_len,
    ensures
        gathering(sections, min_len) == concat(sections),
        emitted(sections, min_len).len() == 0,
        concat(sections).len() > 0 ==> coalesced(sections, min_len) == seq![concat(sections)],
        concat(sections).len() == 0 ==> coalesced(sections, min_len).len() == 0,
    decreases sections.len(),
{
    if sections.len() > 0 {
        lemma_short_document_is_one_chunk(sections.drop_last(), min_len);
    }
    if concat(sections).len() > 0 {
        assert(Seq::<Seq<char>>::empty().push(concat(sections)) == seq![concat(sections)]);
    }
}

/// A document without headings that has any text is one chunk: the whole
/// text.
pub proof fn lemma_no_heading_is_one_chunk(blocks: Seq<(bool, Seq<char>)>, min_chunk_chars: nat)
    requires
        forall|i: int| 0 <= i < blocks.len() ==> !(#[trigger] blocks[i]).0,
        body_text(blocks).len() > 0,
    ensures
        chunks_of(blocks, true, min_chunk_chars) == seq![body_text(blocks)],
{
    lemma_no_heading_sections(blocks);
    let whole = body_text(blocks);
    let sections = seq![whole];
    assert(sections_of(blocks, true) == sections);
    assert(sections.drop_last().len() == 0);
    assert(gathering(sections, min_chunk_chars) == whole) by {
        reveal_with_fuel(gathering, 2);
        assert(Seq::<char>::empty() + whole == whole);
    }
    assert(emitted(sections, min_chunk_chars).len() == 0) by {
        reveal_with_fuel(gathering, 2);
        reveal_with_fuel(emitted, 2);
    }
    assert(Seq::<Seq<char>>::empty().push(whole) == seq![whole]);
}

proof fn lemma_no_heading_sections(blocks: Seq<(bool, Seq<char>)>)
    requires
        forall|i: int| 0 <= i < blocks.len() ==> !(#[trigger] blocks[i]).0,
    ensures
        closed_sections(blocks, true).len() == 0,
        open_section(blocks, true) == body_text(blocks),
    decreases blocks.len(),
{
    if blocks.len() > 0 {
        assert(!blocks[blocks.len() - 1].0);
        lemma_no_heading_sections(blocks.drop_last());
    }
}

/// A document without blocks has no chunks.
pub proof fn lemma_empty_document_has_no_chunks(heading_boundaries: bool, min_chunk_chars: nat)
    ensures
        chunks_of(Seq::empty(), heading_boundaries, min_chunk_chars).len() == 0,
{
}

proof fn lemma_long_gathering(sections: Seq<Seq<char>>, min_len: nat)
    requires
        forall|i: int| 0 <= i < sections.len() ==> (#[trigger] sections[i]).len() >= min_len,
    ensures
        steady(sections, min_len),
        gathering(sections, min_len).len() == 0 || gathering(sections, min_len).len() >= min_len,
    decreases sections.len(),
{
    if sections.len() > 0 {
        assert(sections[sections.len() - 1].len() >= min_len);
        assert forall|i: int| 0 <= i < sections.drop_last().len() implies (#[trigger] sections.drop_last()[i]).len()
            >= min_len by {
            assert(sections.drop_last()[i] == sections[i]);
        }
        lemma_long_gathering(sections.drop_last(), min_len);
    }
}

/// Where every section has at least `min_len` characters, so has every
/// chunk but the last.
pub proof fn lemma_long_sections_make_long_chunks(sections: Seq<Seq<char>>, min_len: nat)
    requires
        forall|i: int| 0 <= i < sections.len() ==> (#[trigger] sections[i]).len() >= min_len,
    ensures
        forall|i: int|
            0 <= i < coalesced(sections, min_len).len() - 1 ==> #[trigger] coalesced(
                sections,
                min_len,
            )[i].len() >= min_len,
{
    lemma_long_gathering(sections, min_len);
    lemma_coalescing_invariant(sections, min_len);
}

} // verus!
