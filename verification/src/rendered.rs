//! The rendered view: the document as rendered blocks, where the block you
//! click turns into its Markdown source for editing and renders again when
//! you move on. The document itself stays in the main editor; every
//! keystroke in a block is written through to it. Here are the decisions
//! the view makes: what the block being edited stands for, how its text
//! goes back into the document, and where it sits among the blocks.

use std::ops::Range;
use vstd::prelude::*;
use vstd::string::StrSliceExecFns;
use vstd::string::StringExecFns;
use vstd::string::StringSliceAdditionalSpecFns;
use vstd::utf8::*;

use crate::theme::Palette;
use crate::insert::{cursor_line_range, cursor_line_trimmed, has_row, line_chars, line_content_end};
use crate::text::{has_crlf, has_crlf_before, lemma_boundary_at_join, lemma_encode_concat, substring, trim_ws};

verus! {

/// What the rendered view tells its owner.
#[derive(Clone, Copy, Debug, PartialEq, Eq, Structural)]
pub enum RenderedEvent {
    /// A lone `/` was typed on an empty line of the block being edited.
    SlashTyped,
}

/// The block being edited: where its text starts in the document, and how
/// many document bytes that text currently stands for.
#[derive(Clone, Copy, Debug, PartialEq, Eq, Structural)]
pub struct BlockEdit {
    pub start: usize,
    pub committed_len: usize,
}

/// Replace the document bytes `range` with `text`.
#[derive(Debug)]
pub struct Replacement {
    pub range: Range<usize>,
    pub text: String,
}

/// The document holds `typed` at `start..start + len`, on character
/// boundaries.
pub open spec fn holds_at(document: Seq<u8>, start: int, len: int, typed: Seq<u8>) -> bool {
    &&& 0 <= start
    &&& 0 <= len
    &&& start + len <= document.len()
    &&& is_char_boundary(document, start)
    &&& is_char_boundary(document, start + len)
    &&& document.subrange(start, start + len) == typed
}

pub open spec fn ends_with(bytes: Seq<u8>, suffix: Seq<u8>) -> bool {
    suffix.len() <= bytes.len() && bytes.subrange(bytes.len() - suffix.len(), bytes.len() as int) == suffix
}

/// Text before a new block needs a blank line to keep the block a block
/// of its own: it is not empty and does not end in a blank line already.
pub open spec fn needs_gap(before: Seq<u8>) -> bool {
    &&& before.len() > 0
    &&& !ends_with(before, seq![10u8, 10u8])
    &&& !ends_with(before, seq![13u8, 10u8, 13u8, 10u8])
}

/// The line break of the text before: `\r\n` where it uses one, else `\n`.
pub open spec fn newline_chars(before: Seq<u8>) -> Seq<char> {
    if has_crlf(before) {
        seq!['\r', '\n']
    } else {
        seq!['\n']
    }
}

pub open spec fn newline_bytes(before: Seq<u8>) -> Seq<u8> {
    if has_crlf(before) {
        seq![13u8, 10u8]
    } else {
        seq![10u8]
    }
}

/// The line breaks missing before a new block: one where the text ends
/// in a line break, else two.
pub open spec fn gap_chars(before: Seq<u8>) -> Seq<char> {
    if ends_with(before, newline_bytes(before)) {
        newline_chars(before)
    } else {
        newline_chars(before) + newline_chars(before)
    }
}

/// What a commit writes in place of the bytes the block stood for: the
/// typed text, after the missing gap when it is the first commit of a new
/// block that follows other text.
pub open spec fn committed_chars(before: Seq<u8>, typed: Seq<char>, committed_len: int) -> Seq<char> {
    if needs_gap(before) && typed.len() > 0 && committed_len == 0 {
        gap_chars(before) + typed
    } else {
        typed
    }
}

/// `document` with the bytes `start..end` replaced by `text`.
pub open spec fn splice(document: Seq<u8>, start: int, end: int, text: Seq<u8>) -> Seq<u8> {
    document.subrange(0, start) + text + document.subrange(end, document.len() as int)
}

fn ends_with_bytes(bytes: &[u8], end: usize, suffix: &[u8]) -> (r: bool)
    requires
        end <= bytes@.len(),
    ensures
        r == ends_with(bytes@.subrange(0, end as int), suffix@),
{
    let n = suffix.len();
    if n > end {
        return false;
    }
    let mut i: usize = 0;
    while i < n
        invariant
            n == suffix@.len(),
            n <= end <= bytes@.len(),
            i <= n,
            forall|j: int| 0 <= j < i ==> bytes@[end - n + j] == suffix@[j],
        decreases n - i,
    {
        if bytes[end - n + i] != suffix[i] {
            assert(bytes@.subrange(0, end as int).subrange(end - n, end as int)[i as int] != suffix@[i as int]);
            return false;
        }
        i = i + 1;
    }
    assert(bytes@.subrange(0, end as int).subrange(end - n, end as int) =~= suffix@);
    true
}

impl BlockEdit {
    /// Start editing the block whose text sits at `range`; a range that
    /// runs backwards stands for no bytes.
    pub fn new(range: Range<usize>) -> (edit: BlockEdit)
        ensures
            edit.start == range.start,
            edit.committed_len == (if range.start <= range.end {
                range.end - range.start
            } else {
                0
            }),
    {
        let len = if range.start <= range.end {
            range.end - range.start
        } else {
            0
        };
        BlockEdit { start: range.start, committed_len: len }
    }

    /// The document range the block stands for.
    pub fn range(&self) -> (range: Range<usize>)
        requires
            self.start + self.committed_len <= usize::MAX,
        ensures
            range.start == self.start,
            range.end == self.start + self.committed_len,
    {
        self.start..self.start + self.committed_len
    }

    /// Whether the block already stands for the document range `range`, so
    /// that choosing that range again leaves the edit as it is.
    pub fn stands_for(&self, range: &Range<usize>) -> (same: bool)
        requires
            self.start + self.committed_len <= usize::MAX,
        ensures
            same == (range.start == self.start && range.end == self.start + self.committed_len),
    {
        range.start == self.start && range.end == self.start + self.committed_len
    }

    /// Whether the document still holds the block editor's text where the
    /// block stands.
    pub fn matches_document(&self, document: &str, typed: &str) -> (holds: bool)
        requires
            self.start + self.committed_len <= usize::MAX,
        ensures
            holds == holds_at(document.spec_bytes(), self.start as int, self.committed_len as int, typed.spec_bytes()),
    {
        let start = self.start;
        let end = self.start + self.committed_len;
        let bytes = document.as_bytes();
        let typed_bytes = typed.as_bytes();
        if end > bytes.len() || !document.is_char_boundary(start) || !document.is_char_boundary(end) {
            return false;
        }
        if typed_bytes.len() != self.committed_len {
            assert(bytes@.subrange(start as int, end as int).len() != typed_bytes@.len());
            return false;
        }
        let mut i: usize = 0;
        while i < self.committed_len
            invariant
                bytes@ == document.spec_bytes(),
                typed_bytes@ == typed.spec_bytes(),
                start == self.start,
                start + self.committed_len == end,
                end <= bytes@.len(),
                typed_bytes@.len() == self.committed_len,
                i <= self.committed_len,
                forall|j: int| 0 <= j < i ==> bytes@[start + j] == typed_bytes@[j],
            decreases self.committed_len - i,
        {
            if bytes[start + i] != typed_bytes[i] {
                assert(bytes@.subrange(start as int, end as int)[i as int] != typed_bytes@[i as int]);
                return false;
            }
            i = i + 1;
        }
        assert(bytes@.subrange(start as int, end as int) =~= typed_bytes@);
        true
    }

    /// Write the block editor's text into the document in place of what it
    /// stood for. A block that starts right after other text gets the blank
    /// line Markdown needs to keep it a block of its own; the block then
    /// starts after that gap.
    pub fn commit(&mut self, document: &str, typed: &str) -> (replacement: Replacement)
        requires
            old(self).start <= document.spec_bytes().len(),
            is_char_boundary(document.spec_bytes(), old(self).start as int),
            old(self).start + old(self).committed_len <= usize::MAX,
            old(self).start + 4 <= usize::MAX,
        ensures
            ({
                let before = document.spec_bytes().subrange(0, old(self).start as int);
                let text = committed_chars(before, typed@, old(self).committed_len as int);
                &&& replacement.range.start == old(self).start
                &&& replacement.range.end == old(self).start + old(self).committed_len
                &&& replacement.text@ == text
                &&& final(self).start == old(self).start + (text.len() - typed@.len())
                &&& final(self).committed_len == typed.spec_bytes().len()
            }),
    {
        let start = self.start;
        let range = start..start + self.committed_len;
        let bytes = document.as_bytes();
        let ghost before = bytes@.subrange(0, start as int);
        let needs = start > 0 && !ends_with_bytes(bytes, start, &[10u8, 10u8]) && !ends_with_bytes(
            bytes,
            start,
            &[13u8, 10u8, 13u8, 10u8],
        );
        assert(needs == needs_gap(before)) by {
            assert(seq![10u8, 10u8] =~= [10u8, 10u8]@);
            assert(seq![13u8, 10u8, 13u8, 10u8] =~= [13u8, 10u8, 13u8, 10u8]@);
        }
        let mut text = String::new();
        let mut gap_len: usize = 0;
        if needs && !typed.is_empty() && self.committed_len == 0 {
            let crlf = has_crlf_before(bytes, start);
            let at_break = if crlf {
                ends_with_bytes(bytes, start, &[13u8, 10u8])
            } else {
                ends_with_bytes(bytes, start, &[10u8])
            };
            proof {
                reveal_strlit("\r\n");
                reveal_strlit("\n");
                assert(seq![13u8, 10u8] =~= [13u8, 10u8]@);
                assert(seq![10u8] =~= [10u8]@);
            }
            let (newline, newline_len) = if crlf {
                ("\r\n", 2usize)
            } else {
                ("\n", 1usize)
            };
            text.append(newline);
            gap_len = newline_len;
            if !at_break {
                text.append(newline);
                gap_len = gap_len + newline_len;
            }
            assert(text@ =~= gap_chars(before));
        }
        text.append(typed);
        assert(text@ =~= committed_chars(before, typed@, self.committed_len as int));
        self.start = self.start + gap_len;
        self.committed_len = typed.as_bytes().len();
        Replacement { range, text }
    }
}


/// A line break takes one byte per character.
proof fn lemma_newline_width(before: Seq<u8>)
    ensures
        encode_utf8(newline_chars(before)).len() == newline_chars(before).len(),
{
    let nl = newline_chars(before);
    reveal_with_fuel(encode_utf8, 3);
    if has_crlf(before) {
        assert(nl.drop_first() =~= seq!['\n']);
        assert(nl.drop_first().drop_first() =~= Seq::<char>::empty());
    } else {
        assert(nl.drop_first() =~= Seq::<char>::empty());
    }
}

/// The gap before a new block takes one byte per character.
proof fn lemma_gap_width(before: Seq<u8>)
    ensures
        encode_utf8(gap_chars(before)).len() == gap_chars(before).len(),
{
    let nl = newline_chars(before);
    lemma_newline_width(before);
    lemma_encode_concat(nl, nl);
}

/// After a commit, the document with the replacement made holds the typed
/// text exactly where the block now stands, on character boundaries: the
/// check that ends an edit the document no longer matches keeps the block
/// that made the change.
pub proof fn lemma_commit_keeps_block_matching(
    document: Seq<char>,
    start: int,
    committed_len: int,
    typed: Seq<char>,
)
    requires
        0 <= start,
        0 <= committed_len,
        start + committed_len <= encode_utf8(document).len(),
        is_char_boundary(encode_utf8(document), start),
        is_char_boundary(encode_utf8(document), start + committed_len),
    ensures
        ({
            let bytes = encode_utf8(document);
            let text = committed_chars(bytes.subrange(0, start), typed, committed_len);
            holds_at(
                splice(bytes, start, start + committed_len, encode_utf8(text)),
                start + (text.len() - typed.len()),
                encode_utf8(typed).len() as int,
                encode_utf8(typed),
            )
        }),
{
    let bytes = encode_utf8(document);
    let end = start + committed_len;
    let before = bytes.subrange(0, start);
    let text = committed_chars(before, typed, committed_len);
    let gap = if needs_gap(before) && typed.len() > 0 && committed_len == 0 {
        gap_chars(before)
    } else {
        Seq::<char>::empty()
    };
    assert(text =~= gap + typed);
    lemma_encode_concat(gap, typed);
    lemma_gap_width(before);
    let a = before;
    let g = encode_utf8(gap);
    let e = encode_utf8(typed);
    let b = bytes.subrange(end, bytes.len() as int);
    assert(g.len() == gap.len());
    encode_utf8_valid_utf8(document);
    encode_utf8_valid_utf8(gap);
    encode_utf8_valid_utf8(typed);
    valid_utf8_split(bytes, start);
    valid_utf8_split(bytes, end);
    let spliced = splice(bytes, start, end, encode_utf8(text));
    lemma_boundary_at_join(a, g);
    lemma_boundary_at_join(e, b);
    lemma_boundary_at_join(a + g, e + b);
    lemma_boundary_at_join(a + g, e);
    lemma_boundary_at_join(a + g + e, b);
    assert(spliced =~= (a + g) + (e + b));
    assert(spliced =~= (a + g + e) + b);
    assert(spliced.subrange(start + g.len(), start + g.len() + e.len()) =~= e);
}


/// Whether a lone `/` was just typed on an otherwise empty line of the
/// block editor: line `row`, the cursor's, holds `/` and nothing else but
/// whitespace, and the cursor (a byte offset) stands at the end of the
/// line's content.
pub fn slash_typed(text: &str, row: usize, cursor: usize) -> (typed: bool)
    requires
        has_row(text.spec_bytes(), row as nat),
    ensures
        typed == (trim_ws(line_chars(text.spec_bytes(), row as nat)) == seq!['/']
            && cursor == line_content_end(text.spec_bytes(), row as nat)),
{
    let trimmed = cursor_line_trimmed(text, row);
    let t = trimmed.as_str();
    let lone_slash = t.unicode_len() == 1 && t.get_char(0) == '/';
    assert(lone_slash <==> t@ =~= seq!['/']) by {
        if t@ =~= seq!['/'] {
            assert(t@.len() == 1 && t@[0] == '/');
        }
    }
    if !lone_slash {
        return false;
    }
    let line = cursor_line_range(text, row);
    cursor == line.end
}

/// The source text of the block at `range`: the document's bytes there, or
/// nothing where the range does not fall on the document's characters.
pub fn block_source(document: &str, range: Range<usize>) -> (source: String)
    ensures
        ({
            let bytes = document.spec_bytes();
            if range.start <= range.end <= bytes.len() && is_char_boundary(bytes, range.start as int)
                && is_char_boundary(bytes, range.end as int) {
                encode_utf8(source@) == bytes.subrange(range.start as int, range.end as int)
            } else {
                source@.len() == 0
            }
        }),
{
    let len = document.as_bytes().len();
    if range.start <= range.end && range.end <= len && document.is_char_boundary(range.start)
        && document.is_char_boundary(range.end) {
        let slice = substring(document, range.start, range.end);
        let source = slice.to_owned();
        assert(encode_utf8(source@) == slice.spec_bytes());
        source
    } else {
        let source = String::new();
        assert(source@.len() == 0);
        source
    }
}

/// What the rendered view shows, top to bottom: the block with the given
/// index among the document's blocks, the editor of the block being edited,
/// or the invitation to start writing that an empty view shows.
#[derive(Clone, Copy, Debug, PartialEq, Eq, Structural)]
pub enum RenderedItem {
    Block(usize),
    Editor,
    Empty,
}

/// The block at `block` shares bytes with the range being edited.
pub open spec fn overlaps(block: Range<usize>, active: Range<usize>) -> bool {
    block.start < active.end && block.end > active.start
}

/// The block is hidden: the editor stands for some of its bytes.
pub open spec fn hidden(block: Range<usize>, active: Option<Range<usize>>) -> bool {
    active is Some && overlaps(block, active->0)
}

/// Where the editor goes: at the first block from `from` on that it covers
/// or that starts at or after its end; after all blocks where there is none.
pub open spec fn editor_slot(ranges: Seq<Range<usize>>, active: Range<usize>, from: int) -> int
    decreases ranges.len() - from,
{
    if from >= ranges.len() {
        ranges.len() as int
    } else if overlaps(ranges[from], active) || ranges[from].start >= active.end {
        from
    } else {
        editor_slot(ranges, active, from + 1)
    }
}

/// The blocks among `lo..hi` that the editor leaves standing, in order.
pub open spec fn shown_blocks(ranges: Seq<Range<usize>>, active: Option<Range<usize>>, lo: int, hi: int) -> Seq<RenderedItem>
    decreases hi - lo,
{
    if hi <= lo {
        seq![]
    } else if hidden(ranges[hi - 1], active) {
        shown_blocks(ranges, active, lo, hi - 1)
    } else {
        shown_blocks(ranges, active, lo, hi - 1).push(RenderedItem::Block((hi - 1) as usize))
    }
}

/// What the view shows for the document's blocks `ranges` while the range
/// `active` (if any) is being edited: the blocks the editor does not cover,
/// with the editor in their place, or among its neighbours where it covers
/// none; the invitation to write where that leaves nothing.
pub open spec fn layout_of(ranges: Seq<Range<usize>>, active: Option<Range<usize>>) -> Seq<RenderedItem> {
    let items = match active {
        None => shown_blocks(ranges, active, 0, ranges.len() as int),
        Some(a) => {
            let slot = editor_slot(ranges, a, 0);
            shown_blocks(ranges, active, 0, slot).push(RenderedItem::Editor) + shown_blocks(
                ranges,
                active,
                slot,
                ranges.len() as int,
            )
        },
    };
    if items.len() == 0 {
        seq![RenderedItem::Empty]
    } else {
        items
    }
}

proof fn lemma_editor_slot(ranges: Seq<Range<usize>>, active: Range<usize>, from: int)
    requires
        0 <= from <= ranges.len(),
    ensures
        from <= editor_slot(ranges, active, from) <= ranges.len(),
        forall|i: int|
            from <= i < editor_slot(ranges, active, from) ==> !overlaps(#[trigger] ranges[i], active)
                && ranges[i].start < active.end,
        editor_slot(ranges, active, from) < ranges.len() ==> ({
            let r = ranges[editor_slot(ranges, active, from)];
            overlaps(r, active) || r.start >= active.end
        }),
    decreases ranges.len() - from,
{
    if from < ranges.len() && !(overlaps(ranges[from], active) || ranges[from].start >= active.end) {
        lemma_editor_slot(ranges, active, from + 1);
    }
}

/// The blocks shown from `lo..hi` are those the editor does not hide, each
/// once, in increasing order.
proof fn lemma_shown_blocks(ranges: Seq<Range<usize>>, active: Option<Range<usize>>, lo: int, hi: int)
    requires
        0 <= lo <= hi <= ranges.len() <= usize::MAX,
    ensures
        forall|i: int|
            0 <= i < shown_blocks(ranges, active, lo, hi).len() ==> {
                let item = #[trigger] shown_blocks(ranges, active, lo, hi)[i];
                item is Block && lo <= item->0 < hi
            },
        forall|i: int, j: int|
            0 <= i < j < shown_blocks(ranges, active, lo, hi).len() ==> (
            #[trigger] shown_blocks(ranges, active, lo, hi)[i])->0 < (
            #[trigger] shown_blocks(ranges, active, lo, hi)[j])->0,
        forall|b: int|
            lo <= b < hi ==> (!hidden(#[trigger] ranges[b], active) <==> shown_blocks(
                ranges,
                active,
                lo,
                hi,
            ).contains(RenderedItem::Block(b as usize))),
    decreases hi - lo,
{
    if hi > lo {
        lemma_shown_blocks(ranges, active, lo, hi - 1);
        let prev = shown_blocks(ranges, active, lo, hi - 1);
        let cur = shown_blocks(ranges, active, lo, hi);
        if !hidden(ranges[hi - 1], active) {
            assert(cur[cur.len() - 1] == RenderedItem::Block((hi - 1) as usize));
            assert forall|b: int| lo <= b < hi implies (!hidden(#[trigger] ranges[b], active)
                <==> cur.contains(RenderedItem::Block(b as usize))) by {
                if b < hi - 1 {
                    if prev.contains(RenderedItem::Block(b as usize)) {
                        let i = choose|i: int| 0 <= i < prev.len() && prev[i] == RenderedItem::Block(b as usize);
                        assert(cur[i] == prev[i]);
                    }
                    if cur.contains(RenderedItem::Block(b as usize)) {
                        let i = choose|i: int| 0 <= i < cur.len() && cur[i] == RenderedItem::Block(b as usize);
                        if i < prev.len() {
                            assert(prev[i] == cur[i]);
                        }
                    }
                } else {
                    assert(cur[cur.len() - 1] == RenderedItem::Block(b as usize));
                }
            }
        } else {
            assert forall|b: int| lo <= b < hi implies (!hidden(#[trigger] ranges[b], active)
                <==> cur.contains(RenderedItem::Block(b as usize))) by {
                if b == hi - 1 {
                    if cur.contains(RenderedItem::Block(b as usize)) {
                        let i = choose|i: int| 0 <= i < cur.len() && cur[i] == RenderedItem::Block(b as usize);
                        assert(cur[i]->0 < hi - 1);
                    }
                }
            }
        }
    }
}


/// What the view shows for the document's blocks `ranges` while the range
/// `active` (if any) is being edited.
pub fn layout(ranges: &Vec<Range<usize>>, active: &Option<Range<usize>>) -> (items: Vec<RenderedItem>)
    ensures
        items@ == layout_of(ranges@, *active),
{
    let ghost r = ranges@;
    let ghost slot = if active is Some {
        editor_slot(r, active->0, 0)
    } else {
        r.len() as int
    };
    proof {
        if active is Some {
            lemma_editor_slot(r, active->0, 0);
        }
    }
    let mut items: Vec<RenderedItem> = Vec::new();
    let mut placed = false;
    let mut ix: usize = 0;
    while ix < ranges.len()
        invariant
            r == ranges@,
            0 <= slot <= r.len(),
            active is Some ==> slot == editor_slot(r, active->0, 0),
            active is Some ==> forall|i: int|
                0 <= i < slot ==> !overlaps(#[trigger] r[i], active->0) && r[i].start < active->0.end,
            active is Some && slot < r.len() ==> ({
                let b = r[slot];
                overlaps(b, active->0) || b.start >= active->0.end
            }),
            ix <= r.len(),
            placed <==> (active is Some && slot < ix),
            !placed ==> items@ == shown_blocks(r, *active, 0, ix as int),
            placed ==> items@ == shown_blocks(r, *active, 0, slot).push(RenderedItem::Editor)
                + shown_blocks(r, *active, slot, ix as int),
        decreases r.len() - ix,
    {
        let range = &ranges[ix];
        let ghost before = items@;
        match active {
            Some(a) => {
                let covered = range.start < a.end && range.end > a.start;
                if covered {
                    assert(overlaps(r[ix as int], active->0));
                    if !placed {
                        assert(slot == ix);
                        assert(hidden(r[ix as int], *active));
                        items.push(RenderedItem::Editor);
                        placed = true;
                        assert(shown_blocks(r, *active, slot, slot) =~= Seq::<RenderedItem>::empty());
                        assert(shown_blocks(r, *active, slot, slot + 1) == shown_blocks(r, *active, slot, slot));
                    } else {
                        assert(shown_blocks(r, *active, slot, ix + 1) == shown_blocks(r, *active, slot, ix as int));
                    }
                    ix = ix + 1;
                    proof {
                        assert(items@ =~= shown_blocks(r, *active, 0, slot).push(RenderedItem::Editor)
                            + shown_blocks(r, *active, slot, ix as int));
                    }
                    continue;
                }
                if !placed && range.start >= a.end {
                    items.push(RenderedItem::Editor);
                    placed = true;
                    assert(shown_blocks(r, *active, slot, ix as int) =~= Seq::<RenderedItem>::empty());
                }
            },
            None => {},
        }
        items.push(RenderedItem::Block(ix));
        proof {
            if placed {
                assert(items@ =~= shown_blocks(r, *active, 0, slot).push(RenderedItem::Editor)
                    + shown_blocks(r, *active, slot, ix + 1));
            } else {
                assert(items@ =~= shown_blocks(r, *active, 0, ix + 1));
            }
        }
        ix = ix + 1;
    }
    if active.is_some() && !placed {
        assert(shown_blocks(r, *active, slot, r.len() as int) =~= Seq::<RenderedItem>::empty());
        items.push(RenderedItem::Editor);
        assert(items@ =~= shown_blocks(r, *active, 0, slot).push(RenderedItem::Editor)
            + shown_blocks(r, *active, slot, r.len() as int));
    }
    if items.len() == 0 {
        items.push(RenderedItem::Empty);
    }
    items
}


/// The view shows one editor exactly when a block is being edited; every
/// block that the editor does not cover, once each and in document order;
/// and the invitation to write only when there is neither block nor
/// editor.
pub proof fn lemma_layout_shows_blocks_and_one_editor(ranges: Seq<Range<usize>>, active: Option<Range<usize>>)
    requires
        ranges.len() <= usize::MAX,
    ensures
        ({
            let items = layout_of(ranges, active);
            &&& (active is Some <==> items.contains(RenderedItem::Editor))
            &&& forall|i: int, j: int|
                0 <= i < items.len() && 0 <= j < items.len() && items[i] == RenderedItem::Editor
                    && items[j] == RenderedItem::Editor ==> i == j
            &&& forall|b: int|
                0 <= b < ranges.len() ==> (items.contains(RenderedItem::Block(b as usize)) <==> !hidden(
                    #[trigger] ranges[b],
                    active,
                ))
            &&& forall|i: int|
                0 <= i < items.len() && (#[trigger] items[i]) is Block ==> items[i]->0 < ranges.len()
            &&& forall|i: int, j: int|
                0 <= i < j < items.len() && (#[trigger] items[i]) is Block && (#[trigger] items[j]) is Block
                    ==> items[i]->0 < items[j]->0
            &&& (items.contains(RenderedItem::Empty) <==> (active is None && ranges.len() == 0))
        }),
{
    let n = ranges.len() as int;
    let items = layout_of(ranges, active);
    if active is Some {
        let a = active->0;
        lemma_editor_slot(ranges, a, 0);
        let slot = editor_slot(ranges, a, 0);
        let s1 = shown_blocks(ranges, active, 0, slot);
        let s2 = shown_blocks(ranges, active, slot, n);
        lemma_shown_blocks(ranges, active, 0, slot);
        lemma_shown_blocks(ranges, active, slot, n);
        let all = s1.push(RenderedItem::Editor) + s2;
        assert(items == all);
        assert(all[s1.len() as int] == RenderedItem::Editor);
        assert forall|i: int| 0 <= i < all.len() && i != s1.len() implies (#[trigger] all[i]) is Block && (
        i < s1.len() ==> all[i]->0 < slot) && (i > s1.len() ==> slot <= all[i]->0 < n) by {
            if i < s1.len() {
                assert(all[i] == s1[i]);
            } else {
                assert(all[i] == s2[i - s1.len() - 1]);
            }
        }
        assert forall|b: int| 0 <= b < n implies (all.contains(RenderedItem::Block(b as usize)) <==> !hidden(
            #[trigger] ranges[b],
            active,
        )) by {
            if all.contains(RenderedItem::Block(b as usize)) {
                let i = choose|i: int| 0 <= i < all.len() && all[i] == RenderedItem::Block(b as usize);
                if i < s1.len() {
                    assert(s1[i] == all[i]);
                } else {
                    assert(s2[i - s1.len() - 1] == all[i]);
                }
            }
            if !hidden(ranges[b], active) {
                if b < slot {
                    let i = choose|i: int| 0 <= i < s1.len() && s1[i] == RenderedItem::Block(b as usize);
                    assert(all[i] == s1[i]);
                } else {
                    let i = choose|i: int| 0 <= i < s2.len() && s2[i] == RenderedItem::Block(b as usize);
                    assert(all[i + s1.len() + 1] == s2[i]);
                }
            }
        }
        assert forall|i: int, j: int|
            0 <= i < j < all.len() && (#[trigger] all[i]) is Block && (#[trigger] all[j]) is Block implies all[i]->0
            < all[j]->0 by {
            if j < s1.len() {
                assert(all[i] == s1[i] && all[j] == s1[j]);
            } else if i > s1.len() {
                assert(all[i] == s2[i - s1.len() - 1] && all[j] == s2[j - s1.len() - 1]);
            }
        }
        assert(all.contains(RenderedItem::Editor));
        assert(!all.contains(RenderedItem::Empty));
    } else {
        let s = shown_blocks(ranges, active, 0, n);
        lemma_shown_blocks(ranges, active, 0, n);
        if n == 0 {
            assert(s.len() == 0);
            assert(items[0] == RenderedItem::Empty);
            assert(items =~= seq![RenderedItem::Empty]);
        } else {
            assert(!hidden(ranges[0], active));
            assert(s.contains(RenderedItem::Block(0)));
            assert(s.len() > 0);
            assert(items == s);
            assert(!s.contains(RenderedItem::Editor));
            assert(!s.contains(RenderedItem::Empty));
        }
    }
}


proof fn lemma_encoding_empty(chars: Seq<char>)
    ensures
        (encode_utf8(chars).len() == 0) == (chars.len() == 0),
{
    if chars.len() > 0 {
        let c = chars[0];
        char_is_scalar(c);
        assert(encode_scalar(c as u32).len() >= 1);
        assert(encode_utf8(chars) == encode_scalar(c as u32) + encode_utf8(chars.drop_first()));
    }
}

/// Committing the block's text again, unchanged, writes it over itself: no
/// gap is added, and the document and the block's offsets stay as they
/// were. (After a commit the document holds the typed text where the block
/// stands, and the block stands for exactly its bytes.)
pub proof fn lemma_second_commit_changes_nothing(document: Seq<u8>, start: int, typed: Seq<char>)
    requires
        holds_at(document, start, encode_utf8(typed).len() as int, encode_utf8(typed)),
    ensures
        ({
            let len = encode_utf8(typed).len() as int;
            let text = committed_chars(document.subrange(0, start), typed, len);
            &&& text == typed
            &&& splice(document, start, start + len, encode_utf8(text)) == document
            &&& start + (text.len() - typed.len()) == start
        }),
{
    let len = encode_utf8(typed).len() as int;
    lemma_encoding_empty(typed);
    let text = committed_chars(document.subrange(0, start), typed, len);
    assert(text == typed);
    assert(splice(document, start, start + len, encode_utf8(text)) =~= document);
}

/// What becomes of the block being edited when the document changes: it
/// stays while the document still holds its editor's text `typed` where
/// the block stands, on character boundaries, and the edit ends otherwise.
pub fn after_document_change(active: Option<BlockEdit>, document: &str, typed: &str) -> (kept: Option<BlockEdit>)
    ensures
        kept == (match active {
            Some(e) => if holds_at(
                document.spec_bytes(),
                e.start as int,
                e.committed_len as int,
                typed.spec_bytes(),
            ) {
                Some(e)
            } else {
                None
            },
            None => None,
        }),
{
    match active {
        Some(edit) => {
            let len = document.as_bytes().len();
            if edit.start > len || edit.committed_len > len - edit.start {
                return None;
            }
            if edit.matches_document(document, typed) {
                Some(edit)
            } else {
                None
            }
        },
        None => None,
    }
}


/// The edit that choosing the block at `range` starts.
pub open spec fn edit_for(range: Range<usize>) -> BlockEdit {
    BlockEdit {
        start: range.start,
        committed_len: (if range.start <= range.end {
            range.end - range.start
        } else {
            0
        }) as usize,
    }
}

/// What becomes of the edit `active` when the document changes to
/// `document` while the block's editor holds `typed`.
pub open spec fn kept_after_change(active: Option<BlockEdit>, document: Seq<u8>, typed: Seq<u8>) -> Option<BlockEdit> {
    match active {
        Some(e) => if holds_at(document, e.start as int, e.committed_len as int, typed) {
            Some(e)
        } else {
            None
        },
        None => None,
    }
}

/// The state of the rendered view that its decisions read and change: the
/// block being edited, if any, and the preview palette, if any.
#[derive(Clone, Copy, Debug, PartialEq, Eq)]
pub struct RenderedState {
    pub active: Option<BlockEdit>,
    pub palette: Option<Palette>,
}

impl RenderedState {
    /// A new view edits no block and has no palette of its own.
    pub fn new() -> (state: RenderedState)
        ensures
            state.active is None,
            state.palette is None,
    {
        RenderedState { active: None, palette: None }
    }

    /// Take the palette; says whether it changed, so that the view redraws.
    pub fn set_palette(&mut self, palette: Option<Palette>) -> (changed: bool)
        ensures
            final(self).palette == palette,
            final(self).active == old(self).active,
            changed == (old(self).palette != palette),
    {
        let changed = match (self.palette, palette) {
            (Some(a), Some(b)) => a != b,
            (None, None) => false,
            _ => true,
        };
        self.palette = palette;
        changed
    }

    /// Edit the block at `range`. Where that block is already being edited
    /// nothing changes and the result is `false`; otherwise the edit that
    /// was open ends, the new one starts, and the result is `true`.
    pub fn activate(&mut self, range: Range<usize>) -> (started: bool)
        ensures
            final(self).palette == old(self).palette,
            !started ==> *final(self) == *old(self),
            started ==> final(self).active == Some(edit_for(range)),
            started == !(old(self).active matches Some(e) && e.start + e.committed_len <= usize::MAX
                && range.start == e.start && range.end == e.start + e.committed_len),
    {
        if let Some(edit) = self.active {
            if edit.start <= usize::MAX - edit.committed_len && edit.stands_for(&range) {
                return false;
            }
        }
        self.active = Some(BlockEdit::new(range));
        true
    }

    /// Stop editing; says whether a block was being edited.
    pub fn deactivate(&mut self) -> (was_active: bool)
        ensures
            final(self).active is None,
            final(self).palette == old(self).palette,
            was_active == old(self).active is Some,
    {
        let was_active = self.active.is_some();
        self.active = None;
        was_active
    }

    /// The document changed to `document` while the block's editor holds
    /// `typed`: the edit stays while the document still holds that text
    /// where the block stands, and ends otherwise. Says whether it ended.
    pub fn document_changed(&mut self, document: &str, typed: &str) -> (ended: bool)
        ensures
            final(self).active == kept_after_change(old(self).active, document.spec_bytes(), typed.spec_bytes()),
            final(self).palette == old(self).palette,
            ended == (old(self).active is Some && final(self).active is None),
    {
        let kept = after_document_change(self.active, document, typed);
        let ended = self.active.is_some() && kept.is_none();
        self.active = kept;
        ended
    }
}

/// An edit that the view keeps after a change of the document stands on
/// character boundaries within it, so the commit law applies to it: after
/// the next commit, the document holds the typed text where the block then
/// stands, and the view keeps the edit through that change too.
pub proof fn lemma_kept_edit_stays_kept_after_commit(
    document: Seq<char>,
    edit: BlockEdit,
    shown: Seq<u8>,
    typed: Seq<char>,
)
    requires
        kept_after_change(Some(edit), encode_utf8(document), shown) == Some(edit),
    ensures
        ({
            let bytes = encode_utf8(document);
            let start = edit.start as int;
            let len = edit.committed_len as int;
            let text = committed_chars(bytes.subrange(0, start), typed, len);
            let after = splice(bytes, start, start + len, encode_utf8(text));
            holds_at(after, start + (text.len() - typed.len()), encode_utf8(typed).len() as int, encode_utf8(typed))
        }),
{
    lemma_commit_keeps_block_matching(document, edit.start as int, edit.committed_len as int, typed);
}

} // verus!
