//! Markdown syntax highlighting for the editor, and the blocks the
//! rendered view shows.
//!
//! The same parser that renders the preview parses the buffer here, so
//! what the editor colours and what the preview shows never disagree.
//! Every node with a look becomes a span; where nodes nest, the innermost
//! wins (bold inside a heading is bold). The editor asks for
//! non-overlapping runs, which [`runs`] produces from the spans.

use std::ops::Range;
use vstd::prelude::*;
use vstd::string::StringSliceAdditionalSpecFns;

use crate::mdast::{gfm_tree, lines_count_from_one, parse_gfm, MdNode, NodeKind};
pub use crate::runs::{runs, Span};
use crate::runs::{flattens, runs_ordered, span_end, span_start};

verus! {

/// The name the editor recognises as Markdown.
pub const LANGUAGE: &'static str = "markdown";

/// The looks a node can have.
#[derive(Clone, Copy, Debug, PartialEq, Eq, Structural)]
pub enum Style {
    Title,
    Strong,
    Emphasis,
    Comment,
    Literal,
    LinkUri,
    LinkText,
    Punctuation,
}

/// The theme name of a look.
pub open spec fn style_name(style: Style) -> &'static str {
    match style {
        Style::Title => "title",
        Style::Strong => "emphasis.strong",
        Style::Emphasis => "emphasis",
        Style::Comment => "comment",
        Style::Literal => "string",
        Style::LinkUri => "link_uri",
        Style::LinkText => "link_text",
        Style::Punctuation => "punctuation",
    }
}

impl Style {
    pub fn name(self) -> (name: &'static str)
        ensures
            name == style_name(self),
    {
        match self {
            Style::Title => "title",
            Style::Strong => "emphasis.strong",
            Style::Emphasis => "emphasis",
            Style::Comment => "comment",
            Style::Literal => "string",
            Style::LinkUri => "link_uri",
            Style::LinkText => "link_text",
            Style::Punctuation => "punctuation",
        }
    }
}

/// The look of a node of kind `kind` whose nearest enclosing node with a
/// look has `parent`: text inside a link differs from the link's URL.
pub open spec fn style_for(kind: NodeKind, parent: Option<Style>) -> Option<Style> {
    match kind {
        NodeKind::Heading => Some(Style::Title),
        NodeKind::Strong => Some(Style::Strong),
        NodeKind::Emphasis => Some(Style::Emphasis),
        NodeKind::Delete | NodeKind::Html => Some(Style::Comment),
        NodeKind::InlineCode | NodeKind::Code => Some(Style::Literal),
        NodeKind::Link | NodeKind::Image | NodeKind::LinkReference | NodeKind::ImageReference
        | NodeKind::Definition | NodeKind::FootnoteReference | NodeKind::FootnoteDefinition => Some(
            Style::LinkUri,
        ),
        NodeKind::Text => if parent == Some(Style::LinkUri) {
            Some(Style::LinkText)
        } else {
            None
        },
        NodeKind::ThematicBreak => Some(Style::Punctuation),
        NodeKind::Other => None,
    }
}

/// The look of a node. `parent` is the enclosing node's look, so link text
/// can differ from the link's URL.
fn name_for(kind: NodeKind, parent: Option<Style>) -> (style: Option<Style>)
    ensures
        style == style_for(kind, parent),
{
    match kind {
        NodeKind::Heading => Some(Style::Title),
        NodeKind::Strong => Some(Style::Strong),
        NodeKind::Emphasis => Some(Style::Emphasis),
        NodeKind::Delete | NodeKind::Html => Some(Style::Comment),
        NodeKind::InlineCode | NodeKind::Code => Some(Style::Literal),
        NodeKind::Link | NodeKind::Image | NodeKind::LinkReference | NodeKind::ImageReference
        | NodeKind::Definition | NodeKind::FootnoteReference | NodeKind::FootnoteDefinition => Some(
            Style::LinkUri,
        ),
        NodeKind::Text => match parent {
            Some(Style::LinkUri) => Some(Style::LinkText),
            _ => None,
        },
        NodeKind::ThematicBreak => Some(Style::Punctuation),
        NodeKind::Other => None,
    }
}

/// The span a node contributes by itself: its range with its look, when
/// it has a look, a position and a non-empty range.
pub open spec fn own_span(node: MdNode, parent: Option<Style>) -> Seq<Span> {
    match (style_for(node.kind, parent), node.position) {
        (Some(style), Some(pos)) => if pos.start < pos.end {
            seq![(pos.start..pos.end, style_name(style))]
        } else {
            seq![]
        },
        _ => seq![],
    }
}

/// The look that the children of a node inherit.
pub open spec fn inherited(node: MdNode, parent: Option<Style>) -> Option<Style> {
    match style_for(node.kind, parent) {
        Some(style) => Some(style),
        None => parent,
    }
}

/// Every styled node of a subtree, outer nodes before the nodes inside
/// them, in document order.
pub open spec fn node_spans(node: MdNode, parent: Option<Style>) -> Seq<Span>
    decreases node,
{
    own_span(node, parent) + forest_spans(node.children@, inherited(node, parent))
}

/// The spans of a row of sibling subtrees, one subtree after the other.
pub open spec fn forest_spans(nodes: Seq<MdNode>, parent: Option<Style>) -> Seq<Span>
    decreases nodes,
{
    if nodes.len() == 0 {
        seq![]
    } else {
        forest_spans(nodes.drop_last(), parent) + node_spans(nodes.last(), parent)
    }
}

fn walk(node: &MdNode, parent: Option<Style>, out: &mut Vec<Span>)
    ensures
        final(out)@ == old(out)@ + node_spans(*node, parent),
    decreases node,
{
    let name = name_for(node.kind, parent);
    if let (Some(style), Some(position)) = (name, node.position) {
        if position.start < position.end {
            out.push((position.start..position.end, style.name()));
        }
    }
    let ghost mid = out@;
    let inherit = match name {
        Some(_) => name,
        None => parent,
    };
    let n = node.children.len();
    let mut i: usize = 0;
    while i < n
        invariant
            n == node.children@.len(),
            i <= n,
            inherit == inherited(*node, parent),
            out@ == mid + forest_spans(node.children@.take(i as int), inherit),
        decreases n - i,
    {
        proof {
            assert(node.children@.take(i + 1).drop_last() == node.children@.take(i as int));
            assert(decreases_to!(node => node.children@[i as int]));
        }
        walk(&node.children[i], inherit, out);
        i = i + 1;
    }
    proof {
        assert(node.children@.take(n as int) == node.children@);
    }
}

/// Every styled node of a parsed tree, outer nodes before the nodes inside
/// them.
pub fn spans_in(root: &MdNode) -> (out: Vec<Span>)
    ensures
        out@ == node_spans(*root, None),
{
    let mut out = Vec::new();
    walk(root, None, &mut out);
    out
}

/// The spans that `text` parses into.
pub open spec fn text_spans(text: Seq<char>) -> Seq<Span> {
    match gfm_tree(text) {
        Some(root) => node_spans(root, None),
        None => seq![],
    }
}

/// Every styled node in `text`, outer nodes before the nodes inside them.
pub fn spans(text: &str) -> (out: Vec<Span>)
    ensures
        out@ == text_spans(text@),
{
    match parse_gfm(text) {
        Some(root) => spans_in(&root),
        None => Vec::new(),
    }
}

/// The 0-based start line of every block with a position, in order.
pub open spec fn start_lines(blocks: Seq<MdNode>) -> Seq<usize>
    decreases blocks.len(),
{
    if blocks.len() == 0 {
        seq![]
    } else {
        start_lines(blocks.drop_last()) + match blocks.last().position {
            Some(pos) => seq![(pos.start_line - 1) as usize],
            None => seq![],
        }
    }
}

/// The 0-based start line of every top-level block of a parsed tree.
pub fn block_start_lines_in(root: &MdNode) -> (lines: Vec<usize>)
    requires
        lines_count_from_one(root.children@),
    ensures
        lines@ == start_lines(root.children@),
{
    let blocks = &root.children;
    let n = blocks.len();
    let mut lines: Vec<usize> = Vec::new();
    let mut i: usize = 0;
    while i < n
        invariant
            n == blocks@.len(),
            i <= n,
            lines_count_from_one(blocks@),
            lines@ == start_lines(blocks@.take(i as int)),
        decreases n - i,
    {
        proof {
            assert(blocks@.take(i + 1).drop_last() == blocks@.take(i as int));
        }
        if let Some(pos) = blocks[i].position {
            assert(pos.start_line >= 1);
            lines.push(pos.start_line - 1);
        }
        i = i + 1;
    }
    proof {
        assert(blocks@.take(n as int) == blocks@);
    }
    lines
}

/// The 0-based start lines that `text`'s top-level blocks begin on; none
/// where the parse fails.
pub open spec fn text_block_start_lines(text: Seq<char>) -> Seq<usize> {
    match gfm_tree(text) {
        Some(root) => start_lines(root.children@),
        None => seq![],
    }
}

/// The 0-based start line of every top-level block, in document order.
///
/// The preview renders one list item per top-level block, so this maps an
/// editor line to the preview item that holds it.
pub fn block_start_lines(text: &str) -> (lines: Vec<usize>)
    ensures
        lines@ == text_block_start_lines(text@),
{
    match parse_gfm(text) {
        Some(root) => block_start_lines_in(&root),
        None => Vec::new(),
    }
}

/// `end` moved back over the line breaks (`\r` and `\n`) that end
/// `bytes[start..end]`.
pub open spec fn trim_breaks_end(bytes: Seq<u8>, start: int, end: int) -> int
    decreases end - start,
{
    if end > start && (bytes[end - 1] == 10 || bytes[end - 1] == 13) {
        trim_breaks_end(bytes, start, end - 1)
    } else {
        end
    }
}

/// The byte range of every block with a position, without the line breaks
/// that end it.
pub open spec fn block_ranges_of(blocks: Seq<MdNode>, bytes: Seq<u8>) -> Seq<Range<usize>>
    decreases blocks.len(),
{
    if blocks.len() == 0 {
        seq![]
    } else {
        block_ranges_of(blocks.drop_last(), bytes) + match blocks.last().position {
            Some(pos) => seq![pos.start..trim_breaks_end(bytes, pos.start as int, pos.end as int) as usize],
            None => seq![],
        }
    }
}

/// Every block's range runs forwards and lies within `len` bytes.
pub open spec fn ranges_fit(blocks: Seq<MdNode>, len: int) -> bool {
    forall|i: int| 0 <= i < blocks.len() ==> ((#[trigger] blocks[i]).position matches Some(pos) ==> pos.start <= pos.end <= len)
}

/// The byte range of every top-level block of a parsed tree of `text`.
/// Blank lines between blocks belong to no block, and no block ends in a
/// line break (the parser lets a list keep the blank line after its
/// nested list).
pub fn block_ranges_in(text: &str, root: &MdNode) -> (ranges: Vec<Range<usize>>)
    requires
        ranges_fit(root.children@, text.spec_bytes().len() as int),
    ensures
        ranges@ == block_ranges_of(root.children@, text.spec_bytes()),
{
    let bytes = text.as_bytes();
    let blocks = &root.children;
    let n = blocks.len();
    let mut ranges: Vec<Range<usize>> = Vec::new();
    let mut i: usize = 0;
    while i < n
        invariant
            n == blocks@.len(),
            i <= n,
            bytes@ == text.spec_bytes(),
            ranges_fit(blocks@, bytes@.len() as int),
            ranges@ == block_ranges_of(blocks@.take(i as int), bytes@),
        decreases n - i,
    {
        proof {
            assert(blocks@.take(i + 1).drop_last() == blocks@.take(i as int));
        }
        if let Some(pos) = blocks[i].position {
            assert(pos.start <= pos.end <= bytes@.len());
            let mut end = pos.end;
            while end > pos.start && (bytes[end - 1] == 10u8 || bytes[end - 1] == 13u8)
                invariant
                    pos.start <= end <= pos.end <= bytes@.len(),
                    trim_breaks_end(bytes@, pos.start as int, end as int) == trim_breaks_end(
                        bytes@,
                        pos.start as int,
                        pos.end as int,
                    ),
                decreases end,
            {
                end = end - 1;
            }
            ranges.push(pos.start..end);
        }
        i = i + 1;
    }
    proof {
        assert(blocks@.take(n as int) == blocks@);
    }
    ranges
}

fn ranges_fit_check(blocks: &Vec<MdNode>, len: usize) -> (ok: bool)
    ensures
        ok == ranges_fit(blocks@, len as int),
{
    let n = blocks.len();
    let mut i: usize = 0;
    while i < n
        invariant
            n == blocks@.len(),
            i <= n,
            forall|j: int| 0 <= j < i ==> ((#[trigger] blocks@[j]).position matches Some(pos) ==> pos.start <= pos.end <= len),
        decreases n - i,
    {
        if let Some(pos) = blocks[i].position {
            if pos.start > pos.end || pos.end > len {
                return false;
            }
        }
        i = i + 1;
    }
    true
}

/// The block ranges of `text`; none where the parse fails, or where a
/// block's range does not lie within the text.
pub open spec fn text_block_ranges(text: &str) -> Seq<Range<usize>> {
    match gfm_tree(text@) {
        Some(root) => if ranges_fit(root.children@, text.spec_bytes().len() as int) {
            block_ranges_of(root.children@, text.spec_bytes())
        } else {
            seq![]
        },
        None => seq![],
    }
}

/// The byte range of every top-level block, in document order. Blank lines
/// between blocks belong to no block, and no block ends in a line break.
pub fn block_ranges(text: &str) -> (ranges: Vec<Range<usize>>)
    ensures
        ranges@ == text_block_ranges(text),
{
    match parse_gfm(text) {
        Some(root) => if ranges_fit_check(&root.children, text.as_bytes().len()) {
            block_ranges_in(text, &root)
        } else {
            Vec::new()
        },
        None => Vec::new(),
    }
}

proof fn lemma_trim_breaks_end(bytes: Seq<u8>, start: int, end: int)
    requires
        0 <= start <= end <= bytes.len(),
    ensures
        start <= trim_breaks_end(bytes, start, end) <= end,
        trim_breaks_end(bytes, start, end) > start ==> bytes[trim_breaks_end(bytes, start, end) - 1] != 10
            && bytes[trim_breaks_end(bytes, start, end) - 1] != 13,
        forall|k: int| trim_breaks_end(bytes, start, end) <= k < end ==> #[trigger] bytes[k] == 10 || bytes[k] == 13,
    decreases end - start,
{
    if end > start && (bytes[end - 1] == 10 || bytes[end - 1] == 13) {
        lemma_trim_breaks_end(bytes, start, end - 1);
    }
}

/// A block's range runs forwards within the text and does not end in a
/// line break.
pub open spec fn block_range_trimmed(range: Range<usize>, bytes: Seq<u8>) -> bool {
    &&& range.start <= range.end <= bytes.len()
    &&& range.end > range.start ==> bytes[range.end - 1] != 10 && bytes[range.end - 1] != 13
}

proof fn lemma_block_ranges_of_trimmed(blocks: Seq<MdNode>, bytes: Seq<u8>)
    requires
        ranges_fit(blocks, bytes.len() as int),
    ensures
        forall|i: int|
            0 <= i < block_ranges_of(blocks, bytes).len() ==> block_range_trimmed(
                #[trigger] block_ranges_of(blocks, bytes)[i],
                bytes,
            ),
    decreases blocks.len(),
{
    if blocks.len() > 0 {
        let init = blocks.drop_last();
        assert(ranges_fit(init, bytes.len() as int)) by {
            assert forall|i: int| 0 <= i < init.len() implies ((#[trigger] init[i]).position matches Some(pos)
                ==> pos.start <= pos.end <= bytes.len()) by {
                assert(init[i] == blocks[i]);
            }
        }
        lemma_block_ranges_of_trimmed(init, bytes);
        let last = blocks.last();
        assert(last == blocks[blocks.len() - 1]);
        if let Some(pos) = last.position {
            lemma_trim_breaks_end(bytes, pos.start as int, pos.end as int);
        }
        let all = block_ranges_of(blocks, bytes);
        let before = block_ranges_of(init, bytes);
        assert forall|i: int| 0 <= i < all.len() implies block_range_trimmed(#[trigger] all[i], bytes) by {
            if i < before.len() {
                assert(all[i] == before[i]);
            }
        }
    }
}

/// Every block range of a text runs forwards within it, and none ends in
/// a line break.
pub proof fn lemma_block_ranges_end_before_line_breaks(text: &str)
    ensures
        forall|i: int|
            0 <= i < text_block_ranges(text).len() ==> block_range_trimmed(
                #[trigger] text_block_ranges(text)[i],
                text.spec_bytes(),
            ),
{
    if let Some(root) = gfm_tree(text@) {
        if ranges_fit(root.children@, text.spec_bytes().len() as int) {
            lemma_block_ranges_of_trimmed(root.children@, text.spec_bytes());
        }
    }
}

/// A piece of a range the editor asks about: a byte range and the theme
/// name of its look, or `None` for the default look.
pub type StyledPiece = (Range<usize>, Option<&'static str>);

/// Run `run` reaches into `a..b` from before `b` to past `a`.
pub open spec fn straddles(run: Span, a: int, b: int) -> bool {
    span_start(run) < b && span_end(run) > a
}

/// `piece` is the part of `run` inside `a..b`, with the run's name.
pub open spec fn is_cut_of(piece: StyledPiece, run: Span, a: int, b: int) -> bool {
    &&& straddles(run, a, b)
    &&& piece.1 == Some(run.1)
    &&& piece.0.start == (if span_start(run) > a { span_start(run) } else { a })
    &&& piece.0.end == (if span_end(run) < b { span_end(run) } else { b })
}

/// A named piece is a run cut to the range; a default piece touches no run.
#[verifier::opaque]
pub open spec fn piece_right(runs: Seq<Span>, piece: StyledPiece, a: int, b: int) -> bool {
    match piece.1 {
        Some(_) => exists|q: int| 0 <= q < runs.len() && is_cut_of(piece, #[trigger] runs[q], a, b),
        None => forall|q: int|
            0 <= q < runs.len() ==> span_end(#[trigger] runs[q]) <= piece.0.start || span_start(runs[q]) >= piece.0.end,
    }
}

/// Each piece is non-empty and right, each starts where the one before it
/// ends, and no two default pieces come in a row.
pub open spec fn pieces_right(runs: Seq<Span>, pieces: Seq<StyledPiece>, a: int, b: int) -> bool {
    &&& forall|i: int|
        0 <= i < pieces.len() ==> (#[trigger] pieces[i]).0.start < pieces[i].0.end && piece_right(runs, pieces[i], a, b)
    &&& forall|i: int|
        0 <= i < pieces.len() - 1 ==> (#[trigger] pieces[i]).0.end == pieces[i + 1].0.start && !(pieces[i].1 is None
            && pieces[i + 1].1 is None)
}

/// `pieces` is how `runs` (ordered) style the range `a..b`.
///
/// For a range that runs forwards, the pieces cover it exactly, one after
/// the other: each named piece is the part of a run inside the range, with
/// the run's name; each default piece is a gap that no run touches, and no
/// two gaps come in a row. For a range with `b <= a`, there is one piece
/// `a..b` with the name of the run that straddles it, or none.
pub open spec fn styles_of(runs: Seq<Span>, a: int, b: int, pieces: Seq<StyledPiece>) -> bool {
    &&& a < b ==> {
        &&& pieces.len() > 0
        &&& pieces[0].0.start == a
        &&& pieces.last().0.end == b
        &&& pieces_right(runs, pieces, a, b)
    }
    &&& b <= a ==> {
        ||| pieces.len() == 0 && forall|q: int| 0 <= q < runs.len() ==> !straddles(#[trigger] runs[q], a, b)
        ||| pieces.len() == 1 && exists|q: int|
            0 <= q < runs.len() && straddles(#[trigger] runs[q], a, b) && pieces[0] == (
            a as usize..b as usize,
            Some(runs[q].1),
        )
    }
}

proof fn lemma_push_piece(runs: Seq<Span>, pieces: Seq<StyledPiece>, piece: StyledPiece, a: int, b: int)
    requires
        pieces_right(runs, pieces, a, b),
        piece.0.start < piece.0.end,
        piece_right(runs, piece, a, b),
        pieces.len() > 0 ==> pieces.last().0.end == piece.0.start && !(pieces.last().1 is None && piece.1 is None),
    ensures
        pieces_right(runs, pieces.push(piece), a, b),
{
    let after = pieces.push(piece);
    assert forall|i: int| 0 <= i < after.len() implies (#[trigger] after[i]).0.start < after[i].0.end && piece_right(
        runs,
        after[i],
        a,
        b,
    ) by {
        if i < pieces.len() {
            assert(after[i] == pieces[i]);
        }
    }
    assert forall|i: int| 0 <= i < after.len() - 1 implies (#[trigger] after[i]).0.end == after[i + 1].0.start && !(
    after[i].1 is None && after[i + 1].1 is None) by {
        assert(after[i] == pieces[i]);
        if i < pieces.len() - 1 {
            assert(after[i + 1] == pieces[i + 1]);
        }
    }
}

/// The index of the first of the ordered `runs` that ends after `a`
/// (the runs before it all end by `a`).
fn first_ending_after(runs: &Vec<Span>, a: usize) -> (first: usize)
    requires
        runs_ordered(runs@),
    ensures
        first <= runs@.len(),
        forall|q: int| 0 <= q < first ==> span_end(#[trigger] runs@[q]) <= a,
        forall|q: int| first <= q < runs@.len() ==> span_end(#[trigger] runs@[q]) > a,
{
    let n = runs.len();
    let ghost rs = runs@;
    let mut lo: usize = 0;
    let mut hi: usize = n;
    while lo < hi
        invariant
            n == rs.len(),
            runs@ == rs,
            runs_ordered(rs),
            0 <= lo <= hi <= n,
            forall|q: int| 0 <= q < lo ==> span_end(#[trigger] rs[q]) <= a,
            forall|q: int| hi <= q < n ==> span_end(#[trigger] rs[q]) > a,
        decreases hi - lo,
    {
        let mid = lo + (hi - lo) / 2;
        if runs[mid].0.end <= a {
            assert forall|q: int| 0 <= q < mid + 1 implies span_end(#[trigger] rs[q]) <= a by {
                if q < mid {
                    assert(span_end(rs[q]) <= span_start(rs[mid as int]));
                }
            }
            lo = mid + 1;
        } else {
            assert forall|q: int| mid <= q < n implies span_end(#[trigger] rs[q]) > a by {
                if q > mid {
                    assert(span_end(rs[mid as int]) <= span_start(rs[q]));
                }
            }
            hi = mid;
        }
    }
    lo
}

/// The highlighter of one editor: the runs of its text.
pub struct MarkdownHighlighter {
    runs: Vec<Span>,
}

impl View for MarkdownHighlighter {
    type V = Seq<Span>;

    closed spec fn view(&self) -> Seq<Span> {
        self.runs@
    }
}

impl MarkdownHighlighter {
    #[verifier::type_invariant]
    spec fn runs_in_order(&self) -> bool {
        runs_ordered(self.runs@)
    }

    /// A highlighter with no text yet.
    pub fn new() -> (highlighter: Self)
        ensures
            highlighter@.len() == 0,
    {
        MarkdownHighlighter { runs: Vec::new() }
    }

    /// Re-parse the whole text and keep its runs.
    pub fn update(&mut self, text: &str)
        ensures
            flattens(text_spans(text@), final(self)@),
    {
        let flat = runs(spans(text));
        self.runs = flat;
    }

    /// The looks across `range`: the runs inside it, cut to it, with
    /// default pieces in the gaps.
    pub fn styles(&self, range: &Range<usize>) -> (pieces: Vec<StyledPiece>)
        ensures
            styles_of(self@, range.start as int, range.end as int, pieces@),
    {
        proof {
            use_type_invariant(self);
        }
        let a = range.start;
        let b = range.end;
        let runs = &self.runs;
        let n = runs.len();
        let ghost rs = runs@;
        let first = first_ending_after(runs, a);
        let mut pieces: Vec<StyledPiece> = Vec::new();
        let mut pos = a;
        let mut q = first;
        while q < n
            invariant
                n == rs.len(),
                runs@ == rs,
                runs_ordered(rs),
                first <= q <= n,
                forall|j: int| 0 <= j < first ==> span_end(#[trigger] rs[j]) <= a,
                forall|j: int| first <= j < n ==> span_end(#[trigger] rs[j]) > a,
                forall|j: int| first <= j < q ==> span_start(#[trigger] rs[j]) < b,
                q == first ==> pos == a && pieces@.len() == 0,
                q > first ==> pos == (if span_end(rs[q - 1]) < b { span_end(rs[q - 1]) } else { b as int }),
                b <= a ==> q <= first + 1,
                b <= a && q == first + 1 ==> pieces@ == seq![(a..b, Some(rs[first as int].1))],
                a < b ==> a <= pos <= b,
                a < b && pieces@.len() > 0 ==> pieces@[0].0.start == a && pieces@.last().0.end == pos
                    && pieces@.last().1 is Some,
                a < b && pieces@.len() == 0 ==> pos == a,
                a < b && pos < b ==> forall|j: int| 0 <= j < q ==> span_end(#[trigger] rs[j]) <= pos,
                a < b ==> pieces_right(rs, pieces@, a as int, b as int),
            ensures
                q == n || span_start(rs[q as int]) >= b,
            decreases n - q,
        {
            let run_start = runs[q].0.start;
            let run_end = runs[q].0.end;
            let name = runs[q].1;
            if run_start >= b {
                break;
            }
            let start = if run_start > a { run_start } else { a };
            let end = if run_end < b { run_end } else { b };
            proof {
                if q > first {
                    assert(span_end(rs[q - 1]) <= span_start(rs[q as int]));
                }
                assert forall|j: int| q < j < n implies span_start(#[trigger] rs[j]) >= run_end by {
                    assert(span_end(rs[q as int]) <= span_start(rs[j]));
                }
            }
            let ghost before = pieces@;
            if start > pos {
                pieces.push((pos..start, None));
            }
            pieces.push((start..end, Some(name)));
            proof {
                if a < b {
                    lemma_styles_step(rs, a, b, before, pieces@, pos, q as int, start, end);
                }
            }
            pos = end;
            q = q + 1;
        }
        let ghost before = pieces@;
        if pos < b {
            pieces.push((pos..b, None));
        }
        proof {
            if a < b {
                assert forall|j: int| q <= j < n implies span_start(#[trigger] rs[j]) >= b by {
                    if j > q {
                        assert(span_end(rs[q as int]) <= span_start(rs[j]));
                        assert(span_start(rs[q as int]) < span_end(rs[q as int]));
                    }
                }
                lemma_styles_end(rs, a, b, before, pieces@, pos, q as int);
            } else {
                if q == first {
                    assert forall|j: int| 0 <= j < n implies !straddles(#[trigger] rs[j], a as int, b as int) by {
                        if j > first {
                            assert(span_end(rs[first as int]) <= span_start(rs[j]));
                            assert(span_start(rs[first as int]) < span_end(rs[first as int]));
                        }
                    }
                } else {
                    assert(straddles(rs[first as int], a as int, b as int));
                }
            }
        }
        pieces
    }
}

proof fn lemma_styles_step(
    rs: Seq<Span>,
    a: usize,
    b: usize,
    before: Seq<StyledPiece>,
    after: Seq<StyledPiece>,
    pos: usize,
    q: int,
    start: usize,
    end: usize,
)
    requires
        a < b,
        0 <= q < rs.len(),
        pieces_right(rs, before, a as int, b as int),
        a <= pos <= start,
        before.len() > 0 ==> before[0].0.start == a && before.last().0.end == pos && before.last().1 is Some,
        before.len() == 0 ==> pos == a,
        span_start(rs[q]) < b,
        span_end(rs[q]) > a,
        start == (if span_start(rs[q]) > a { span_start(rs[q]) } else { a as int }),
        end == (if span_end(rs[q]) < b { span_end(rs[q]) } else { b as int }),
        pos < start ==> forall|j: int| 0 <= j < q ==> span_end(#[trigger] rs[j]) <= pos,
        forall|j: int| q < j < rs.len() ==> span_start(#[trigger] rs[j]) >= span_end(rs[q]),
        start < end,
        after == if start > pos {
            before.push((pos..start, None)).push((start..end, Some(rs[q].1)))
        } else {
            before.push((start..end, Some(rs[q].1)))
        },
    ensures
        pieces_right(rs, after, a as int, b as int),
        after[0].0.start == a,
        after.last().0.end == end,
        after.last().1 is Some,
{
    reveal(piece_right);
    let named: StyledPiece = (start..end, Some(rs[q].1));
    assert(is_cut_of(named, rs[q], a as int, b as int));
    assert(piece_right(rs, named, a as int, b as int));
    if start > pos {
        let gap: StyledPiece = (pos..start, None);
        assert forall|j: int| 0 <= j < rs.len() implies span_end(#[trigger] rs[j]) <= gap.0.start || span_start(rs[j])
            >= gap.0.end by {
            if j > q {
                assert(span_start(rs[j]) >= span_end(rs[q]));
            }
        }
        assert(piece_right(rs, gap, a as int, b as int));
        lemma_push_piece(rs, before, gap, a as int, b as int);
        let mid = before.push(gap);
        assert(mid.last() == gap);
        lemma_push_piece(rs, mid, named, a as int, b as int);
        assert(after[0].0.start == a) by {
            if before.len() > 0 {
                assert(after[0] == before[0]);
            }
        }
    } else {
        lemma_push_piece(rs, before, named, a as int, b as int);
        assert(after[0].0.start == a) by {
            if before.len() > 0 {
                assert(after[0] == before[0]);
            }
        }
    }
}

proof fn lemma_styles_end(
    rs: Seq<Span>,
    a: usize,
    b: usize,
    before: Seq<StyledPiece>,
    after: Seq<StyledPiece>,
    pos: usize,
    q: int,
)
    requires
        a < b,
        0 <= q <= rs.len(),
        pieces_right(rs, before, a as int, b as int),
        a <= pos <= b,
        before.len() > 0 ==> before[0].0.start == a && before.last().0.end == pos && before.last().1 is Some,
        before.len() == 0 ==> pos == a,
        pos < b ==> forall|j: int| 0 <= j < q ==> span_end(#[trigger] rs[j]) <= pos,
        forall|j: int| q <= j < rs.len() ==> span_start(#[trigger] rs[j]) >= b,
        after == if pos < b { before.push((pos..b, None)) } else { before },
    ensures
        styles_of(rs, a as int, b as int, after),
{
    reveal(piece_right);
    if pos < b {
        let gap: StyledPiece = (pos..b, None);
        assert(piece_right(rs, gap, a as int, b as int));
        lemma_push_piece(rs, before, gap, a as int, b as int);
        assert(after[0].0.start == a) by {
            if before.len() > 0 {
                assert(after[0] == before[0]);
            }
        }
    }
}

impl Default for MarkdownHighlighter {
    fn default() -> (highlighter: Self)
        ensures
            highlighter@.len() == 0,
    {
        MarkdownHighlighter::new()
    }
}


/// A node that links somewhere: a link, an image, a reference to either, a
/// definition, or a footnote reference or definition.
pub open spec fn links_elsewhere(kind: NodeKind) -> bool {
    ||| kind == NodeKind::Link
    ||| kind == NodeKind::Image
    ||| kind == NodeKind::LinkReference
    ||| kind == NodeKind::ImageReference
    ||| kind == NodeKind::Definition
    ||| kind == NodeKind::FootnoteReference
    ||| kind == NodeKind::FootnoteDefinition
}

/// Images, links and the other nodes that link somewhere are all
/// highlighted alike, whatever encloses them: such a node with a non-empty
/// position gives a span over its range named `link_uri`, and the text
/// directly inside it is named `link_text`.
pub proof fn lemma_linking_nodes_look_like_links(node: MdNode, parent: Option<Style>, child_text: MdNode)
    requires
        links_elsewhere(node.kind),
        child_text.kind == NodeKind::Text,
    ensures
        node.position is Some && node.position->0.start < node.position->0.end ==> own_span(node, parent)
            == seq![(node.position->0.start..node.position->0.end, "link_uri")],
        child_text.position is Some && child_text.position->0.start < child_text.position->0.end ==> own_span(
            child_text,
            inherited(node, parent),
        ) == seq![(child_text.position->0.start..child_text.position->0.end, "link_text")],
{
}


/// What a node with a non-empty position contributes by itself, by its
/// kind and whatever encloses it: a heading is a title, strong text is
/// `emphasis.strong`, emphasis is `emphasis`, struck-out text and raw HTML
/// are comments, code is a string, a thematic break is punctuation; plain
/// text and the other kinds contribute nothing, except text directly
/// inside a node that links somewhere.
pub proof fn lemma_node_looks(node: MdNode, parent: Option<Style>)
    requires
        node.position is Some,
        node.position->0.start < node.position->0.end,
    ensures
        ({
            let range = node.position->0.start..node.position->0.end;
            &&& node.kind == NodeKind::Heading ==> own_span(node, parent) == seq![(range, "title")]
            &&& node.kind == NodeKind::Strong ==> own_span(node, parent) == seq![(range, "emphasis.strong")]
            &&& node.kind == NodeKind::Emphasis ==> own_span(node, parent) == seq![(range, "emphasis")]
            &&& (node.kind == NodeKind::Delete || node.kind == NodeKind::Html) ==> own_span(node, parent) == seq![
                (range, "comment"),
            ]
            &&& (node.kind == NodeKind::InlineCode || node.kind == NodeKind::Code) ==> own_span(node, parent)
                == seq![(range, "string")]
            &&& node.kind == NodeKind::ThematicBreak ==> own_span(node, parent) == seq![(range, "punctuation")]
            &&& node.kind == NodeKind::Other ==> own_span(node, parent).len() == 0
            &&& node.kind == NodeKind::Text && parent != Some(Style::LinkUri) ==> own_span(node, parent).len() == 0
        }),
{
}


/// The top-level blocks that have a position, in order.
pub open spec fn positioned(blocks: Seq<MdNode>) -> Seq<MdNode> {
    blocks.filter(|b: MdNode| b.position is Some)
}

/// Every block with a position gets one start line, in order, whatever
/// its kind: the `i`-th line is the 0-based line the `i`-th positioned
/// block starts on.
pub proof fn lemma_start_lines_one_per_block(blocks: Seq<MdNode>)
    requires
        lines_count_from_one(blocks),
    ensures
        start_lines(blocks).len() == positioned(blocks).len(),
        forall|i: int|
            0 <= i < start_lines(blocks).len() ==> #[trigger] start_lines(blocks)[i] as int == positioned(
                blocks,
            )[i].position->0.start_line - 1,
    decreases blocks.len(),
{
    if blocks.len() > 0 {
        let init = blocks.drop_last();
        assert(lines_count_from_one(init)) by {
            assert forall|i: int| 0 <= i < init.len() implies ((#[trigger] init[i]).position matches Some(pos)
                ==> pos.start_line >= 1) by {
                assert(init[i] == blocks[i]);
            }
        }
        lemma_start_lines_one_per_block(init);
        assert(blocks.last() == blocks[blocks.len() - 1]);
        let all = start_lines(blocks);
        let before = start_lines(init);
        let p = positioned(blocks);
        let q = positioned(init);
        reveal(Seq::filter);
        assert(p == (if blocks.last().position is Some {
            q.push(blocks.last())
        } else {
            q
        }));
        assert forall|i: int| 0 <= i < all.len() implies #[trigger] all[i] as int == p[i].position->0.start_line
            - 1 by {
            if i < before.len() {
                assert(all[i] == before[i]);
                assert(p[i] == q[i]);
            }
        }
    }
}

/// The 0-based start lines of `text`'s top-level blocks are one per block
/// with a position, in order, whatever its kind.
pub proof fn lemma_block_start_lines_one_per_block(text: Seq<char>)
    requires
        gfm_tree(text) is Some,
        lines_count_from_one(gfm_tree(text)->0.children@),
    ensures
        ({
            let blocks = positioned(gfm_tree(text)->0.children@);
            &&& text_block_start_lines(text).len() == blocks.len()
            &&& forall|i: int|
                0 <= i < blocks.len() ==> #[trigger] text_block_start_lines(text)[i] as int
                    == blocks[i].position->0.start_line - 1
        }),
{
    lemma_start_lines_one_per_block(gfm_tree(text)->0.children@);
}

/// Every block with a position gets one range, in order, whatever its
/// kind: the `i`-th range starts where the `i`-th positioned block starts,
/// and ends where it ends less the line breaks at its end.
pub proof fn lemma_block_ranges_one_per_block(blocks: Seq<MdNode>, bytes: Seq<u8>)
    requires
        ranges_fit(blocks, bytes.len() as int),
    ensures
        block_ranges_of(blocks, bytes).len() == positioned(blocks).len(),
        forall|i: int|
            0 <= i < block_ranges_of(blocks, bytes).len() ==> {
                let range = #[trigger] block_ranges_of(blocks, bytes)[i];
                let pos = positioned(blocks)[i].position->0;
                &&& range.start == pos.start
                &&& range.start <= range.end <= pos.end
                &&& forall|k: int| range.end <= k < pos.end ==> #[trigger] bytes[k] == 10 || bytes[k] == 13
                &&& range.end > range.start ==> bytes[range.end - 1] != 10 && bytes[range.end - 1] != 13
            },
    decreases blocks.len(),
{
    if blocks.len() > 0 {
        let init = blocks.drop_last();
        assert(ranges_fit(init, bytes.len() as int)) by {
            assert forall|i: int| 0 <= i < init.len() implies ((#[trigger] init[i]).position matches Some(pos)
                ==> pos.start <= pos.end <= bytes.len()) by {
                assert(init[i] == blocks[i]);
            }
        }
        lemma_block_ranges_one_per_block(init, bytes);
        let last = blocks.last();
        assert(last == blocks[blocks.len() - 1]);
        if let Some(pos) = last.position {
            lemma_trim_breaks_end(bytes, pos.start as int, pos.end as int);
        }
        let all = block_ranges_of(blocks, bytes);
        let before = block_ranges_of(init, bytes);
        let p = positioned(blocks);
        let q = positioned(init);
        reveal(Seq::filter);
        assert(p == (if blocks.last().position is Some {
            q.push(blocks.last())
        } else {
            q
        }));
        assert forall|i: int| 0 <= i < all.len() implies {
            let range = #[trigger] all[i];
            let pos = p[i].position->0;
            &&& range.start == pos.start
            &&& range.start <= range.end <= pos.end
            &&& forall|k: int| range.end <= k < pos.end ==> #[trigger] bytes[k] == 10 || bytes[k] == 13
            &&& range.end > range.start ==> bytes[range.end - 1] != 10 && bytes[range.end - 1] != 13
        } by {
            if i < before.len() {
                assert(all[i] == before[i]);
                assert(p[i] == q[i]);
            }
        }
    }
}

/// The block ranges of `text` are one per top-level block with a
/// position, in order, whatever its kind, each from the block's start to
/// its end less the line breaks at its end.
pub proof fn lemma_text_block_ranges_one_per_block(text: &str)
    requires
        gfm_tree(text@) is Some,
        ranges_fit(gfm_tree(text@)->0.children@, text.spec_bytes().len() as int),
    ensures
        ({
            let blocks = positioned(gfm_tree(text@)->0.children@);
            let ranges = text_block_ranges(text);
            let bytes = text.spec_bytes();
            &&& ranges.len() == blocks.len()
            &&& forall|i: int|
                0 <= i < ranges.len() ==> {
                    let pos = blocks[i].position->0;
                    &&& (#[trigger] ranges[i]).start == pos.start
                    &&& ranges[i].start <= ranges[i].end <= pos.end
                    &&& forall|k: int| ranges[i].end <= k < pos.end ==> #[trigger] bytes[k] == 10 || bytes[k] == 13
                    &&& ranges[i].end > ranges[i].start ==> bytes[ranges[i].end - 1] != 10 && bytes[ranges[i].end
                        - 1] != 13
                }
        }),
{
    lemma_block_ranges_one_per_block(gfm_tree(text@)->0.children@, text.spec_bytes());
}

} // verus!
