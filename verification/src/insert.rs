//! Block snippets offered by the insert menu on an empty line.
//!
//! The menu is the Feishu-style "+" on an empty line (or `/` typed on one).
//! Choosing an entry replaces that line with a Markdown skeleton and places
//! the cursor where typing continues. The editor's text is given as a
//! string and its cursor as a row; the plan says what to replace and where
//! the cursor goes.

use std::ops::Range;
use vstd::prelude::*;
use vstd::string::StringSliceAdditionalSpecFns;
use vstd::string::StrSliceExecFns;
use vstd::string::StringExecFns;
use vstd::utf8::*;

use crate::text::{
    has_crlf, has_crlf_before,
    lemma_ascii_byte_boundaries, lemma_boundary_inside, lemma_encode_concat, lemma_text_of_bytes, substring, trim, trim_ws,
};

verus! {

#[derive(Clone, Copy, Debug, PartialEq, Eq, Structural)]
pub enum BlockKind {
    Heading1,
    Heading2,
    Heading3,
    BulletList,
    NumberedList,
    TaskList,
    Quote,
    CodeBlock,
    Table,
    Divider,
    Image,
    Link,
}

/// The menu, top to bottom. `None` is a separator.
pub open spec fn menu_entries() -> Seq<Option<BlockKind>> {
    seq![
        Some(BlockKind::Heading1),
        Some(BlockKind::Heading2),
        Some(BlockKind::Heading3),
        None,
        Some(BlockKind::BulletList),
        Some(BlockKind::NumberedList),
        Some(BlockKind::TaskList),
        None,
        Some(BlockKind::Quote),
        Some(BlockKind::CodeBlock),
        Some(BlockKind::Table),
        Some(BlockKind::Divider),
        None,
        Some(BlockKind::Image),
        Some(BlockKind::Link),
    ]
}

/// The menu, top to bottom. `None` is a separator.
pub fn menu() -> (entries: [Option<BlockKind>; 15])
    ensures
        entries@ == menu_entries(),
{
    let entries = [
        Some(BlockKind::Heading1),
        Some(BlockKind::Heading2),
        Some(BlockKind::Heading3),
        None,
        Some(BlockKind::BulletList),
        Some(BlockKind::NumberedList),
        Some(BlockKind::TaskList),
        None,
        Some(BlockKind::Quote),
        Some(BlockKind::CodeBlock),
        Some(BlockKind::Table),
        Some(BlockKind::Divider),
        None,
        Some(BlockKind::Image),
        Some(BlockKind::Link),
    ];
    assert(entries@ =~= menu_entries());
    entries
}

/// The menu starts and ends with a block, and never has two separators in
/// a row.
pub proof fn lemma_menu_separators()
    ensures
        menu_entries()[0] is Some,
        menu_entries().last() is Some,
        forall|i: int| 0 <= i < menu_entries().len() - 1 ==> !(#[trigger] menu_entries()[i] is None && menu_entries()[i + 1] is None),
{
}

pub open spec fn block_label(kind: BlockKind) -> &'static str {
    match kind {
        BlockKind::Heading1 => "Heading 1",
        BlockKind::Heading2 => "Heading 2",
        BlockKind::Heading3 => "Heading 3",
        BlockKind::BulletList => "Bullet list",
        BlockKind::NumberedList => "Numbered list",
        BlockKind::TaskList => "Task list",
        BlockKind::Quote => "Quote",
        BlockKind::CodeBlock => "Code block",
        BlockKind::Table => "Table",
        BlockKind::Divider => "Divider",
        BlockKind::Image => "Image",
        BlockKind::Link => "Link",
    }
}

/// The text that replaces the line, and the byte offset inside it where
/// the cursor goes.
pub open spec fn block_snippet(kind: BlockKind) -> (&'static str, usize) {
    match kind {
        BlockKind::Heading1 => ("# ", 2),
        BlockKind::Heading2 => ("## ", 3),
        BlockKind::Heading3 => ("### ", 4),
        BlockKind::BulletList => ("- ", 2),
        BlockKind::NumberedList => ("1. ", 3),
        BlockKind::TaskList => ("- [ ] ", 6),
        BlockKind::Quote => ("> ", 2),
        BlockKind::CodeBlock => ("```\n\n```", 4),
        BlockKind::Table => ("| Column | Column |\n| --- | --- |\n|  |  |", 2),
        BlockKind::Divider => ("---\n", 4),
        BlockKind::Image => ("![](", 2),
        BlockKind::Link => ("[](", 1),
    }
}

impl BlockKind {
    pub fn label(self) -> (label: &'static str)
        ensures
            label == block_label(self),
    {
        match self {
            BlockKind::Heading1 => "Heading 1",
            BlockKind::Heading2 => "Heading 2",
            BlockKind::Heading3 => "Heading 3",
            BlockKind::BulletList => "Bullet list",
            BlockKind::NumberedList => "Numbered list",
            BlockKind::TaskList => "Task list",
            BlockKind::Quote => "Quote",
            BlockKind::CodeBlock => "Code block",
            BlockKind::Table => "Table",
            BlockKind::Divider => "Divider",
            BlockKind::Image => "Image",
            BlockKind::Link => "Link",
        }
    }

    /// The text that replaces the line, and the byte offset inside it where
    /// the cursor goes.
    pub fn snippet(self) -> (snippet: (&'static str, usize))
        ensures
            snippet == block_snippet(self),
    {
        match self {
            BlockKind::Heading1 => ("# ", 2),
            BlockKind::Heading2 => ("## ", 3),
            BlockKind::Heading3 => ("### ", 4),
            BlockKind::BulletList => ("- ", 2),
            BlockKind::NumberedList => ("1. ", 3),
            BlockKind::TaskList => ("- [ ] ", 6),
            BlockKind::Quote => ("> ", 2),
            BlockKind::CodeBlock => ("```\n\n```", 4),
            BlockKind::Table => ("| Column | Column |\n| --- | --- |\n|  |  |", 2),
            BlockKind::Divider => ("---\n", 4),
            BlockKind::Image => ("![](", 2),
            BlockKind::Link => ("[](", 1),
        }
    }
}

/// Every snippet's cursor lies within the snippet, on a character boundary.
pub proof fn lemma_snippet_cursor_on_boundary(kind: BlockKind)
    ensures
        block_snippet(kind).1 <= block_snippet(kind).0.spec_bytes().len(),
        is_char_boundary(block_snippet(kind).0.spec_bytes(), block_snippet(kind).1 as int),
{
    let (snippet, cursor) = block_snippet(kind);
    match kind {
        BlockKind::Heading1 => reveal_strlit("# "),
        BlockKind::Heading2 => reveal_strlit("## "),
        BlockKind::Heading3 => reveal_strlit("### "),
        BlockKind::BulletList => reveal_strlit("- "),
        BlockKind::NumberedList => reveal_strlit("1. "),
        BlockKind::TaskList => reveal_strlit("- [ ] "),
        BlockKind::Quote => reveal_strlit("> "),
        BlockKind::CodeBlock => reveal_strlit("```\n\n```"),
        BlockKind::Table => reveal_strlit("| Column | Column |\n| --- | --- |\n|  |  |"),
        BlockKind::Divider => reveal_strlit("---\n"),
        BlockKind::Image => reveal_strlit("![](", ),
        BlockKind::Link => reveal_strlit("[](", ),
    }
    assert(is_ascii_chars(snippet@));
    is_ascii_chars_encode_utf8(snippet@);
    lemma_text_of_bytes(snippet);
    let bytes = snippet.spec_bytes();
    if (cursor as int) < bytes.len() {
        assert(bytes[cursor as int] == snippet@[cursor as int] as u8);
        lemma_ascii_byte_boundaries(bytes, cursor as int);
    } else {
        is_char_boundary_start_end_of_seq(bytes);
    }
}

/// The first line break (`\n`) at or after byte `from`, or the end of the
/// text.
pub open spec fn next_break(bytes: Seq<u8>, from: int) -> int
    decreases bytes.len() - from,
{
    if from >= bytes.len() {
        bytes.len() as int
    } else if bytes[from] == 10 {
        from
    } else {
        next_break(bytes, from + 1)
    }
}

/// Where line `row` starts; rows count from 0 and end at `\n`.
pub open spec fn line_start(bytes: Seq<u8>, row: nat) -> int
    decreases row,
{
    if row == 0 {
        0
    } else {
        next_break(bytes, line_start(bytes, (row - 1) as nat)) + 1
    }
}

/// The text has a line `row`.
pub open spec fn has_row(bytes: Seq<u8>, row: nat) -> bool {
    line_start(bytes, row) <= bytes.len()
}

/// Where the content of line `row` ends: before its `\n`, and before the
/// `\r` of a `\r\n`.
pub open spec fn line_content_end(bytes: Seq<u8>, row: nat) -> int {
    let start = line_start(bytes, row);
    let end = next_break(bytes, start);
    if end > start && bytes[end - 1] == 13 {
        end - 1
    } else {
        end
    }
}

/// The characters of line `row`, without its line break.
pub open spec fn line_chars(bytes: Seq<u8>, row: nat) -> Seq<char> {
    decode_utf8(bytes.subrange(line_start(bytes, row), line_content_end(bytes, row)))
}

proof fn lemma_next_break(bytes: Seq<u8>, from: int)
    requires
        0 <= from <= bytes.len(),
    ensures
        from <= next_break(bytes, from) <= bytes.len(),
        next_break(bytes, from) < bytes.len() ==> bytes[next_break(bytes, from)] == 10,
        forall|i: int| from <= i < next_break(bytes, from) ==> bytes[i] != 10,
    decreases bytes.len() - from,
{
    if from < bytes.len() && bytes[from] != 10 {
        lemma_next_break(bytes, from + 1);
    }
}

proof fn lemma_next_break_nonneg(bytes: Seq<u8>, from: int)
    requires
        0 <= from,
    ensures
        0 <= next_break(bytes, from),
    decreases bytes.len() - from,
{
    if from < bytes.len() && bytes[from] != 10 {
        lemma_next_break_nonneg(bytes, from + 1);
    }
}

proof fn lemma_line_start_nonneg(bytes: Seq<u8>, row: nat)
    ensures
        0 <= line_start(bytes, row),
    decreases row,
{
    if row > 0 {
        lemma_line_start_nonneg(bytes, (row - 1) as nat);
        lemma_next_break_nonneg(bytes, line_start(bytes, (row - 1) as nat));
    }
}

proof fn lemma_has_row_prev(bytes: Seq<u8>, row: nat)
    requires
        row > 0,
        has_row(bytes, row),
    ensures
        has_row(bytes, (row - 1) as nat),
        line_start(bytes, (row - 1) as nat) < line_start(bytes, row),
        next_break(bytes, line_start(bytes, (row - 1) as nat)) < bytes.len(),
{
    let p = line_start(bytes, (row - 1) as nat);
    lemma_line_start_nonneg(bytes, (row - 1) as nat);
    if p <= bytes.len() {
        lemma_next_break(bytes, p);
    }
}

proof fn lemma_line_start_grows(bytes: Seq<u8>, r: nat, row: nat)
    requires
        r < row,
        has_row(bytes, row),
    ensures
        0 <= line_start(bytes, r) < line_start(bytes, row),
        next_break(bytes, line_start(bytes, r)) < bytes.len(),
    decreases row - r,
{
    lemma_has_row_prev(bytes, row);
    lemma_line_start_nonneg(bytes, r);
    if r + 1 < row {
        lemma_line_start_grows(bytes, r, (row - 1) as nat);
    }
}

proof fn lemma_line_bounds(bytes: Seq<u8>, row: nat)
    requires
        has_row(bytes, row),
    ensures
        0 <= line_start(bytes, row) <= line_content_end(bytes, row) <= next_break(bytes, line_start(bytes, row))
            <= bytes.len(),
        line_start(bytes, row) > 0 ==> bytes[line_start(bytes, row) - 1] == 10,
        next_break(bytes, line_start(bytes, row)) < bytes.len() ==> bytes[next_break(bytes, line_start(bytes, row))]
            == 10,
        line_content_end(bytes, row) < next_break(bytes, line_start(bytes, row)) ==> bytes[line_content_end(
            bytes,
            row,
        )] == 13,
{
    if row > 0 {
        lemma_line_start_grows(bytes, (row - 1) as nat, row);
        lemma_next_break(bytes, line_start(bytes, (row - 1) as nat));
    }
    lemma_next_break(bytes, line_start(bytes, row));
}

/// The first line break at or after `from`, or the end.
fn find_break(bytes: &[u8], from: usize) -> (at: usize)
    requires
        from <= bytes@.len(),
    ensures
        at == next_break(bytes@, from as int),
{
    let mut i = from;
    while i < bytes.len() && bytes[i] != 10u8
        invariant
            from <= i <= bytes@.len(),
            next_break(bytes@, i as int) == next_break(bytes@, from as int),
        decreases bytes@.len() - i,
    {
        i = i + 1;
    }
    i
}

/// Byte range of the cursor's line, without its line break (`\r\n`
/// included).
pub fn cursor_line_range(text: &str, row: usize) -> (range: Range<usize>)
    requires
        has_row(text.spec_bytes(), row as nat),
    ensures
        range.start == line_start(text.spec_bytes(), row as nat),
        range.end == line_content_end(text.spec_bytes(), row as nat),
{
    let bytes = text.as_bytes();
    let ghost b = bytes@;
    let mut start: usize = 0;
    let mut r: usize = 0;
    while r < row
        invariant
            b == text.spec_bytes(),
            bytes@ == b,
            r <= row,
            has_row(b, row as nat),
            start == line_start(b, r as nat),
        decreases row - r,
    {
        proof {
            lemma_line_start_grows(b, r as nat, row as nat);
        }
        let at = find_break(bytes, start);
        assert(at < bytes.len());
        start = at + 1;
        r = r + 1;
    }
    proof {
        lemma_line_bounds(b, row as nat);
    }
    let mut end = find_break(bytes, start);
    if end > start && bytes[end - 1] == 13u8 {
        end = end - 1;
    }
    start..end
}

/// How many line breaks (`\n`) come before byte `c`.
pub open spec fn breaks_before(bytes: Seq<u8>, c: int) -> nat
    decreases c,
{
    if c <= 0 {
        0
    } else {
        breaks_before(bytes, c - 1) + if bytes[c - 1] == 10 {
            1nat
        } else {
            0nat
        }
    }
}

proof fn lemma_breaks_before_row(bytes: Seq<u8>, c: int)
    requires
        0 <= c <= bytes.len(),
    ensures
        line_start(bytes, breaks_before(bytes, c)) <= c,
    decreases c,
{
    if c > 0 {
        lemma_breaks_before_row(bytes, c - 1);
        let k = breaks_before(bytes, c - 1);
        if bytes[c - 1] == 10 {
            let p = line_start(bytes, k);
            lemma_line_start_nonneg(bytes, k);
            lemma_next_break(bytes, p);
            assert(breaks_before(bytes, c) == k + 1);
            assert(line_start(bytes, (k + 1) as nat) == next_break(bytes, p) + 1);
        }
    }
}

/// The row of the cursor at byte `cursor` (or at the end of the text,
/// where `cursor` lies beyond it): the line breaks before it. The text has
/// that row.
pub fn cursor_row(text: &str, cursor: usize) -> (row: usize)
    ensures
        row == breaks_before(text.spec_bytes(), if cursor < text.spec_bytes().len() {
            cursor as int
        } else {
            text.spec_bytes().len() as int
        }),
        has_row(text.spec_bytes(), row as nat),
{
    let bytes = text.as_bytes();
    let end = if cursor < bytes.len() {
        cursor
    } else {
        bytes.len()
    };
    let mut row: usize = 0;
    let mut i: usize = 0;
    while i < end
        invariant
            end <= bytes@.len(),
            i <= end,
            row == breaks_before(bytes@, i as int),
            row <= i,
        decreases end - i,
    {
        if bytes[i] == 10u8 {
            row = row + 1;
        }
        i = i + 1;
    }
    proof {
        lemma_breaks_before_row(bytes@, end as int);
    }
    row
}

/// What the cursor's line holds, with surrounding whitespace removed.
pub fn cursor_line_trimmed(text: &str, row: usize) -> (trimmed: String)
    requires
        has_row(text.spec_bytes(), row as nat),
    ensures
        trimmed@ == trim_ws(line_chars(text.spec_bytes(), row as nat)),
{
    let range = cursor_line_range(text, row);
    let ghost b = text.spec_bytes();
    proof {
        lemma_line_bounds(b, row as nat);
        lemma_text_of_bytes(text);
        is_char_boundary_start_end_of_seq(b);
        if range.start > 0 {
            lemma_ascii_byte_boundaries(b, range.start - 1);
        }
        if range.end < b.len() {
            lemma_ascii_byte_boundaries(b, range.end as int);
        }
    }
    let line = substring(text, range.start, range.end);
    proof {
        lemma_text_of_bytes(line);
    }
    trim(line).to_owned()
}

/// What putting a block on the cursor's line does to the editor: the
/// bytes `target` are replaced by `text`, then the cursor goes to the byte
/// `cursor`.
#[derive(Debug)]
pub struct InsertPlan {
    pub target: Range<usize>,
    pub text: String,
    pub cursor: usize,
}

/// The line is blank, or holds only the `/` that opened the menu (with
/// whitespace around it).
pub open spec fn line_takes_block(bytes: Seq<u8>, row: nat) -> bool {
    let trimmed = trim_ws(line_chars(bytes, row));
    trimmed.len() == 0 || trimmed == seq!['/']
}

/// The document's own line ending at line `row`: `\r\n` where the line
/// ends with one, or where it is the last line (it runs to the end of the
/// text) and the text uses `\r\n` elsewhere; else `\n`.
pub open spec fn line_break_of(bytes: Seq<u8>, row: nat) -> Seq<char> {
    let end = line_content_end(bytes, row);
    if end < bytes.len() && bytes[end] == 13 {
        seq!['\r', '\n']
    } else if end == bytes.len() && has_crlf(bytes) {
        seq!['\r', '\n']
    } else {
        seq!['\n']
    }
}

/// What putting the block `kind` on line `row` does: the bytes
/// `.0..1` are replaced by the characters `.2`, and the cursor goes to the
/// byte `.3`. A line that takes the block is replaced by the skeleton; any
/// other line keeps its content and gets the skeleton on a new line below,
/// with the line's own kind of line break.
pub open spec fn planned_insert(bytes: Seq<u8>, row: nat, kind: BlockKind) -> (int, int, Seq<char>, int) {
    let start = line_start(bytes, row);
    let end = line_content_end(bytes, row);
    let snippet = block_snippet(kind);
    if line_takes_block(bytes, row) {
        (start, end, snippet.0@, start + snippet.1)
    } else {
        (end, end, line_break_of(bytes, row) + snippet.0@, end + line_break_of(bytes, row).len() + snippet.1)
    }
}

/// Put the block's skeleton at the cursor's line (row `row`) and place the
/// cursor.
///
/// A blank line (or the `/` that opened the menu) is replaced. A line with
/// content keeps it: the skeleton goes on a new line below, with the
/// document's own line ending.
pub fn insert_block(text: &str, row: usize, kind: BlockKind) -> (plan: InsertPlan)
    requires
        has_row(text.spec_bytes(), row as nat),
        text.spec_bytes().len() + 8 <= usize::MAX,
    ensures
        ({
            let planned = planned_insert(text.spec_bytes(), row as nat, kind);
            &&& plan.target.start == planned.0
            &&& plan.target.end == planned.1
            &&& plan.text@ == planned.2
            &&& plan.cursor == planned.3
        }),
{
    let line = cursor_line_range(text, row);
    let (snippet, cursor) = kind.snippet();
    let trimmed = cursor_line_trimmed(text, row);
    let t = trimmed.as_str();
    let len = t.unicode_len();
    proof {
        lemma_line_bounds(text.spec_bytes(), row as nat);
    }
    if len == 0 || (len == 1 && t.get_char(0) == '/') {
        assert(len == 1 ==> t@ =~= seq!['/']);
        InsertPlan { target: line.start..line.end, text: snippet.to_owned(), cursor: line.start + cursor }
    } else {
        assert(!(t@ =~= seq!['/']));
        let bytes = text.as_bytes();
        let crlf = (line.end < bytes.len() && bytes[line.end] == 13u8) || (line.end == bytes.len()
            && has_crlf_before(bytes, bytes.len()));
        assert(bytes@.subrange(0, bytes@.len() as int) =~= bytes@);
        let (newline, newline_len) = if crlf {
            ("\r\n", 2usize)
        } else {
            ("\n", 1usize)
        };
        proof {
            reveal_strlit("\r\n");
            reveal_strlit("\n");
        }
        let mut inserted = newline.to_owned();
        inserted.append(snippet);
        InsertPlan { target: line.end..line.end, text: inserted, cursor: line.end + newline_len + cursor }
    }
}


/// Putting a block on a line leaves the cursor inside the inserted text,
/// on a character boundary of the text that results.
pub proof fn lemma_insert_cursor_on_boundary(text: Seq<char>, row: nat, kind: BlockKind)
    requires
        has_row(encode_utf8(text), row),
    ensures
        ({
            let bytes = encode_utf8(text);
            let planned = planned_insert(bytes, row, kind);
            let inserted = encode_utf8(planned.2);
            let result = bytes.subrange(0, planned.0) + inserted + bytes.subrange(planned.1, bytes.len() as int);
            &&& 0 <= planned.0 <= planned.1 <= bytes.len()
            &&& planned.0 <= planned.3 <= planned.0 + inserted.len()
            &&& is_char_boundary(result, planned.3)
        }),
{
    let bytes = encode_utf8(text);
    let planned = planned_insert(bytes, row, kind);
    let snippet = block_snippet(kind);
    let start = line_start(bytes, row);
    let end = line_content_end(bytes, row);
    lemma_line_bounds(bytes, row);
    encode_utf8_valid_utf8(text);
    is_char_boundary_start_end_of_seq(bytes);
    if start > 0 {
        lemma_ascii_byte_boundaries(bytes, start - 1);
    }
    if end < bytes.len() {
        lemma_ascii_byte_boundaries(bytes, end as int);
    }
    lemma_snippet_cursor_on_boundary(kind);
    let s = snippet.0.spec_bytes();
    encode_utf8_valid_utf8(snippet.0@);
    let ts = planned.0;
    let te = planned.1;
    valid_utf8_split(bytes, ts);
    valid_utf8_split(bytes, te);
    let a = bytes.subrange(0, ts);
    let b = bytes.subrange(te, bytes.len() as int);
    if line_takes_block(bytes, row) {
        lemma_boundary_inside(a, s, b, snippet.1 as int);
    } else {
        let nl = line_break_of(bytes, row);
        assert(is_ascii_chars(nl));
        is_ascii_chars_encode_utf8(nl);
        let n = encode_utf8(nl);
        encode_utf8_valid_utf8(nl);
        lemma_encode_concat(nl, snippet.0@);
        lemma_boundary_inside(n, s, Seq::<u8>::empty(), snippet.1 as int);
        assert(n + s + Seq::<u8>::empty() =~= n + s);
        lemma_boundary_inside(a, n + s, b, n.len() + snippet.1);
    }
}


/// The digit `n` (from 1 to 9) as a character.
pub open spec fn digit_char(n: nat) -> char {
    if n == 1 {
        '1'
    } else if n == 2 {
        '2'
    } else if n == 3 {
        '3'
    } else if n == 4 {
        '4'
    } else if n == 5 {
        '5'
    } else if n == 6 {
        '6'
    } else if n == 7 {
        '7'
    } else if n == 8 {
        '8'
    } else {
        '9'
    }
}

/// The menu label of a heading of level `n`: "Heading n".
pub open spec fn heading_label(n: nat) -> Seq<char> {
    seq!['H', 'e', 'a', 'd', 'i', 'n', 'g', ' ', digit_char(n)]
}

/// The Markdown that opens a heading of level `n`: `n` hashes and a space.
pub open spec fn heading_marker(n: nat) -> Seq<char> {
    Seq::new(n, |i: int| '#').push(' ')
}

/// Each heading entry of the menu inserts the heading its label names: the
/// block labelled "Heading n" has the snippet of `n` hashes and a space,
/// with the cursor right after that space. Every other entry's label names
/// no heading.
pub proof fn lemma_heading_snippets_match_labels(kind: BlockKind, n: nat)
    requires
        1 <= n <= 9,
        block_label(kind)@ == heading_label(n),
    ensures
        block_snippet(kind).0@ == heading_marker(n),
        block_snippet(kind).1 == n + 1,
        block_snippet(kind).1 == block_snippet(kind).0@.len(),
{
    let label = block_label(kind)@;
    assert(label[0] == 'H');
    assert(label[8] == digit_char(n));
    match kind {
        BlockKind::Heading1 => {
            reveal_strlit("Heading 1");
            reveal_strlit("# ");
            assert(digit_char(n) == '1');
            assert(n == 1);
            assert(block_snippet(kind).0@ =~= heading_marker(n));
        },
        BlockKind::Heading2 => {
            reveal_strlit("Heading 2");
            reveal_strlit("## ");
            assert(digit_char(n) == '2');
            assert(n == 2);
            assert(block_snippet(kind).0@ =~= heading_marker(n));
        },
        BlockKind::Heading3 => {
            reveal_strlit("Heading 3");
            reveal_strlit("### ");
            assert(digit_char(n) == '3');
            assert(n == 3);
            assert(block_snippet(kind).0@ =~= heading_marker(n));
        },
        BlockKind::BulletList => {
            reveal_strlit("Bullet list");
        },
        BlockKind::NumberedList => {
            reveal_strlit("Numbered list");
        },
        BlockKind::TaskList => {
            reveal_strlit("Task list");
        },
        BlockKind::Quote => {
            reveal_strlit("Quote");
        },
        BlockKind::CodeBlock => {
            reveal_strlit("Code block");
        },
        BlockKind::Table => {
            reveal_strlit("Table");
        },
        BlockKind::Divider => {
            reveal_strlit("Divider");
        },
        BlockKind::Image => {
            reveal_strlit("Image");
        },
        BlockKind::Link => {
            reveal_strlit("Link");
        },
    }
}


/// The entries that put a marker at the start of the line (the headings,
/// the lists and the quote) insert that marker alone, on one line, ending
/// in a space, with the cursor right after it; a task list item is a
/// bullet list item followed by an unchecked box `[ ] `.
pub proof fn lemma_line_markers_put_the_cursor_after_them(kind: BlockKind)
    ensures
        (kind == BlockKind::Heading1 || kind == BlockKind::Heading2 || kind == BlockKind::Heading3
            || kind == BlockKind::BulletList || kind == BlockKind::NumberedList || kind == BlockKind::TaskList
            || kind == BlockKind::Quote) ==> {
            let text = block_snippet(kind).0@;
            &&& block_snippet(kind).1 == text.len()
            &&& text.len() > 0
            &&& text.last() == ' '
            &&& forall|i: int| 0 <= i < text.len() ==> #[trigger] text[i] != '\n'
        },
        block_snippet(BlockKind::TaskList).0@ == block_snippet(BlockKind::BulletList).0@ + seq!['[', ' ', ']', ' '],
{
    reveal_strlit("# ");
    reveal_strlit("## ");
    reveal_strlit("### ");
    reveal_strlit("- ");
    reveal_strlit("1. ");
    reveal_strlit("- [ ] ");
    reveal_strlit("> ");
    assert(block_snippet(BlockKind::TaskList).0@ =~= block_snippet(BlockKind::BulletList).0@ + seq![
        '[',
        ' ',
        ']',
        ' ',
    ]);
}

/// The code block entry inserts an empty fenced block and puts the cursor
/// on the empty line between the fences: three backticks and a line break
/// before the cursor, a line break and three backticks after it.
pub proof fn lemma_code_block_cursor_between_fences()
    ensures
        ({
            let (text, cursor) = block_snippet(BlockKind::CodeBlock);
            &&& text@.subrange(0, cursor as int) == seq!['`', '`', '`', '\n']
            &&& text@.subrange(cursor as int, text@.len() as int) == seq!['\n', '`', '`', '`']
        }),
{
    reveal_strlit("```\n\n```");
    let text = block_snippet(BlockKind::CodeBlock).0@;
    assert(text.subrange(0, 4) =~= seq!['`', '`', '`', '\n']);
    assert(text.subrange(4, text.len() as int) =~= seq!['\n', '`', '`', '`']);
}


proof fn lemma_breaks_flat(b: Seq<u8>, lo: int, hi: int)
    requires
        0 <= lo <= hi <= b.len(),
        forall|j: int| lo <= j < hi ==> #[trigger] b[j] != 10,
    ensures
        breaks_before(b, hi) == breaks_before(b, lo),
    decreases hi - lo,
{
    if hi > lo {
        lemma_breaks_flat(b, lo, hi - 1);
    }
}

proof fn lemma_breaks_grow(b: Seq<u8>, lo: int, hi: int)
    requires
        0 <= lo <= hi <= b.len(),
    ensures
        breaks_before(b, lo) <= breaks_before(b, hi),
    decreases hi - lo,
{
    if hi > lo {
        lemma_breaks_grow(b, lo, hi - 1);
    }
}

proof fn lemma_row_start_breaks(b: Seq<u8>, k: nat)
    requires
        has_row(b, k),
    ensures
        breaks_before(b, line_start(b, k)) == k,
    decreases k,
{
    if k > 0 {
        lemma_has_row_prev(b, k);
        lemma_row_start_breaks(b, (k - 1) as nat);
        let p = line_start(b, (k - 1) as nat);
        lemma_line_start_nonneg(b, (k - 1) as nat);
        lemma_next_break(b, p);
        let nb = next_break(b, p);
        lemma_breaks_flat(b, p, nb);
    }
}

/// A text has one line more than it has line breaks (`\n`): row `r`
/// exists exactly when `r` is at most the number of line breaks.
pub proof fn lemma_rows_are_one_more_than_breaks(b: Seq<u8>, r: nat)
    ensures
        has_row(b, r) <==> r <= breaks_before(b, b.len() as int),
    decreases r,
{
    if has_row(b, r) {
        lemma_row_start_breaks(b, r);
        lemma_line_start_nonneg(b, r);
        lemma_breaks_grow(b, line_start(b, r), b.len() as int);
    }
    if r <= breaks_before(b, b.len() as int) && r > 0 {
        lemma_rows_are_one_more_than_breaks(b, (r - 1) as nat);
        let p = line_start(b, (r - 1) as nat);
        lemma_line_start_nonneg(b, (r - 1) as nat);
        lemma_row_start_breaks(b, (r - 1) as nat);
        lemma_next_break(b, p);
        let nb = next_break(b, p);
        if nb == b.len() {
            lemma_breaks_flat(b, p, b.len() as int);
        }
    }
}

/// Line `r` holds no line break, and starts right after one unless it is
/// the first: the lines are what lies between the line breaks.
pub proof fn lemma_lines_lie_between_breaks(b: Seq<u8>, r: nat)
    requires
        has_row(b, r),
    ensures
        r > 0 ==> b[line_start(b, r) - 1] == 10,
        forall|j: int| line_start(b, r) <= j < line_content_end(b, r) ==> #[trigger] b[j] != 10,
        line_content_end(b, r) < b.len() ==> b[line_content_end(b, r)] == 10 || b[line_content_end(b, r)] == 13,
{
    lemma_line_bounds(b, r);
    lemma_line_start_nonneg(b, r);
    lemma_next_break(b, line_start(b, r));
    if r > 0 {
        lemma_has_row_prev(b, r);
        lemma_line_start_nonneg(b, (r - 1) as nat);
    }
}

} // verus!
