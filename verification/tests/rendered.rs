use smep::rendered::{
    after_document_change, block_source, layout, slash_typed, BlockEdit, RenderedItem, RenderedState,
};
use smep::theme::PreviewTheme;

/// The document with a commit's replacement made, as the editor makes it.
fn apply(document: &str, range: std::ops::Range<usize>, text: &str) -> String {
    format!("{}{}{}", &document[..range.start], text, &document[range.end..])
}

#[test]
fn a_new_block_after_a_paragraph_gets_a_blank_line_first() {
    let document = "para";
    let mut edit = BlockEdit::new(4..4);
    let replacement = edit.commit(document, "# A");
    assert_eq!(replacement.range, 4..4);
    assert_eq!(replacement.text, "\n\n# A");
    assert_eq!(edit, BlockEdit { start: 6, committed_len: 3 });
    let after = apply(document, replacement.range, &replacement.text);
    assert_eq!(after, "para\n\n# A");
    assert!(edit.matches_document(&after, "# A"));
}

#[test]
fn a_document_that_ends_in_a_line_break_needs_one_more() {
    let mut edit = BlockEdit::new(5..5);
    let replacement = edit.commit("para\n", "x");
    assert_eq!(replacement.text, "\nx");
    assert_eq!(edit.start, 6);

    let mut edit = BlockEdit::new(6..6);
    let replacement = edit.commit("a\r\nb\r\n", "x");
    assert_eq!(replacement.text, "\r\nx");
    assert_eq!(edit.start, 8);

    let mut edit = BlockEdit::new(4..4);
    let replacement = edit.commit("a\r\nb", "x");
    assert_eq!(replacement.text, "\r\n\r\nx");
    assert_eq!(edit.start, 8);
}

#[test]
fn a_block_after_a_blank_line_or_at_the_start_gets_no_gap() {
    let mut edit = BlockEdit::new(6..6);
    assert_eq!(edit.commit("para\n\n", "x").text, "x");
    assert_eq!(edit.start, 6);

    let mut edit = BlockEdit::new(0..0);
    assert_eq!(edit.commit("", "x").text, "x");
    assert_eq!(edit, BlockEdit { start: 0, committed_len: 1 });
}

#[test]
fn later_commits_replace_what_the_block_stood_for() {
    let document = "# A\n\npara\n";
    let mut edit = BlockEdit::new(5..9);
    let replacement = edit.commit(document, "paragraph");
    assert_eq!(replacement.range, 5..9);
    assert_eq!(replacement.text, "paragraph");
    assert_eq!(edit, BlockEdit { start: 5, committed_len: 9 });
    let after = apply(document, replacement.range, &replacement.text);
    assert_eq!(after, "# A\n\nparagraph\n");
    assert!(edit.matches_document(&after, "paragraph"));
}

#[test]
fn an_empty_typed_text_writes_no_gap() {
    let mut edit = BlockEdit::new(4..4);
    assert_eq!(edit.commit("para", "").text, "");
    assert_eq!(edit, BlockEdit { start: 4, committed_len: 0 });
}

#[test]
fn a_changed_document_no_longer_matches_the_block() {
    let edit = BlockEdit::new(5..9);
    assert!(edit.matches_document("# A\n\npara\n", "para"));
    assert!(!edit.matches_document("# A\n\nPara\n", "para"));
    assert!(!edit.matches_document("# A\n", "para"));
    assert!(!edit.matches_document("# A\n\npara\n", "par"));
    let cjk = BlockEdit::new(1..3);
    assert!(!cjk.matches_document("标题", "\u{fffd}"));
}

#[test]
fn a_block_stands_for_its_range_only() {
    let edit = BlockEdit::new(3..7);
    assert_eq!(edit.range(), 3..7);
    assert!(edit.stands_for(&(3..7)));
    assert!(!edit.stands_for(&(3..8)));
    assert!(!edit.stands_for(&(2..7)));
}

#[test]
fn the_block_source_is_its_text_or_nothing() {
    assert_eq!(block_source("# A\n\npara", 5..9), "para");
    assert_eq!(block_source("# A", 2..9), "");
    assert_eq!(block_source("# A", 2..1), "");
    assert_eq!(block_source("标题", 1..3), "");
    assert_eq!(block_source("标题", 3..6), "题");
}

#[test]
fn a_lone_slash_at_the_end_of_its_line_is_noticed() {
    assert!(slash_typed("a\n/", 1, 3));
    assert!(slash_typed("  / \nnext", 0, 4));
    assert!(!slash_typed("a\n/", 1, 2));
    assert!(!slash_typed("a\n//", 1, 4));
    assert!(!slash_typed("/a", 0, 2));
    assert!(!slash_typed("a\n/", 0, 1));
}

#[test]
fn without_an_edit_every_block_shows_in_order() {
    let ranges = vec![0..3, 5..9, 11..14];
    assert_eq!(
        layout(&ranges, &None),
        vec![RenderedItem::Block(0), RenderedItem::Block(1), RenderedItem::Block(2)]
    );
    assert_eq!(layout(&Vec::new(), &None), vec![RenderedItem::Empty]);
}

#[test]
fn the_editor_takes_the_place_of_the_blocks_it_covers() {
    let ranges = vec![0..3, 5..9, 11..14];
    assert_eq!(
        layout(&ranges, &Some(5..9)),
        vec![RenderedItem::Block(0), RenderedItem::Editor, RenderedItem::Block(2)]
    );
    assert_eq!(
        layout(&ranges, &Some(2..12)),
        vec![RenderedItem::Editor]
    );
}

#[test]
fn an_editor_covering_no_block_sits_among_its_neighbours() {
    let ranges = vec![0..3, 5..9, 11..14];
    assert_eq!(
        layout(&ranges, &Some(4..4)),
        vec![RenderedItem::Block(0), RenderedItem::Editor, RenderedItem::Block(1), RenderedItem::Block(2)]
    );
    assert_eq!(
        layout(&ranges, &Some(14..14)),
        vec![RenderedItem::Block(0), RenderedItem::Block(1), RenderedItem::Block(2), RenderedItem::Editor]
    );
    assert_eq!(layout(&Vec::new(), &Some(0..0)), vec![RenderedItem::Editor]);
}

#[test]
fn a_change_from_elsewhere_ends_the_block_edit_only_where_it_goes_stale() {
    let edit = BlockEdit::new(5..9);
    assert_eq!(after_document_change(Some(edit), "# A\n\npara\n", "para"), Some(edit));
    assert_eq!(after_document_change(Some(edit), "# B\n\npara\n", "para"), Some(edit));
    assert_eq!(after_document_change(Some(edit), "# AB\n\npara\n", "para"), None);
    assert_eq!(after_document_change(Some(edit), "# A", "para"), None);
    assert_eq!(after_document_change(None, "# A", "para"), None);
}

#[test]
fn a_second_commit_of_the_same_text_changes_nothing() {
    let document = "para";
    let mut edit = BlockEdit::new(4..4);
    let first = edit.commit(document, "# A");
    let after = apply(document, first.range, &first.text);
    let before_second = edit;
    let second = edit.commit(&after, "# A");
    assert_eq!(second.range, 6..9);
    assert_eq!(second.text, "# A");
    assert_eq!(apply(&after, second.range, &second.text), after);
    assert_eq!(edit, before_second);
}

#[test]
fn a_backwards_range_stands_for_no_bytes() {
    let edit = BlockEdit::new(5..3);
    assert_eq!(edit, BlockEdit { start: 5, committed_len: 0 });
}

#[test]
fn the_view_state_starts_empty_and_follows_the_document() {
    let mut state = RenderedState::new();
    assert_eq!(state.active, None);
    assert_eq!(state.palette, None);

    assert!(state.activate(5..9));
    assert!(!state.activate(5..9));
    assert_eq!(state.active, Some(BlockEdit::new(5..9)));

    assert!(!state.document_changed("# B\n\npara\n", "para"));
    assert_eq!(state.active, Some(BlockEdit::new(5..9)));
    assert!(state.document_changed("# AB\n\npara\n", "para"));
    assert_eq!(state.active, None);
    assert!(!state.deactivate());

    assert!(state.activate(0..3));
    assert!(state.activate(5..9));
    assert!(state.deactivate());

    let night = PreviewTheme::Night.palette();
    assert!(state.set_palette(night));
    assert!(!state.set_palette(night));
    assert!(state.set_palette(None));
}
