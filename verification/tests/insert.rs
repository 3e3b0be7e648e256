use smep::insert::{cursor_line_range, cursor_line_trimmed, cursor_row, insert_block, menu, BlockKind};

#[test]
fn every_snippet_cursor_sits_on_a_char_boundary_inside_the_snippet() {
    for kind in menu().iter().flatten() {
        let (snippet, cursor) = kind.snippet();
        assert!(cursor <= snippet.len(), "{kind:?}");
        assert!(snippet.is_char_boundary(cursor), "{kind:?}");
    }
}

#[test]
fn the_menu_has_no_leading_trailing_or_doubled_separators() {
    let menu = menu();
    assert!(menu.first().unwrap().is_some());
    assert!(menu.last().unwrap().is_some());
    assert!(!menu.windows(2).any(|w| w[0].is_none() && w[1].is_none()));
}

#[test]
fn labels_and_snippets_of_some_blocks() {
    assert_eq!(BlockKind::Heading2.label(), "Heading 2");
    assert_eq!(BlockKind::TaskList.label(), "Task list");
    assert_eq!(BlockKind::CodeBlock.snippet(), ("```\n\n```", 4));
    assert_eq!(BlockKind::Link.snippet(), ("[](", 1));
    assert_eq!(menu().iter().flatten().count(), 12);
}

#[test]
fn the_cursor_line_leaves_out_its_line_break() {
    let text = "first\r\nsecond\nthird";
    assert_eq!(cursor_line_range(text, 0), 0..5);
    assert_eq!(cursor_line_range(text, 1), 7..13);
    assert_eq!(cursor_line_range(text, 2), 14..19);
    assert_eq!(cursor_line_range("", 0), 0..0);
    assert_eq!(cursor_line_range("a\n", 1), 2..2);
}

#[test]
fn the_trimmed_line_drops_surrounding_whitespace() {
    assert_eq!(cursor_line_trimmed("x\n  /  \ny", 1), "/");
    assert_eq!(cursor_line_trimmed("\u{3000}标题\t", 0), "标题");
}

#[test]
fn a_blank_line_takes_the_skeleton_in_its_place() {
    let plan = insert_block("para\n\nend", 1, BlockKind::Heading1);
    assert_eq!(plan.target, 5..5);
    assert_eq!(plan.text, "# ");
    assert_eq!(plan.cursor, 7);
}

#[test]
fn the_slash_that_opened_the_menu_is_replaced() {
    let plan = insert_block("a\n /\n", 1, BlockKind::CodeBlock);
    assert_eq!(plan.target, 2..4);
    assert_eq!(plan.text, "```\n\n```");
    assert_eq!(plan.cursor, 6);
}

#[test]
fn a_line_with_content_keeps_it_and_gets_the_skeleton_below() {
    let plan = insert_block("text", 0, BlockKind::Quote);
    assert_eq!(plan.target, 4..4);
    assert_eq!(plan.text, "\n> ");
    assert_eq!(plan.cursor, 7);

    let plan = insert_block("text\r\nmore", 0, BlockKind::BulletList);
    assert_eq!(plan.target, 4..4);
    assert_eq!(plan.text, "\r\n- ");
    assert_eq!(plan.cursor, 8);
}

#[test]
fn the_cursor_lands_inside_the_inserted_text_on_a_boundary() {
    let text = "标题\r\n\r\n末";
    for row in 0..3 {
        for kind in menu().iter().flatten() {
            let plan = insert_block(text, row, *kind);
            let after = format!(
                "{}{}{}",
                &text[..plan.target.start],
                plan.text,
                &text[plan.target.end..]
            );
            assert!(plan.target.start <= plan.cursor, "{kind:?}");
            assert!(plan.cursor <= plan.target.start + plan.text.len(), "{kind:?}");
            assert!(after.is_char_boundary(plan.cursor), "{kind:?}");
        }
    }
    let plan = insert_block(text, 0, BlockKind::Table);
    assert_eq!(plan.target, 6..6);
    assert_eq!(plan.text, "\r\n| Column | Column |\n| --- | --- |\n|  |  |");
    assert_eq!(plan.cursor, 10);
}

#[test]
fn the_last_line_of_a_crlf_document_gets_a_crlf_before_the_skeleton() {
    let plan = insert_block("a\r\nb", 1, BlockKind::Heading1);
    assert_eq!(plan.target, 4..4);
    assert_eq!(plan.text, "\r\n# ");
    assert_eq!(plan.cursor, 8);

    let plan = insert_block("a\nb", 1, BlockKind::Heading1);
    assert_eq!(plan.text, "\n# ");
    assert_eq!(plan.cursor, 6);
}

#[test]
fn the_cursor_row_counts_the_line_breaks_before_it() {
    let text = "a\r\nbc\n\nd";
    assert_eq!(cursor_row(text, 0), 0);
    assert_eq!(cursor_row(text, 3), 1);
    assert_eq!(cursor_row(text, 5), 1);
    assert_eq!(cursor_row(text, 6), 2);
    assert_eq!(cursor_row(text, 7), 3);
    assert_eq!(cursor_row(text, 8), 3);
    assert_eq!(cursor_row(text, 100), 3);
    assert_eq!(cursor_row("", 5), 0);
}
