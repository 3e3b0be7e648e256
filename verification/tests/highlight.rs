use std::ops::Range;

use smep::highlight::{block_ranges, block_start_lines, runs, spans, MarkdownHighlighter};

fn names(text: &str) -> Vec<(Range<usize>, &'static str)> {
    runs(spans(text))
}

fn highlighter(text: &str) -> MarkdownHighlighter {
    let mut highlighter = MarkdownHighlighter::new();
    highlighter.update(text);
    highlighter
}

#[test]
fn bold_inside_a_heading_wins_over_the_heading() {
    assert_eq!(
        names("# Hi **there**\n"),
        vec![(0..5, "title"), (5..14, "emphasis.strong")]
    );
}

#[test]
fn link_text_differs_from_the_link_itself() {
    assert_eq!(
        names("[a](b)"),
        vec![(0..1, "link_uri"), (1..2, "link_text"), (2..6, "link_uri")]
    );
}

#[test]
fn offsets_are_bytes_so_crlf_and_cjk_line_up() {
    let text = "# 标题\r\n**粗**";
    let runs = names(text);
    assert_eq!(runs[0], (0..8, "title"));
    assert_eq!(&text[0..8], "# 标题");
    assert_eq!(runs[1], (10..17, "emphasis.strong"));
    assert_eq!(&text[10..17], "**粗**");
}

#[test]
fn runs_are_sorted_and_never_overlap() {
    let text = "# T *a **b** c*\n\n> q `x` [l](u) ~~d~~\n\n```rs\nfn main() {}\n```\n\n---\n";
    let runs = names(text);
    assert!(!runs.is_empty());
    for pair in runs.windows(2) {
        assert!(pair[0].0.end <= pair[1].0.start, "{pair:?}");
    }
    assert!(runs.iter().all(|(r, _)| !r.is_empty()));
}

#[test]
fn block_start_lines_are_zero_based_and_skip_blank_lines() {
    assert_eq!(
        block_start_lines("# A\n\npara\nmore\n\n- x\n- y\n\n```\ncode\n```\n"),
        vec![0, 2, 5, 8]
    );
    assert_eq!(block_start_lines("a\r\n\r\nb"), vec![0, 2]);
    assert!(block_start_lines("").is_empty());
}

#[test]
fn block_ranges_cover_each_block_without_the_gaps() {
    let text = "# A\n\npara\nmore\n\n- x\n- y\n";
    assert_eq!(block_ranges(text), vec![0..3, 5..14, 16..23]);
    assert_eq!(&text[0..3], "# A");
    assert_eq!(&text[5..14], "para\nmore");
    assert_eq!(&text[16..23], "- x\n- y");
    assert!(block_ranges("").is_empty());
    assert_eq!(block_ranges("a\r\n\r\nb"), vec![0..1, 5..6]);
}

#[test]
fn a_list_with_a_nested_list_does_not_keep_the_blank_line_after_it() {
    let text = "- a\n  - b\n\n> q\n";
    let ranges = block_ranges(text);
    assert_eq!(&text[ranges[0].clone()], "- a\n  - b");
    assert_eq!(&text[ranges[1].clone()], "> q");
    let text = "- a\r\n  - b\r\n\r\n> q\r\n";
    assert_eq!(&text[block_ranges(text)[0].clone()], "- a\r\n  - b");
}

#[test]
fn plain_text_and_empty_input_have_no_runs() {
    assert!(names("").is_empty());
    assert!(names("just words\n\nmore words").is_empty());
}

#[test]
fn styles_cover_the_asked_range_exactly_with_defaults_in_the_gaps() {
    let highlighter = highlighter("# A\n\ntext\n\n# B\n");
    // Ask across the gap between the two headings, cut mid-heading.
    let styles = highlighter.styles(&(1..12));
    let mut pos = 1;
    for (range, _) in &styles {
        assert_eq!(range.start, pos, "{styles:?}");
        pos = range.end;
    }
    assert_eq!(pos, 12);
    assert_eq!(styles[0].1, Some("title"), "inside the first heading");
    assert_eq!(styles[1].1, None, "the paragraph");
    assert_eq!(styles.last().unwrap().1, Some("title"), "into the second");
}

#[test]
fn styles_outside_every_run_are_one_default_run() {
    let highlighter = highlighter("# A\n\ntext\n");
    assert_eq!(highlighter.styles(&(5..9)), vec![(5..9, None)]);
}

#[test]
fn each_look_has_its_theme_name() {
    assert_eq!(names("*a*"), vec![(0..3, "emphasis")]);
    assert_eq!(names("~~a~~"), vec![(0..5, "comment")]);
    assert_eq!(names("`a`"), vec![(0..3, "string")]);
    assert_eq!(names("---\n"), vec![(0..3, "punctuation")]);
    assert_eq!(names("```\nx\n```\n"), vec![(0..9, "string")]);
    assert_eq!(names("<b>\n"), vec![(0..3, "comment")]);
}

#[test]
fn a_highlighter_without_text_styles_everything_by_default() {
    let highlighter = MarkdownHighlighter::new();
    assert_eq!(highlighter.styles(&(0..4)), vec![(0..4, None)]);
    assert!(highlighter.styles(&(3..3)).is_empty());
}

#[test]
fn an_update_replaces_the_earlier_text() {
    let mut highlighter = highlighter("# A\n");
    highlighter.update("plain\n");
    assert_eq!(highlighter.styles(&(0..3)), vec![(0..3, None)]);
}

#[test]
fn an_empty_asked_range_inside_a_run_is_that_run() {
    let highlighter = highlighter("# Heading\n");
    assert_eq!(highlighter.styles(&(4..2)), vec![(4..2, Some("title"))]);
}

#[test]
fn a_block_ends_before_its_line_breaks() {
    assert_eq!(block_ranges("# A\r\n"), vec![0..3]);
    assert_eq!(block_start_lines("\n\n# A\n"), vec![2]);
}
