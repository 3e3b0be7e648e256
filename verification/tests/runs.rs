use smep::runs::runs;

#[test]
fn the_innermost_span_wins_and_the_outer_one_resumes() {
    let flat = runs(vec![(0..10, "outer"), (3..5, "inner")]);
    assert_eq!(flat, vec![(0..3, "outer"), (3..5, "inner"), (5..10, "outer")]);
}

#[test]
fn spans_in_any_order_come_out_sorted() {
    let flat = runs(vec![(6..8, "b"), (0..2, "a")]);
    assert_eq!(flat, vec![(0..2, "a"), (6..8, "b")]);
}

#[test]
fn empty_spans_leave_no_run() {
    assert!(runs(vec![(4..4, "x")]).is_empty());
    assert!(runs(Vec::new()).is_empty());
}

#[test]
fn a_span_that_fills_its_parent_hides_it() {
    assert_eq!(runs(vec![(0..4, "outer"), (0..4, "inner")]), vec![(0..4, "inner")]);
}

#[test]
fn flattening_runs_again_changes_nothing() {
    let once = runs(vec![(0..10, "outer"), (3..5, "inner"), (12..14, "other")]);
    assert_eq!(runs(once.clone()), once);
    let overlapping = runs(vec![(0..6, "a"), (4..9, "b")]);
    assert_eq!(runs(overlapping.clone()), overlapping);
}

#[test]
fn the_order_of_the_spans_does_not_matter() {
    let spans = vec![(0..10, "outer"), (3..5, "inner"), (3..4, "innermost"), (12..14, "other")];
    let mut reordered = spans.clone();
    reordered.reverse();
    assert_eq!(runs(reordered), runs(spans));
}

#[test]
fn runs_of_overlapping_spans_cut_only_at_span_ends() {
    let flat = runs(vec![(0..6, "a"), (4..9, "b")]);
    let ends = [0, 6, 4, 9];
    for (range, _) in &flat {
        assert!(ends.contains(&range.start) && ends.contains(&range.end), "{flat:?}");
    }
}
