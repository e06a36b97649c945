use ui_base::latex::{
    collect_display_candidates, collect_inline_candidates, covers_offset, dedup_candidates,
    is_unescaped_backslash, line_end, line_prefix_is_whitespace, normalize_latex_math_candidates,
    overlaps_range, safe_dollar_fence_contents, standalone_display_candidate, LatexMathCandidate,
    LatexMathMode,
};

fn inline(start: usize, end: usize) -> LatexMathCandidate {
    LatexMathCandidate { range: start..end, mode: LatexMathMode::Inline }
}

fn display(start: usize, end: usize) -> LatexMathCandidate {
    LatexMathCandidate { range: start..end, mode: LatexMathMode::Display }
}

#[test]
fn backslashes_escape_in_pairs() {
    let bytes = b"a\\\\(";
    assert!(is_unescaped_backslash(bytes, 0));
    assert!(is_unescaped_backslash(bytes, 1));
    assert!(!is_unescaped_backslash(bytes, 2));
    assert!(is_unescaped_backslash(bytes, 3));
    assert!(is_unescaped_backslash(bytes, 4));
}

#[test]
fn dollar_fence_contents_must_not_touch_a_dollar() {
    assert!(safe_dollar_fence_contents("x+y"));
    assert!(safe_dollar_fence_contents("a$b"));
    assert!(!safe_dollar_fence_contents(""));
    assert!(!safe_dollar_fence_contents("$x"));
    assert!(!safe_dollar_fence_contents("x$"));
    assert!(!safe_dollar_fence_contents("a$$b"));
}

#[test]
fn lines_end_at_the_next_newline() {
    assert_eq!(line_end("ab\ncd", 0), 2);
    assert_eq!(line_end("ab\ncd", 2), 2);
    assert_eq!(line_end("ab\ncd", 3), 5);
    assert_eq!(line_end("", 0), 0);
    assert!(line_prefix_is_whitespace("  \\[x", 2));
    assert!(!line_prefix_is_whitespace("a \\[", 2));
    assert!(line_prefix_is_whitespace("x\n  y", 4));
    assert!(line_prefix_is_whitespace("x\ny", 2));
}

#[test]
fn inline_candidates_need_an_unescaped_pair_around_safe_contents() {
    let source = "a \\(x\\) b \\(y\\)";
    let mut found = Vec::new();
    collect_inline_candidates(source, 0..source.len(), &mut found);
    assert_eq!(found, vec![inline(2, 7), inline(10, 15)]);

    let mut found = Vec::new();
    collect_inline_candidates(source, 0..9, &mut found);
    assert_eq!(found, vec![inline(2, 7)]);

    let mut found = Vec::new();
    collect_inline_candidates("\\\\(x\\)", 0..6, &mut found);
    assert!(found.is_empty());

    let mut found = Vec::new();
    collect_inline_candidates("\\(\\)", 0..4, &mut found);
    assert!(found.is_empty());

    let mut found = Vec::new();
    collect_inline_candidates("\\(x", 0..3, &mut found);
    assert!(found.is_empty());
}

#[test]
fn protected_ranges_cover_and_overlap() {
    assert!(covers_offset(&[2..5], 4));
    assert!(!covers_offset(&[2..5], 5));
    assert!(!covers_offset(&[], 0));
    assert!(overlaps_range(&[2..5], 4, 7));
    assert!(!overlaps_range(&[2..5], 5, 7));
    assert!(!overlaps_range(&[2..5], 0, 2));
}

#[test]
fn display_blocks_stand_at_the_start_of_their_line() {
    let mut found = Vec::new();
    collect_display_candidates("\\[x\\]", &[], &mut found);
    assert_eq!(found, vec![display(0, 5)]);

    let mut found = Vec::new();
    collect_display_candidates("\\[\nx\n\\]", &[], &mut found);
    assert_eq!(found, vec![display(0, 7)]);

    let mut found = Vec::new();
    collect_display_candidates("a \\[x\\]", &[], &mut found);
    assert!(found.is_empty());

    let mut found = Vec::new();
    collect_display_candidates("\\[x\\]", &[1..2], &mut found);
    assert!(found.is_empty());

    let mut found = Vec::new();
    collect_display_candidates("\\[x\\] y", &[], &mut found);
    assert!(found.is_empty());
}

#[test]
fn a_container_holding_only_a_display_block_is_one_candidate() {
    let source = "  \\[x+1\\]  ";
    assert_eq!(
        standalone_display_candidate(source, &(0..source.len()), &[]),
        Some(display(2, 9))
    );
    assert_eq!(standalone_display_candidate(source, &(0..source.len()), &[3..4]), None);
    assert_eq!(standalone_display_candidate("\\[\\]", &(0..4), &[]), None);
    assert_eq!(standalone_display_candidate("x \\[y\\]", &(0..7), &[]), None);
}

#[test]
fn rewriting_delimiters_keeps_every_offset() {
    let source = "a \\(x\\) b";
    let normalized = normalize_latex_math_candidates(source, &[inline(2, 7)]);
    assert_eq!(normalized, "a $$x$$ b");
    assert_eq!(normalized.len(), source.len());
    assert_eq!(normalize_latex_math_candidates(source, &[]), source);
}

#[test]
fn equal_neighbouring_ranges_are_dropped() {
    let deduped = dedup_candidates(vec![inline(0, 5), display(0, 5), inline(6, 9), inline(0, 5)]);
    assert_eq!(deduped, vec![inline(0, 5), inline(6, 9), inline(0, 5)]);
    assert!(dedup_candidates(vec![]).is_empty());
}
