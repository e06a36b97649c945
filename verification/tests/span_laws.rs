use ropey::Rope;
use ui_base::span::{valid_spans, InputSpan, SpanPresentation};

fn star() -> String {
    "icons/star.svg".to_string()
}

fn hidden_in_pill(span: &InputSpan, offset: usize) -> bool {
    let inside = span.range.start < offset && offset < span.range.end;
    let in_value = span
        .editable_range()
        .map_or(false, |range| range.start <= offset && offset <= range.end);
    inside && !in_value
}

fn assert_offsets_round_trip(source: &str, spans: &[InputSpan], presented: &[usize]) {
    let presentation = SpanPresentation::new(&Rope::from(source), spans);
    let shown: Vec<&InputSpan> = presented.iter().map(|ix| &spans[*ix]).collect();
    for offset in 0..=source.len() {
        if !source.is_char_boundary(offset) || shown.iter().any(|s| hidden_in_pill(s, offset)) {
            continue;
        }
        let display = presentation.display_offset(offset);
        assert!(display <= presentation.text().len_bytes());
        assert_eq!(presentation.source_offset(display), offset, "offset {offset}");
    }
}

#[test]
fn offsets_outside_pills_round_trip() {
    let source = "Ask @page(12) then @selection.";
    let spans = [
        InputSpan::new(4..13, "page").editable_unsigned_integer(10..12, 1, 20),
        InputSpan::new(19..29, "selection").icon(star()),
    ];
    assert_offsets_round_trip(source, &spans, &[0, 1]);
    assert_offsets_round_trip("héllo wörld", &[InputSpan::new(7..13, "w")], &[0]);
    assert_offsets_round_trip("plain", &[], &[]);
    assert_offsets_round_trip("ab", &[InputSpan::new(0..1, "a"), InputSpan::new(1..2, "b")], &[0, 1]);
}

#[test]
fn presented_spans_are_the_valid_disjoint_ones_in_source_order() {
    let source = Rope::from("one two three\nfour");
    let spans = [
        InputSpan::new(8..13, "three"),
        InputSpan::new(0..3, "one"),
        InputSpan::new(2..7, "overlaps one"),
        InputSpan::new(10..16, "crosses a line"),
        InputSpan::new(4..4, "empty"),
        InputSpan::new(4..7, "two"),
        InputSpan::new(4..7, "two again"),
        InputSpan::new(17..30, "past the end"),
    ];
    let presentation = SpanPresentation::new(&source, &spans);
    let ranges: Vec<_> = presentation.spans().iter().map(|s| s.source_range.clone()).collect();
    assert_eq!(ranges, vec![0..3, 4..7, 8..13]);
    for span in presentation.spans() {
        assert!(presentation.display_offset(span.source_range.end) > span.display_range.end);
        assert!(span.display_range.start < span.display_range.end);
        assert!(span.display_range.end <= presentation.text().len_bytes());
    }
    for pair in presentation.spans().windows(2) {
        assert!(pair[0].display_range.end < pair[1].display_range.start);
    }
}

#[test]
fn a_pill_is_padded_and_followed_by_a_separator() {
    let presentation = SpanPresentation::new(&Rope::from("a@xb"), &[InputSpan::new(1..3, "x")]);
    assert_eq!(presentation.text().to_string(), "a\u{a0}\u{a0}x\u{a0}\u{a0}\u{a0}b");
    let span = &presentation.spans()[0];
    assert_eq!(span.display_range, 1..10);
    assert_eq!(span.icon_range, None);
    assert_eq!(presentation.display_offset(1), 1);
    assert_eq!(presentation.display_offset(2), 1);
    assert_eq!(presentation.display_offset(3), 12);
    assert_eq!(presentation.display_offset(4), 13);
    assert_eq!(presentation.display_offset(99), 13);
    assert_eq!(presentation.source_offset(4), 1);
    assert_eq!(presentation.source_offset(5), 3);
    assert_eq!(presentation.source_offset(99), 4);
    assert_eq!(presentation.display_range(&(1..3)), 1..12);
    let end = presentation.text().len_bytes();
    assert_eq!(end, 13);
    assert_eq!(presentation.display_offset(4), end);
    assert_eq!(presentation.source_offset(end), 4);
}

#[test]
fn icons_and_editable_values_get_their_own_display_ranges() {
    let source = "x @p(7) y";
    let presentation = SpanPresentation::new(
        &Rope::from(source),
        &[InputSpan::new(2..7, "p").icon(star()).editable_unsigned_integer(5..6, 3, 1)],
    );
    let span = &presentation.spans()[0];
    assert_eq!(span.icon_range, Some(6..10));
    assert_eq!(span.editable_source_range, Some(5..6));
    assert_eq!(
        presentation.text().to_string(),
        "x \u{a0}\u{a0}\u{a0}\u{a0}\u{a0}p\u{a0}7\u{a0}\u{a0}\u{a0}\u{a0} y"
    );
    assert_eq!(span.editable_display_range, Some(13..18));
    assert_eq!(presentation.source_offset(presentation.display_offset(5)), 5);
    assert_eq!(presentation.source_offset(presentation.display_offset(6)), 6);
}

#[test]
fn without_spans_the_source_is_shown_as_it_is() {
    let presentation = SpanPresentation::identity("héllo");
    assert_eq!(presentation.text().to_string(), "héllo");
    for offset in 0..=6 {
        assert_eq!(presentation.display_offset(offset), offset);
        assert_eq!(presentation.source_offset(offset), offset);
    }
    assert!(presentation.spans().is_empty());
    let unchanged = SpanPresentation::new(&Rope::from("abc"), &[InputSpan::new(1..9, "bad")]);
    assert_eq!(unchanged.text().to_string(), "abc");
    assert!(unchanged.spans().is_empty());
}

#[test]
fn span_builders_keep_their_other_fields() {
    let span = InputSpan::new(1..4, "tag").editable_unsigned_integer(2..3, 5, 2);
    assert_eq!(span.range(), &(1..4));
    assert_eq!(span.editable_range(), Some(&(2..3)));
    assert_eq!(span.label, "tag");
    let with_icon = span.clone().icon(star());
    assert_eq!(with_icon.icon_path.as_deref(), Some("icons/star.svg"));
    assert_eq!(with_icon.editable, span.editable);
    assert_eq!(InputSpan::new(0..1, "x").editable_range(), None);
}

#[test]
fn valid_spans_are_chosen_by_start_without_overlap() {
    let chosen = valid_spans(
        "hello",
        &[InputSpan::new(2..5, "b"), InputSpan::new(0..3, "a"), InputSpan::new(6..7, "c")],
    );
    let picked: Vec<_> = chosen.iter().map(|r| (r.index, r.start, r.end)).collect();
    assert_eq!(picked, vec![(1, 0, 3)]);
}

#[test]
fn source_offsets_never_decrease_and_end_at_the_source_end() {
    let source = "Ask @page(12) then @selection.";
    let presentation = SpanPresentation::new(
        &Rope::from(source),
        &[
            InputSpan::new(4..13, "page").editable_unsigned_integer(10..12, 1, 20),
            InputSpan::new(19..29, "selection").icon(star()),
        ],
    );
    let end = presentation.text().len_bytes();
    let mut previous = 0;
    for display in 0..end + 4 {
        let offset = presentation.source_offset(display);
        assert!(previous <= offset && offset <= source.len(), "display {display}");
        if display >= end {
            assert_eq!(offset, source.len());
        }
        previous = offset;
    }
}

#[test]
fn plain_pills_map_to_their_ends() {
    let source = "x @ab y @c";
    let presentation = SpanPresentation::new(
        &Rope::from(source),
        &[InputSpan::new(2..5, "ab").icon(star()), InputSpan::new(8..10, "c")],
    );
    assert_eq!(presentation.spans().len(), 2);
    for span in presentation.spans() {
        for display in span.display_range.start..=span.display_range.end {
            let offset = presentation.source_offset(display);
            assert!(offset == span.source_range.start || offset == span.source_range.end);
        }
    }
}

#[test]
fn text_between_pills_is_the_source() {
    let presentation = SpanPresentation::new(
        &Rope::from("x @ab y @c"),
        &[InputSpan::new(2..5, "ab"), InputSpan::new(8..10, "c")],
    );
    let nb = "\u{a0}";
    let expected = format!("x {nb}{nb}ab{nb}{nb}{nb} y {nb}{nb}c{nb}{nb}{nb}");
    assert_eq!(presentation.text().to_string(), expected);
}
