use ropey::Rope;
use ui_base::span::{InputSpan, SpanPresentation};

#[test]
fn presentation_keeps_source_offsets_for_plain_text_and_editable_values() {
    let source = Rope::from("Ask @page(12) then @selection.");
    let page_start = "Ask ".len();
    let page_end = page_start + "@page(12)".len();
    let selection_start = "Ask @page(12) then ".len();
    let selection_end = selection_start + "@selection".len();
    let presentation = SpanPresentation::new(
        &source,
        &[
            InputSpan::new(page_start..page_end, "page").editable_unsigned_integer(
                page_start + 6..page_end - 1,
                1,
                20,
            ),
            InputSpan::new(selection_start..selection_end, "selection"),
        ],
    );

    assert_eq!(
        presentation.source_offset(presentation.display_offset(2)),
        2
    );
    for source_offset in page_start + 6..=page_end - 1 {
        assert_eq!(
            presentation.source_offset(presentation.display_offset(source_offset)),
            source_offset
        );
    }
    assert_eq!(
        presentation.source_offset(presentation.display_offset(selection_end)),
        selection_end
    );
    let selection_display_range = &presentation.spans()[1].display_range;
    assert!(
        presentation.display_offset(selection_end) > selection_display_range.end,
        "the caret at a span boundary must remain outside the painted pill"
    );
}

#[test]
fn invalid_and_overlapping_spans_are_ignored() {
    let source = Rope::from("hello");
    let presentation = SpanPresentation::new(
        &source,
        &[
            InputSpan::new(0..3, "one"),
            InputSpan::new(2..5, "two"),
            InputSpan::new(6..7, "invalid"),
        ],
    );
    assert_eq!(presentation.spans().len(), 1);
}
