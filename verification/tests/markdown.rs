use std::ops::Range;
use ui_base::latex::{LatexMathCandidate, LatexMathMode};
use ui_base::markdown_ext::{
    collect_math_source_ranges, kind_is_math_container, kind_is_math_protected,
    latex_math_candidates, parsed_math_ranges, MarkdownNode, MarkdownNodeLayout,
    MarkdownParseContext, MdNode, MdNodeKind,
};
use ui_base::math_parse::{MathParse, MathParseStep};

fn node(kind: MdNodeKind, range: Range<usize>, children: Vec<MdNode>) -> MdNode {
    MdNode { kind, position: Some(range), children }
}

fn paragraph_doc(len: usize, children: Vec<MdNode>) -> MdNode {
    node(MdNodeKind::Root, 0..len, vec![node(MdNodeKind::Paragraph, 0..len, children)])
}

fn text_doc(source: &str) -> MdNode {
    paragraph_doc(source.len(), vec![node(MdNodeKind::Text, 0..source.len(), vec![])])
}

fn inline(start: usize, end: usize) -> LatexMathCandidate {
    LatexMathCandidate { range: start..end, mode: LatexMathMode::Inline }
}

fn display(start: usize, end: usize) -> LatexMathCandidate {
    LatexMathCandidate { range: start..end, mode: LatexMathMode::Display }
}

#[test]
fn containers_and_protected_nodes_are_collected_in_order() {
    let root = node(
        MdNodeKind::Root,
        0..30,
        vec![
            node(
                MdNodeKind::Paragraph,
                0..10,
                vec![node(MdNodeKind::InlineCode, 2..5, vec![]), node(MdNodeKind::Text, 5..10, vec![])],
            ),
            node(
                MdNodeKind::Link,
                10..20,
                vec![node(MdNodeKind::Paragraph, 11..12, vec![])],
            ),
            node(MdNodeKind::Heading, 20..30, vec![]),
        ],
    );
    let mut containers = Vec::new();
    let mut protected = Vec::new();
    collect_math_source_ranges(&root, &mut containers, &mut protected);
    assert_eq!(containers, vec![0..10, 20..30]);
    assert_eq!(protected, vec![2..5, 10..20]);
    assert!(kind_is_math_container(MdNodeKind::TableCell));
    assert!(!kind_is_math_container(MdNodeKind::Text));
    assert!(kind_is_math_protected(MdNodeKind::Yaml));
    assert!(!kind_is_math_protected(MdNodeKind::Paragraph));
}

#[test]
fn parsed_math_is_listed_in_pre_order() {
    let root = node(
        MdNodeKind::Root,
        0..20,
        vec![
            node(MdNodeKind::Math, 0..8, vec![]),
            node(MdNodeKind::Paragraph, 9..20, vec![node(MdNodeKind::InlineMath, 10..15, vec![])]),
            MdNode { kind: MdNodeKind::InlineMath, position: None, children: vec![] },
        ],
    );
    assert_eq!(parsed_math_ranges(&root), vec![(0..8, true), (10..15, false)]);
}

#[test]
fn latex_candidates_skip_protected_source() {
    let source = "a \\(x\\) b";
    assert_eq!(latex_math_candidates(source, &text_doc(source)), vec![inline(2, 7)]);

    let code = paragraph_doc(source.len(), vec![node(MdNodeKind::InlineCode, 2..7, vec![])]);
    assert!(latex_math_candidates(source, &code).is_empty());

    let block = "\\[x\\]";
    assert_eq!(latex_math_candidates(block, &text_doc(block)), vec![display(0, 5)]);

    assert!(latex_math_candidates("plain", &text_doc("plain")).is_empty());

    let two = "\\(b\\) \\(a\\)";
    assert_eq!(latex_math_candidates(two, &text_doc(two)), vec![inline(0, 5), inline(6, 11)]);

    let mixed = "\\[x\\]\n\\(y\\)";
    assert_eq!(
        latex_math_candidates(mixed, &text_doc(mixed)),
        vec![display(0, 5), inline(6, 11)]
    );
}

#[test]
fn math_parse_accepts_falls_back_or_retries() {
    let source = "a \\(x\\) b";
    let parse = MathParse::begin(source, &text_doc(source)).expect("one candidate");
    assert_eq!(parse.candidates(), &vec![inline(2, 7)]);
    assert_eq!(parse.normalized(), "a $$x$$ b");

    let parsed = paragraph_doc(9, vec![node(MdNodeKind::InlineMath, 2..7, vec![])]);
    assert!(matches!(parse.advance(&parsed), MathParseStep::Accept));

    let parse = MathParse::begin(source, &text_doc(source)).expect("one candidate");
    let as_display = paragraph_doc(9, vec![node(MdNodeKind::Math, 2..7, vec![])]);
    assert!(matches!(parse.advance(&as_display), MathParseStep::Fallback));

    let two = "\\(b\\) \\(a\\)";
    let parse = MathParse::begin(two, &text_doc(two)).expect("two candidates");
    let half = paragraph_doc(11, vec![node(MdNodeKind::InlineMath, 6..11, vec![])]);
    match parse.advance(&half) {
        MathParseStep::Retry(next) => {
            assert_eq!(next.candidates(), &vec![inline(6, 11)]);
            assert_eq!(next.normalized(), "\\(b\\) $$a$$");
        }
        _ => panic!("expected a retry"),
    }
}

#[test]
fn math_parse_needs_candidates_inside_the_source() {
    assert!(MathParse::begin("plain", &text_doc("plain")).is_none());
    let source = "\\(x\\)";
    assert!(MathParse::begin(source, &paragraph_doc(50, vec![])).is_none());
    let block = "\\[x\\]";
    let parse = MathParse::begin(block, &text_doc(block)).expect("display candidate");
    let parsed = paragraph_doc(5, vec![node(MdNodeKind::InlineMath, 0..5, vec![])]);
    assert!(matches!(parse.advance(&parsed), MathParseStep::Accept));
}

fn text_node(range: Option<Range<usize>>) -> markdown::mdast::Node {
    let position = range.map(|r| markdown::unist::Position::new(1, r.start + 1, r.start, 1, r.end + 1, r.end));
    markdown::mdast::Node::Text(markdown::mdast::Text { value: String::new(), position })
}

#[test]
fn parse_context_slices_node_sources() {
    let context = MarkdownParseContext::new("héllo", 7);
    assert_eq!(context.source(), "héllo");
    assert_eq!(context.offset(), 7);
    assert_eq!(context.node_source(&text_node(Some(3..6))), Some("llo"));
    assert_eq!(context.node_source(&text_node(Some(0..3))), Some("hé"));
    assert_eq!(context.node_source(&text_node(Some(0..2))), None);
    assert_eq!(context.node_source(&text_node(Some(4..9))), None);
    assert_eq!(context.node_source(&text_node(None)), None);
}

#[test]
fn custom_nodes_write_back_their_markdown_or_text() {
    let plain = MarkdownNode::new("mention").text("@ana");
    assert_eq!(plain.name(), "mention");
    assert_eq!(plain.as_text(), "@ana");
    assert_eq!(plain.as_markdown(), "");
    assert_eq!(plain.to_markdown(), "@ana");
    assert_eq!(plain.layout(), MarkdownNodeLayout::Inline);

    let rich = MarkdownNode::new("mention").text("@ana").markdown("[@ana](user:1)").full_width();
    assert_eq!(rich.to_markdown(), "[@ana](user:1)");
    assert_eq!(rich.layout(), MarkdownNodeLayout::FullWidth);
    assert!(rich != plain);
    assert!(MarkdownNode::new("x").text("t") == MarkdownNode::new("x").text("t"));
    assert_eq!(MarkdownNodeLayout::default(), MarkdownNodeLayout::Inline);
}

#[test]
fn candidates_never_cross_protected_nodes() {
    let source = "`\\(a\\)` \\(b\\)";
    let root = paragraph_doc(
        source.len(),
        vec![node(MdNodeKind::InlineCode, 0..7, vec![]), node(MdNodeKind::Text, 7..13, vec![])],
    );
    assert_eq!(latex_math_candidates(source, &root), vec![inline(8, 13)]);
}
