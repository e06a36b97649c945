use ui_base::markdown_ext::{parsed_math_ranges, MdNodeKind};
use ui_base::markdown_tree::{parse_ast, parse_options, to_md_node, ConstructFlags};

#[test]
fn latex_inline_math_becomes_math_at_its_source_offsets() {
    let source = "a \\(x\\) b";
    let tree = parse_ast(source, false, true).expect("parses");
    let view = to_md_node(&tree);
    assert_eq!(view.kind, MdNodeKind::Root);
    assert_eq!(view.position, Some(0..source.len()));
    assert_eq!(parsed_math_ranges(&view), vec![(2..7, false)]);
}

#[test]
fn without_math_the_delimiters_stay_text() {
    let source = "a \\(x\\) b";
    let tree = parse_ast(source, false, false).expect("parses");
    assert!(parsed_math_ranges(&to_md_node(&tree)).is_empty());
}

#[test]
fn a_standalone_display_block_becomes_math() {
    let source = "\\[x\\]";
    let tree = parse_ast(source, false, true).expect("parses");
    let math = parsed_math_ranges(&to_md_node(&tree));
    assert_eq!(math.len(), 1);
    assert_eq!(math[0].0, 0..5);
}

#[test]
fn plain_markdown_is_parsed_once() {
    let tree = parse_ast("# Title\n\nhello", false, true).expect("parses");
    let view = to_md_node(&tree);
    assert_eq!(view.children.len(), 2);
    assert_eq!(view.children[0].kind, MdNodeKind::Heading);
    assert_eq!(view.children[1].kind, MdNodeKind::Paragraph);
    assert_eq!(view.children[1].position, Some(9..14));
}

#[test]
fn parser_errors_are_reported() {
    let error = parse_ast("a {b", true, false).unwrap_err();
    assert!(error.contains("Unexpected end of file in expression"), "{error}");
    assert!(parse_ast("a {b", false, true).is_ok());
}

#[test]
fn mdx_turns_raw_html_off_and_math_turns_math_on() {
    let plain = ConstructFlags {
        html_flow: true,
        html_text: true,
        mdx_expression_flow: false,
        mdx_expression_text: false,
        mdx_jsx_flow: false,
        mdx_jsx_text: false,
        math_flow: false,
        math_text: false,
    };
    assert_eq!(parse_options(false, false), plain);
    assert_eq!(
        parse_options(true, false),
        ConstructFlags {
            html_flow: false,
            html_text: false,
            mdx_expression_flow: true,
            mdx_expression_text: true,
            mdx_jsx_flow: true,
            mdx_jsx_text: true,
            ..plain
        }
    );
    assert_eq!(parse_options(false, true), ConstructFlags { math_flow: true, math_text: true, ..plain });
}

#[test]
fn raw_html_is_parsed_only_without_mdx() {
    let html = "<div>\nhi\n</div>";
    let without = to_md_node(&parse_ast(html, false, false).expect("parses"));
    assert_eq!(without.children[0].kind, MdNodeKind::Html);
    let with = parse_ast(html, true, false).expect("parses");
    assert_ne!(to_md_node(&with).children[0].kind, MdNodeKind::Html);
}
