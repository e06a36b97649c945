//! Parsing Markdown with the `markdown` crate: its syntax tree as the library
//! reads it, and the rounds that rewrite LaTeX math delimiters and parse again.
use std::ops::Range;
use vstd::prelude::*;
use markdown::mdast::Node;
use vstd::utf8::*;
use crate::latex::{normalized_bytes, LatexMathCandidate};
use crate::markdown_ext::{
    containers_in_bounds, latex_candidates, math_containers, math_containers_of, math_protected,
    math_protected_of, parsed_math, parsed_math_of, MdNode, MdNodeKind,
};
use crate::math_parse::{confirmed, lemma_confirmed_len, MathParse, MathParseStep};

verus! {

/// The `markdown` crate's syntax tree node; Verus reads its variants.
#[verifier::external_type_specification]
pub struct ExNode(markdown::mdast::Node);

#[verifier::external_type_specification]
pub struct ExRoot(markdown::mdast::Root);

#[verifier::external_type_specification]
pub struct ExBlockquote(markdown::mdast::Blockquote);

#[verifier::external_type_specification]
pub struct ExFootnoteDefinition(markdown::mdast::FootnoteDefinition);

#[verifier::external_type_specification]
pub struct ExMdxJsxFlowElement(markdown::mdast::MdxJsxFlowElement);

#[verifier::external_type_specification]
pub struct ExList(markdown::mdast::List);

#[verifier::external_type_specification]
pub struct ExMdxjsEsm(markdown::mdast::MdxjsEsm);

#[verifier::external_type_specification]
pub struct ExToml(markdown::mdast::Toml);

#[verifier::external_type_specification]
pub struct ExYaml(markdown::mdast::Yaml);

#[verifier::external_type_specification]
pub struct ExBreak(markdown::mdast::Break);

#[verifier::external_type_specification]
pub struct ExInlineCode(markdown::mdast::InlineCode);

#[verifier::external_type_specification]
pub struct ExInlineMath(markdown::mdast::InlineMath);

#[verifier::external_type_specification]
pub struct ExDelete(markdown::mdast::Delete);

#[verifier::external_type_specification]
pub struct ExEmphasis(markdown::mdast::Emphasis);

#[verifier::external_type_specification]
pub struct ExMdxTextExpression(markdown::mdast::MdxTextExpression);

#[verifier::external_type_specification]
pub struct ExFootnoteReference(markdown::mdast::FootnoteReference);

#[verifier::external_type_specification]
pub struct ExHtml(markdown::mdast::Html);

#[verifier::external_type_specification]
pub struct ExImage(markdown::mdast::Image);

#[verifier::external_type_specification]
pub struct ExImageReference(markdown::mdast::ImageReference);

#[verifier::external_type_specification]
pub struct ExMdxJsxTextElement(markdown::mdast::MdxJsxTextElement);

#[verifier::external_type_specification]
pub struct ExLink(markdown::mdast::Link);

#[verifier::external_type_specification]
pub struct ExLinkReference(markdown::mdast::LinkReference);

#[verifier::external_type_specification]
pub struct ExStrong(markdown::mdast::Strong);

#[verifier::external_type_specification]
pub struct ExText(markdown::mdast::Text);

#[verifier::external_type_specification]
pub struct ExCode(markdown::mdast::Code);

#[verifier::external_type_specification]
pub struct ExMath(markdown::mdast::Math);

#[verifier::external_type_specification]
pub struct ExMdxFlowExpression(markdown::mdast::MdxFlowExpression);

#[verifier::external_type_specification]
pub struct ExHeading(markdown::mdast::Heading);

#[verifier::external_type_specification]
pub struct ExTable(markdown::mdast::Table);

#[verifier::external_type_specification]
pub struct ExThematicBreak(markdown::mdast::ThematicBreak);

#[verifier::external_type_specification]
pub struct ExTableRow(markdown::mdast::TableRow);

#[verifier::external_type_specification]
pub struct ExTableCell(markdown::mdast::TableCell);

#[verifier::external_type_specification]
pub struct ExListItem(markdown::mdast::ListItem);

#[verifier::external_type_specification]
pub struct ExDefinition(markdown::mdast::Definition);

#[verifier::external_type_specification]
pub struct ExParagraph(markdown::mdast::Paragraph);

#[verifier::external_type_specification]
#[verifier::external_body]
pub struct ExReferenceKind(markdown::mdast::ReferenceKind);

#[verifier::external_type_specification]
#[verifier::external_body]
pub struct ExAlignKind(markdown::mdast::AlignKind);

#[verifier::external_type_specification]
#[verifier::external_body]
pub struct ExAttributeContent(markdown::mdast::AttributeContent);

#[verifier::external_type_specification]
pub struct ExPosition(markdown::unist::Position);

#[verifier::external_type_specification]
pub struct ExPoint(markdown::unist::Point);


/// The kind, position and children of a node.
pub open spec fn node_parts(n: Node) -> (MdNodeKind, Option<markdown::unist::Position>, Seq<Node>) {
    match n {
        Node::Root(x) => (MdNodeKind::Root, x.position, x.children@),
        Node::Blockquote(x) => (MdNodeKind::Blockquote, x.position, x.children@),
        Node::FootnoteDefinition(x) => (MdNodeKind::FootnoteDefinition, x.position, x.children@),
        Node::MdxJsxFlowElement(x) => (MdNodeKind::MdxJsxFlowElement, x.position, x.children@),
        Node::List(x) => (MdNodeKind::List, x.position, x.children@),
        Node::MdxjsEsm(x) => (MdNodeKind::MdxjsEsm, x.position, seq![]),
        Node::Toml(x) => (MdNodeKind::Toml, x.position, seq![]),
        Node::Yaml(x) => (MdNodeKind::Yaml, x.position, seq![]),
        Node::Break(x) => (MdNodeKind::Break, x.position, seq![]),
        Node::InlineCode(x) => (MdNodeKind::InlineCode, x.position, seq![]),
        Node::InlineMath(x) => (MdNodeKind::InlineMath, x.position, seq![]),
        Node::Delete(x) => (MdNodeKind::Delete, x.position, x.children@),
        Node::Emphasis(x) => (MdNodeKind::Emphasis, x.position, x.children@),
        Node::MdxTextExpression(x) => (MdNodeKind::MdxTextExpression, x.position, seq![]),
        Node::FootnoteReference(x) => (MdNodeKind::FootnoteReference, x.position, seq![]),
        Node::Html(x) => (MdNodeKind::Html, x.position, seq![]),
        Node::Image(x) => (MdNodeKind::Image, x.position, seq![]),
        Node::ImageReference(x) => (MdNodeKind::ImageReference, x.position, seq![]),
        Node::MdxJsxTextElement(x) => (MdNodeKind::MdxJsxTextElement, x.position, x.children@),
        Node::Link(x) => (MdNodeKind::Link, x.position, x.children@),
        Node::LinkReference(x) => (MdNodeKind::LinkReference, x.position, x.children@),
        Node::Strong(x) => (MdNodeKind::Strong, x.position, x.children@),
        Node::Text(x) => (MdNodeKind::Text, x.position, seq![]),
        Node::Code(x) => (MdNodeKind::Code, x.position, seq![]),
        Node::Math(x) => (MdNodeKind::Math, x.position, seq![]),
        Node::MdxFlowExpression(x) => (MdNodeKind::MdxFlowExpression, x.position, seq![]),
        Node::Heading(x) => (MdNodeKind::Heading, x.position, x.children@),
        Node::Table(x) => (MdNodeKind::Table, x.position, x.children@),
        Node::ThematicBreak(x) => (MdNodeKind::ThematicBreak, x.position, seq![]),
        Node::TableRow(x) => (MdNodeKind::TableRow, x.position, x.children@),
        Node::TableCell(x) => (MdNodeKind::TableCell, x.position, x.children@),
        Node::ListItem(x) => (MdNodeKind::ListItem, x.position, x.children@),
        Node::Definition(x) => (MdNodeKind::Definition, x.position, seq![]),
        Node::Paragraph(x) => (MdNodeKind::Paragraph, x.position, x.children@),
    }
}

/// The byte range of a position.
pub open spec fn range_of(position: Option<markdown::unist::Position>) -> Option<Range<usize>> {
    match position {
        Some(p) => Some(Range { start: p.start.offset, end: p.end.offset }),
        None => None,
    }
}

/// `t` is the library's view of `n`: the same kind and byte range, and a
/// view of each child, in order.
pub open spec fn shows(t: MdNode, n: Node) -> bool
    decreases t,
{
    let (kind, position, children) = node_parts(n);
    &&& t.kind == kind
    &&& t.position == range_of(position)
    &&& shows_all(t.children@, children)
}

pub open spec fn shows_all(ts: Seq<MdNode>, ns: Seq<Node>) -> bool
    decreases ts,
{
    &&& ts.len() == ns.len()
    &&& ts.len() > 0 ==> shows_all(ts.drop_last(), ns.drop_last()) && shows(ts.last(), ns.last())
}

/// Two views of one node have the same containers, protected ranges and math.
pub proof fn lemma_shows_agree(t1: MdNode, t2: MdNode, n: Node)
    requires
        shows(t1, n),
        shows(t2, n),
    ensures
        math_containers(t1) == math_containers(t2),
        math_protected(t1) == math_protected(t2),
        parsed_math(t1) == parsed_math(t2),
    decreases t1,
{
    let (kind, position, children) = node_parts(n);
    assert(decreases_to!(t1 => t1.children));
    lemma_shows_all_agree(t1.children@, t2.children@, children);
}

pub proof fn lemma_shows_all_agree(ts1: Seq<MdNode>, ts2: Seq<MdNode>, ns: Seq<Node>)
    requires
        shows_all(ts1, ns),
        shows_all(ts2, ns),
    ensures
        math_containers_of(ts1) == math_containers_of(ts2),
        math_protected_of(ts1) == math_protected_of(ts2),
        parsed_math_of(ts1) == parsed_math_of(ts2),
    decreases ts1,
{
    if ts1.len() > 0 {
        lemma_shows_all_agree(ts1.drop_last(), ts2.drop_last(), ns.drop_last());
        lemma_shows_agree(ts1.last(), ts2.last(), ns.last());
    }
}

/// The byte range of a node, when it has a position.
pub fn node_range(n: &Node) -> (r: Option<Range<usize>>)
    ensures
        r == range_of(node_parts(*n).1),
{
    let position = match n {
        Node::Root(x) => &x.position,
        Node::Blockquote(x) => &x.position,
        Node::FootnoteDefinition(x) => &x.position,
        Node::MdxJsxFlowElement(x) => &x.position,
        Node::List(x) => &x.position,
        Node::MdxjsEsm(x) => &x.position,
        Node::Toml(x) => &x.position,
        Node::Yaml(x) => &x.position,
        Node::Break(x) => &x.position,
        Node::InlineCode(x) => &x.position,
        Node::InlineMath(x) => &x.position,
        Node::Delete(x) => &x.position,
        Node::Emphasis(x) => &x.position,
        Node::MdxTextExpression(x) => &x.position,
        Node::FootnoteReference(x) => &x.position,
        Node::Html(x) => &x.position,
        Node::Image(x) => &x.position,
        Node::ImageReference(x) => &x.position,
        Node::MdxJsxTextElement(x) => &x.position,
        Node::Link(x) => &x.position,
        Node::LinkReference(x) => &x.position,
        Node::Strong(x) => &x.position,
        Node::Text(x) => &x.position,
        Node::Code(x) => &x.position,
        Node::Math(x) => &x.position,
        Node::MdxFlowExpression(x) => &x.position,
        Node::Heading(x) => &x.position,
        Node::Table(x) => &x.position,
        Node::ThematicBreak(x) => &x.position,
        Node::TableRow(x) => &x.position,
        Node::TableCell(x) => &x.position,
        Node::ListItem(x) => &x.position,
        Node::Definition(x) => &x.position,
        Node::Paragraph(x) => &x.position,
    };
    match position {
        Some(p) => Some(p.start.offset..p.end.offset),
        None => None,
    }
}

/// The library's view of a node.
pub fn to_md_node(n: &Node) -> (t: MdNode)
    ensures
        shows(t, *n),
    decreases n,
{
    let (kind, position, children) = match n {
            Node::Root(x) => (MdNodeKind::Root, &x.position, Some(&x.children)),
            Node::Blockquote(x) => (MdNodeKind::Blockquote, &x.position, Some(&x.children)),
            Node::FootnoteDefinition(x) => (MdNodeKind::FootnoteDefinition, &x.position, Some(&x.children)),
            Node::MdxJsxFlowElement(x) => (MdNodeKind::MdxJsxFlowElement, &x.position, Some(&x.children)),
            Node::List(x) => (MdNodeKind::List, &x.position, Some(&x.children)),
            Node::MdxjsEsm(x) => (MdNodeKind::MdxjsEsm, &x.position, None),
            Node::Toml(x) => (MdNodeKind::Toml, &x.position, None),
            Node::Yaml(x) => (MdNodeKind::Yaml, &x.position, None),
            Node::Break(x) => (MdNodeKind::Break, &x.position, None),
            Node::InlineCode(x) => (MdNodeKind::InlineCode, &x.position, None),
            Node::InlineMath(x) => (MdNodeKind::InlineMath, &x.position, None),
            Node::Delete(x) => (MdNodeKind::Delete, &x.position, Some(&x.children)),
            Node::Emphasis(x) => (MdNodeKind::Emphasis, &x.position, Some(&x.children)),
            Node::MdxTextExpression(x) => (MdNodeKind::MdxTextExpression, &x.position, None),
            Node::FootnoteReference(x) => (MdNodeKind::FootnoteReference, &x.position, None),
            Node::Html(x) => (MdNodeKind::Html, &x.position, None),
            Node::Image(x) => (MdNodeKind::Image, &x.position, None),
            Node::ImageReference(x) => (MdNodeKind::ImageReference, &x.position, None),
            Node::MdxJsxTextElement(x) => (MdNodeKind::MdxJsxTextElement, &x.position, Some(&x.children)),
            Node::Link(x) => (MdNodeKind::Link, &x.position, Some(&x.children)),
            Node::LinkReference(x) => (MdNodeKind::LinkReference, &x.position, Some(&x.children)),
            Node::Strong(x) => (MdNodeKind::Strong, &x.position, Some(&x.children)),
            Node::Text(x) => (MdNodeKind::Text, &x.position, None),
            Node::Code(x) => (MdNodeKind::Code, &x.position, None),
            Node::Math(x) => (MdNodeKind::Math, &x.position, None),
            Node::MdxFlowExpression(x) => (MdNodeKind::MdxFlowExpression, &x.position, None),
            Node::Heading(x) => (MdNodeKind::Heading, &x.position, Some(&x.children)),
            Node::Table(x) => (MdNodeKind::Table, &x.position, Some(&x.children)),
            Node::ThematicBreak(x) => (MdNodeKind::ThematicBreak, &x.position, None),
            Node::TableRow(x) => (MdNodeKind::TableRow, &x.position, Some(&x.children)),
            Node::TableCell(x) => (MdNodeKind::TableCell, &x.position, Some(&x.children)),
            Node::ListItem(x) => (MdNodeKind::ListItem, &x.position, Some(&x.children)),
            Node::Definition(x) => (MdNodeKind::Definition, &x.position, None),
            Node::Paragraph(x) => (MdNodeKind::Paragraph, &x.position, Some(&x.children)),
    };
    let range = match position {
        Some(p) => Some(p.start.offset..p.end.offset),
        None => None,
    };
    let mut out: Vec<MdNode> = Vec::new();
    match children {
        Some(cs) => {
            let m = cs.len();
            let mut i: usize = 0;
            while i < m
                invariant
                    m == cs@.len(),
                    i <= m,
                    cs@ == node_parts(*n).2,
                    shows_all(out@, cs@.take(i as int)),
                decreases m - i,
            {
                proof {
                    assert(decreases_to!(*n => cs@[i as int]));
                }
                let child = to_md_node(&cs[i]);
                let ghost before = out@;
                out.push(child);
                proof {
                    assert(out@.drop_last() =~= before);
                    assert(cs@.take(i + 1).drop_last() =~= cs@.take(i as int));
                }
                i = i + 1;
            }
            assert(cs@.take(m as int) =~= cs@);
        },
        None => {},
    }
    MdNode { kind, position: range, children: out }
}

} // verus!

verus! {

/// The constructs the parser is asked to recognise beyond GFM's defaults.
#[derive(Clone, Copy, Debug, PartialEq, Eq, Structural)]
pub struct ConstructFlags {
    pub html_flow: bool,
    pub html_text: bool,
    pub mdx_expression_flow: bool,
    pub mdx_expression_text: bool,
    pub mdx_jsx_flow: bool,
    pub mdx_jsx_text: bool,
    pub math_flow: bool,
    pub math_text: bool,
}

/// The constructs for the enabled extensions: under MDX, raw HTML is off
/// (the parser would give it priority over MDX) and the MDX expressions and
/// JSX are on; under math, flow and text math are on.
pub open spec fn option_flags(mdx: bool, math: bool) -> ConstructFlags {
    ConstructFlags {
        html_flow: !mdx,
        html_text: !mdx,
        mdx_expression_flow: mdx,
        mdx_expression_text: mdx,
        mdx_jsx_flow: mdx,
        mdx_jsx_text: mdx,
        math_flow: math,
        math_text: math,
    }
}

/// The parser constructs for the enabled extensions (see [`option_flags`]).
pub fn parse_options(mdx: bool, math: bool) -> (r: ConstructFlags)
    ensures
        r == option_flags(mdx, math),
        r.html_flow == !mdx,
        r.html_text == !mdx,
        r.mdx_expression_flow == mdx,
        r.mdx_expression_text == mdx,
        r.mdx_jsx_flow == mdx,
        r.mdx_jsx_text == mdx,
        r.math_flow == math,
        r.math_text == math,
{
    ConstructFlags {
        html_flow: !mdx,
        html_text: !mdx,
        mdx_expression_flow: mdx,
        mdx_expression_text: mdx,
        mdx_jsx_flow: mdx,
        mdx_jsx_text: mdx,
        math_flow: math,
        math_text: math,
    }
}

/// What `markdown::to_mdast` returns for `source` under `ParseOptions::gfm()`
/// with the constructs of `flags`: the tree, or the text of the message it
/// reports.
pub uninterp spec fn md_parse(source: Seq<char>, flags: ConstructFlags) -> Result<Node, Seq<char>>;

/// The tree `source` parses to, if the parser reports no error.
pub open spec fn md_tree(source: Seq<char>, flags: ConstructFlags) -> Option<Node> {
    match md_parse(source, flags) {
        Ok(n) => Some(n),
        Err(_) => None,
    }
}

/// `markdown::to_mdast` on `source`, with `ParseOptions::gfm()` whose
/// constructs are set from `flags`; an error becomes its message's text
/// (`to_string`). What it returns is named, not spelled out: it depends on
/// `source` and the options alone.
#[verifier::external_body]
fn parse_markdown(source: &str, flags: &ConstructFlags) -> (r: Result<Node, String>)
    ensures
        r is Ok <==> md_parse(source@, *flags) is Ok,
        r matches Ok(n) ==> md_parse(source@, *flags) matches Ok(t) && t == n,
        r matches Err(e) ==> md_parse(source@, *flags) matches Err(m) && m == e@,
{
    let mut options = markdown::ParseOptions::gfm();
    options.constructs.html_flow = flags.html_flow;
    options.constructs.html_text = flags.html_text;
    options.constructs.mdx_expression_flow = flags.mdx_expression_flow;
    options.constructs.mdx_expression_text = flags.mdx_expression_text;
    options.constructs.mdx_jsx_flow = flags.mdx_jsx_flow;
    options.constructs.mdx_jsx_text = flags.mdx_jsx_text;
    options.constructs.math_flow = flags.math_flow;
    options.constructs.math_text = flags.math_text;
    markdown::to_mdast(source, &options).map_err(|error| error.to_string())
}

/// A view of `n` (all views of `n` agree on what the math rewrite reads, see
/// [`lemma_shows_agree`]).
pub open spec fn md_of(n: Node) -> MdNode {
    choose|t: MdNode| shows(t, n)
}

/// `source` with the delimiters of `cs` rewritten, as characters.
pub open spec fn rewritten(source: Seq<char>, cs: Seq<LatexMathCandidate>) -> Seq<char> {
    decode_utf8(normalized_bytes(encode_utf8(source), cs))
}

/// The rewrite rounds: parse `source` with the delimiters of `cs` rewritten;
/// keep that tree when every candidate became math, fall back to
/// `unmodified` when none did or the parse failed, otherwise go again with
/// the candidates that did.
pub open spec fn math_rounds(
    source: Seq<char>,
    mdx: bool,
    math: bool,
    unmodified: Node,
    cs: Seq<LatexMathCandidate>,
) -> Node
    decreases cs.len(),
{
    match md_tree(rewritten(source, cs), option_flags(mdx, math)) {
        None => unmodified,
        Some(parsed) => {
            let kept = confirmed(cs, parsed_math(md_of(parsed)));
            if kept.len() == cs.len() {
                parsed
            } else if kept.len() == 0 {
                unmodified
            } else {
                proof {
                    lemma_confirmed_len(cs, parsed_math(md_of(parsed)));
                }
                math_rounds(source, mdx, math, unmodified, kept)
            }
        },
    }
}

/// The tree `parse_ast` returns: `None` when the parser reports an error;
/// without math, or without LaTeX candidates, the parsed tree; otherwise the
/// outcome of the rewrite rounds starting from every candidate.
pub open spec fn parsed_ast(source: Seq<char>, mdx: bool, math: bool) -> Option<Node> {
    match md_tree(source, option_flags(mdx, math)) {
        None => None,
        Some(unmodified) => {
            let root = md_of(unmodified);
            let bytes = encode_utf8(source);
            if !math || !containers_in_bounds(math_containers(root), bytes.len() as int)
                || latex_candidates(bytes, root).len() == 0 {
                Some(unmodified)
            } else {
                Some(math_rounds(source, mdx, math, unmodified, latex_candidates(bytes, root)))
            }
        },
    }
}

/// Parse Markdown with the enabled constructs. LaTeX-style math delimiters
/// are rewritten only in byte-for-byte copies of `source`, so the positions
/// of the tree returned refer to `source`.
#[verifier::spinoff_prover]
pub fn parse_ast(source: &str, mdx: bool, math: bool) -> (r: Result<Node, String>)
    ensures
        r is Ok <==> md_parse(source@, option_flags(mdx, math)) is Ok,
        r matches Err(e) ==> md_parse(source@, option_flags(mdx, math)) matches Err(m) && m == e@,
        r matches Ok(n) ==> parsed_ast(source@, mdx, math) == Some(n),
{
    let flags = parse_options(mdx, math);
    let unmodified = match parse_markdown(source, &flags) {
        Ok(n) => n,
        Err(e) => return Err(e),
    };
    if !math {
        return Ok(unmodified);
    }
    let root = to_md_node(&unmodified);
    proof {
        assert(shows(root, unmodified));
        lemma_shows_agree(root, md_of(unmodified), unmodified);
    }
    let mut parse = match MathParse::begin(source, &root) {
        Some(p) => p,
        None => return Ok(unmodified),
    };
    let ghost goal = parsed_ast(source@, mdx, math);
    assert(goal == Some(math_rounds(source@, mdx, math, unmodified, parse.candidates_view())));
    loop
        invariant
            parse.source_view() == source@,
            md_tree(source@, flags) == Some(unmodified),
            flags == option_flags(mdx, math),
            goal == parsed_ast(source@, mdx, math),
            goal == Some(math_rounds(source@, mdx, math, unmodified, parse.candidates_view())),
        decreases parse.candidates_view().len(),
    {
        let normalized = parse.normalized();
        let parsed = match parse_markdown(normalized.as_str(), &flags) {
            Ok(n) => n,
            Err(_) => return Ok(unmodified),
        };
        let view = to_md_node(&parsed);
        proof {
            assert(shows(view, parsed));
            lemma_shows_agree(view, md_of(parsed), parsed);
        }
        match parse.advance(&view) {
            MathParseStep::Accept => return Ok(parsed),
            MathParseStep::Fallback => return Ok(unmodified),
            MathParseStep::Retry(next) => {
                parse = next;
            },
        }
    }
}

} // verus!
