//! Markdown extension support: the parse context handed to custom parsers,
//! custom nodes, and the LaTeX math rewriting done before parsing.
use std::ops::Range;
use vstd::prelude::*;
use vstd::string::*;
use crate::latex::{
    collect_display_candidates, collect_inline_candidates, dedup_candidates, dedup_ranges,
    display_candidates, inline_candidates, is_backslash, standalone_display,
    standalone_display_candidate, LatexMathCandidate,
};
use crate::sort::{sort_by_start, sorted_by_start};
use crate::text::{str_get, str_get_ok};
use crate::markdown_tree::{node_parts, node_range, range_of};

verus! {

/// The kind of a Markdown syntax-tree node (one per mdast node type).
#[derive(Clone, Copy, Debug, PartialEq, Eq)]
pub enum MdNodeKind {
    Root,
    Blockquote,
    FootnoteDefinition,
    MdxJsxFlowElement,
    List,
    MdxjsEsm,
    Toml,
    Yaml,
    Break,
    InlineCode,
    InlineMath,
    Delete,
    Emphasis,
    MdxTextExpression,
    FootnoteReference,
    Html,
    Image,
    ImageReference,
    MdxJsxTextElement,
    Link,
    LinkReference,
    Strong,
    Text,
    Code,
    Math,
    MdxFlowExpression,
    Heading,
    Table,
    ThematicBreak,
    TableRow,
    TableCell,
    ListItem,
    Definition,
    Paragraph,
}

/// A Markdown syntax-tree node: its kind, its source byte range when known,
/// and its children (empty for leaves).
pub struct MdNode {
    pub kind: MdNodeKind,
    pub position: Option<Range<usize>>,
    pub children: Vec<MdNode>,
}

/// Nodes whose text may hold LaTeX math delimiters to rewrite.
pub open spec fn is_math_container(kind: MdNodeKind) -> bool {
    kind == MdNodeKind::Paragraph || kind == MdNodeKind::Heading || kind == MdNodeKind::TableCell
}

/// Nodes whose source must never be rewritten (code, existing math, HTML,
/// links, images, definitions, MDX and front matter).
pub open spec fn is_math_protected(kind: MdNodeKind) -> bool {
    match kind {
        MdNodeKind::InlineCode | MdNodeKind::InlineMath | MdNodeKind::Code | MdNodeKind::Math
        | MdNodeKind::Html | MdNodeKind::Link | MdNodeKind::LinkReference | MdNodeKind::Image
        | MdNodeKind::ImageReference | MdNodeKind::Definition | MdNodeKind::MdxjsEsm
        | MdNodeKind::MdxTextExpression | MdNodeKind::MdxFlowExpression
        | MdNodeKind::MdxJsxTextElement | MdNodeKind::MdxJsxFlowElement | MdNodeKind::Toml
        | MdNodeKind::Yaml => true,
        _ => false,
    }
}

/// Container ranges found in pre-order; protected nodes are not entered.
pub open spec fn math_containers(node: MdNode) -> Seq<Range<usize>>
    decreases node,
{
    if is_math_protected(node.kind) {
        seq![]
    } else {
        let own = if is_math_container(node.kind) && node.position is Some {
            seq![node.position->0]
        } else {
            seq![]
        };
        own + math_containers_of(node.children@)
    }
}

pub open spec fn math_containers_of(nodes: Seq<MdNode>) -> Seq<Range<usize>>
    decreases nodes,
{
    if nodes.len() == 0 {
        seq![]
    } else {
        math_containers_of(nodes.drop_last()) + math_containers(nodes.last())
    }
}

/// Protected ranges found in pre-order; protected nodes are not entered.
pub open spec fn math_protected(node: MdNode) -> Seq<Range<usize>>
    decreases node,
{
    if is_math_protected(node.kind) {
        if node.position is Some {
            seq![node.position->0]
        } else {
            seq![]
        }
    } else {
        math_protected_of(node.children@)
    }
}

pub open spec fn math_protected_of(nodes: Seq<MdNode>) -> Seq<Range<usize>>
    decreases nodes,
{
    if nodes.len() == 0 {
        seq![]
    } else {
        math_protected_of(nodes.drop_last()) + math_protected(nodes.last())
    }
}

} // verus!

verus! {

pub fn kind_is_math_container(kind: MdNodeKind) -> (r: bool)
    ensures
        r == is_math_container(kind),
{
    match kind {
        MdNodeKind::Paragraph | MdNodeKind::Heading | MdNodeKind::TableCell => true,
        _ => false,
    }
}

pub fn kind_is_math_protected(kind: MdNodeKind) -> (r: bool)
    ensures
        r == is_math_protected(kind),
{
    match kind {
        MdNodeKind::InlineCode | MdNodeKind::InlineMath | MdNodeKind::Code | MdNodeKind::Math
        | MdNodeKind::Html | MdNodeKind::Link | MdNodeKind::LinkReference | MdNodeKind::Image
        | MdNodeKind::ImageReference | MdNodeKind::Definition | MdNodeKind::MdxjsEsm
        | MdNodeKind::MdxTextExpression | MdNodeKind::MdxFlowExpression
        | MdNodeKind::MdxJsxTextElement | MdNodeKind::MdxJsxFlowElement | MdNodeKind::Toml
        | MdNodeKind::Yaml => true,
        _ => false,
    }
}

fn copy_range(r: &Range<usize>) -> (c: Range<usize>)
    ensures
        c == *r,
{
    r.start..r.end
}

/// Collect the source ranges of math containers (paragraphs, headings, table
/// cells) and of protected nodes, walking the tree in pre-order and not
/// entering protected nodes.
pub fn collect_math_source_ranges(
    node: &MdNode,
    containers: &mut Vec<Range<usize>>,
    protected: &mut Vec<Range<usize>>,
)
    ensures
        final(containers)@ == old(containers)@ + math_containers(*node),
        final(protected)@ == old(protected)@ + math_protected(*node),
    decreases node,
{
    if kind_is_math_protected(node.kind) {
        if let Some(r) = &node.position {
            protected.push(copy_range(r));
        }
        assert(containers@ =~= old(containers)@ + math_containers(*node));
        assert(protected@ =~= old(protected)@ + math_protected(*node));
        return ;
    }
    if kind_is_math_container(node.kind) {
        if let Some(r) = &node.position {
            containers.push(copy_range(r));
        }
    }
    let ghost own_containers = containers@;
    let ghost own_protected = protected@;
    let n = node.children.len();
    let mut i: usize = 0;
    assert(node.children@.take(0) =~= Seq::<MdNode>::empty());
    while i < n
        invariant
            n == node.children@.len(),
            i <= n,
            containers@ == own_containers + math_containers_of(node.children@.take(i as int)),
            protected@ == own_protected + math_protected_of(node.children@.take(i as int)),
        decreases n - i,
    {
        let child = &node.children[i];
        proof {
            assert(decreases_to!(node => node.children));
        }
        collect_math_source_ranges(child, containers, protected);
        let ghost next = node.children@.take(i + 1);
        assert(next.drop_last() =~= node.children@.take(i as int));
        assert(next.last() == node.children@[i as int]);
        assert(containers@ =~= own_containers + math_containers_of(next));
        assert(protected@ =~= own_protected + math_protected_of(next));
        i = i + 1;
    }
    assert(node.children@.take(n as int) =~= node.children@);
    assert(containers@ =~= old(containers)@ + math_containers(*node));
    assert(protected@ =~= old(protected)@ + math_protected(*node));
}

} // verus!

verus! {

/// Math nodes in pre-order with their ranges; `true` marks display math.
pub open spec fn parsed_math(node: MdNode) -> Seq<(Range<usize>, bool)>
    decreases node,
{
    let own = if node.position is Some && node.kind == MdNodeKind::InlineMath {
        seq![(node.position->0, false)]
    } else if node.position is Some && node.kind == MdNodeKind::Math {
        seq![(node.position->0, true)]
    } else {
        seq![]
    };
    own + parsed_math_of(node.children@)
}

pub open spec fn parsed_math_of(nodes: Seq<MdNode>) -> Seq<(Range<usize>, bool)>
    decreases nodes,
{
    if nodes.len() == 0 {
        seq![]
    } else {
        parsed_math_of(nodes.drop_last()) + parsed_math(nodes.last())
    }
}

fn visit_parsed_math(node: &MdNode, ranges: &mut Vec<(Range<usize>, bool)>)
    ensures
        final(ranges)@ == old(ranges)@ + parsed_math(*node),
    decreases node,
{
    match (&node.position, node.kind) {
        (Some(r), MdNodeKind::InlineMath) => ranges.push((copy_range(r), false)),
        (Some(r), MdNodeKind::Math) => ranges.push((copy_range(r), true)),
        _ => {},
    }
    let ghost own = ranges@;
    let n = node.children.len();
    let mut i: usize = 0;
    assert(node.children@.take(0) =~= Seq::<MdNode>::empty());
    while i < n
        invariant
            n == node.children@.len(),
            i <= n,
            ranges@ == own + parsed_math_of(node.children@.take(i as int)),
        decreases n - i,
    {
        visit_parsed_math(&node.children[i], ranges);
        let ghost next = node.children@.take(i + 1);
        assert(next.drop_last() =~= node.children@.take(i as int));
        assert(ranges@ =~= own + parsed_math_of(next));
        i = i + 1;
    }
    assert(node.children@.take(n as int) =~= node.children@);
    assert(ranges@ =~= old(ranges)@ + parsed_math(*node));
}

/// Source ranges of the math nodes of a parsed tree, in pre-order, each with
/// whether it is display math.
pub fn parsed_math_ranges(root: &MdNode) -> (r: Vec<(Range<usize>, bool)>)
    ensures
        r@ == parsed_math(*root),
{
    let mut ranges = Vec::new();
    visit_parsed_math(root, &mut ranges);
    assert(ranges@ =~= parsed_math(*root));
    ranges
}

} // verus!

verus! {

pub open spec fn clamp_int(x: int, lo: int, hi: int) -> int {
    if x < lo {
        lo
    } else if x > hi {
        hi
    } else {
        x
    }
}

pub open spec fn max_int(a: int, b: int) -> int {
    if a >= b {
        a
    } else {
        b
    }
}

pub open spec fn min_int(a: int, b: int) -> int {
    if a <= b {
        a
    } else {
        b
    }
}

/// Walk the barriers (in order) across container `c`, collecting inline
/// candidates in the stretches before each barrier; also returns the offset
/// reached.
pub open spec fn barrier_walk(bytes: Seq<u8>, bars: Seq<Range<usize>>, c: Range<usize>) -> (Seq<
    LatexMathCandidate,
>, int)
    decreases bars.len(),
{
    if bars.len() == 0 {
        (seq![], c.start as int)
    } else {
        let (found, cursor) = barrier_walk(bytes, bars.drop_last(), c);
        let bar = bars.last();
        if bar.start < c.end && bar.end > c.start {
            let bs = clamp_int(bar.start as int, c.start as int, c.end as int);
            let more = if cursor < bs {
                inline_candidates(bytes, cursor, bs)
            } else {
                seq![]
            };
            (found + more, max_int(cursor, min_int(bar.end as int, c.end as int)))
        } else {
            (found, cursor)
        }
    }
}

/// Candidates of one container: its standalone display block, or else the
/// inline candidates in the stretches between barriers.
pub open spec fn container_candidates(
    bytes: Seq<u8>,
    bars: Seq<Range<usize>>,
    protected: Seq<Range<usize>>,
    c: Range<usize>,
) -> Seq<LatexMathCandidate> {
    match standalone_display(bytes, c, protected) {
        Some(d) => seq![d],
        None => {
            let (found, cursor) = barrier_walk(bytes, bars, c);
            found + if cursor < c.end {
                inline_candidates(bytes, cursor, c.end as int)
            } else {
                seq![]
            }
        },
    }
}

pub open spec fn containers_candidates(
    bytes: Seq<u8>,
    bars: Seq<Range<usize>>,
    protected: Seq<Range<usize>>,
    cs: Seq<Range<usize>>,
) -> Seq<LatexMathCandidate>
    decreases cs.len(),
{
    if cs.len() == 0 {
        seq![]
    } else {
        containers_candidates(bytes, bars, protected, cs.drop_last()) + container_candidates(
            bytes,
            bars,
            protected,
            cs.last(),
        )
    }
}

/// `source` contains `\(` or `\[`.
pub open spec fn has_math_opener(bytes: Seq<u8>) -> bool {
    exists|i: int|
        0 <= i < bytes.len() - 1 && is_backslash(#[trigger] bytes[i]) && (bytes[i + 1] == 40u8
            || bytes[i + 1] == 91u8)
}

pub open spec fn candidate_ranges(cs: Seq<LatexMathCandidate>) -> Seq<Range<usize>> {
    cs.map_values(|c: LatexMathCandidate| c.range)
}

/// The LaTeX math candidates of `source` given its parsed tree: display
/// blocks outside protected nodes, plus for each container its standalone
/// display block or its inline `\(...\)` spans between barriers; sorted by
/// start with repeated ranges dropped.
pub open spec fn latex_candidates(bytes: Seq<u8>, root: MdNode) -> Seq<LatexMathCandidate> {
    if !has_math_opener(bytes) {
        seq![]
    } else {
        let protected = sort_by_start(math_protected(root));
        let display = display_candidates(bytes, protected, 0);
        let bars = sort_by_start(protected + candidate_ranges(display));
        dedup_ranges(
            sort_by_start(
                display + containers_candidates(bytes, bars, protected, math_containers(root)),
            ),
        )
    }
}

/// Containers lie inside the source.
pub open spec fn containers_in_bounds(cs: Seq<Range<usize>>, len: int) -> bool {
    forall|k: int| 0 <= k < cs.len() ==> (#[trigger] cs[k]).start <= cs[k].end <= len
}

fn contains_math_opener(source: &str) -> (r: bool)
    ensures
        r == has_math_opener(source.spec_bytes()),
{
    let bytes = source.as_bytes();
    let n = bytes.len();
    let mut i: usize = 0;
    while i < n && i + 1 < n
        invariant
            bytes@ == source.spec_bytes(),
            n == bytes@.len(),
            i <= n,
            forall|j: int|
                0 <= j < i ==> !(is_backslash(#[trigger] bytes@[j]) && (bytes@[j + 1] == 40u8
                    || bytes@[j + 1] == 91u8)),
        decreases n - i,
    {
        if bytes[i] == 92u8 && (bytes[i + 1] == 40u8 || bytes[i + 1] == 91u8) {
            return true;
        }
        i = i + 1;
    }
    false
}

/// Inline candidates of one container, walking the sorted barriers.
fn collect_container_candidates(
    source: &str,
    container: &Range<usize>,
    barriers: &Vec<Range<usize>>,
    protected: &Vec<Range<usize>>,
    candidates: &mut Vec<LatexMathCandidate>,
)
    requires
        container.start <= container.end <= source.spec_bytes().len(),
    ensures
        final(candidates)@ == old(candidates)@ + container_candidates(
            source.spec_bytes(),
            barriers@,
            protected@,
            *container,
        ),
{
    let ghost bytes = source.spec_bytes();
    if let Some(display) = standalone_display_candidate(source, container, protected.as_slice()) {
        candidates.push(display);
        return ;
    }
    let ghost start = candidates@;
    let mut cursor = container.start;
    let n = barriers.len();
    let mut i: usize = 0;
    assert(barriers@.take(0) =~= Seq::<Range<usize>>::empty());
    while i < n
        invariant
            n == barriers@.len(),
            i <= n,
            bytes == source.spec_bytes(),
            container.start <= container.end <= bytes.len(),
            container.start <= cursor <= container.end,
            ({
                let (found, c) = barrier_walk(bytes, barriers@.take(i as int), *container);
                candidates@ == start + found && c == cursor
            }),
        decreases n - i,
    {
        let barrier = &barriers[i];
        let ghost next = barriers@.take(i + 1);
        assert(next.drop_last() =~= barriers@.take(i as int));
        assert(next.last() == barriers@[i as int]);
        if barrier.start < container.end && barrier.end > container.start {
            let barrier_start = if barrier.start < container.start {
                container.start
            } else if barrier.start > container.end {
                container.end
            } else {
                barrier.start
            };
            let ghost before = candidates@;
            if cursor < barrier_start {
                collect_inline_candidates(source, cursor..barrier_start, candidates);
            }
            assert(candidates@ =~= start + barrier_walk(bytes, next, *container).0);
            let reach = if barrier.end < container.end {
                barrier.end
            } else {
                container.end
            };
            if reach > cursor {
                cursor = reach;
            }
        }
        i = i + 1;
    }
    assert(barriers@.take(n as int) =~= barriers@);
    if cursor < container.end {
        collect_inline_candidates(source, cursor..container.end, candidates);
    }
    assert(candidates@ =~= old(candidates)@ + container_candidates(
        bytes,
        barriers@,
        protected@,
        *container,
    ));
}

} // verus!

verus! {

/// The LaTeX-style math candidates of `source` (see [`latex_candidates`]),
/// given the tree it parses to.
///
/// Every container must lie inside `source`, start before end. A tree parsed
/// from `source` always does. Scanning past the end of `source` would index
/// out of bounds; an inverted container is harmless only when no protected
/// range or display candidate meets it (otherwise clamping a barrier to it
/// fails), and since the display candidates are found here, that cannot be
/// asked of a caller. [`MathParse::begin`](crate::math_parse::MathParse::begin)
/// takes any tree and leaves one with such containers unrewritten.
pub fn latex_math_candidates(source: &str, root: &MdNode) -> (r: Vec<LatexMathCandidate>)
    requires
        containers_in_bounds(math_containers(*root), source.spec_bytes().len() as int),
    ensures
        r@ == latex_candidates(source.spec_bytes(), *root),
{
    if !contains_math_opener(source) {
        return Vec::new();
    }
    let ghost bytes = source.spec_bytes();
    let mut containers: Vec<Range<usize>> = Vec::new();
    let mut protected: Vec<Range<usize>> = Vec::new();
    collect_math_source_ranges(root, &mut containers, &mut protected);
    assert(containers@ =~= math_containers(*root));
    assert(protected@ =~= math_protected(*root));
    let protected = sorted_by_start(&protected);

    let mut candidates: Vec<LatexMathCandidate> = Vec::new();
    collect_display_candidates(source, protected.as_slice(), &mut candidates);
    assert(candidates@ =~= display_candidates(bytes, protected@, 0));
    let ghost display = candidates@;

    let mut barriers: Vec<Range<usize>> = Vec::new();
    let mut k: usize = 0;
    while k < protected.len()
        invariant
            k <= protected@.len(),
            barriers@ == protected@.take(k as int),
        decreases protected@.len() - k,
    {
        barriers.push(copy_range(&protected[k]));
        assert(barriers@ =~= protected@.take(k + 1));
        k = k + 1;
    }
    assert(protected@.take(protected@.len() as int) =~= protected@);
    let mut k: usize = 0;
    while k < candidates.len()
        invariant
            candidates@ == display,
            k <= candidates@.len(),
            barriers@ == protected@ + candidate_ranges(candidates@.take(k as int)),
        decreases candidates@.len() - k,
    {
        barriers.push(copy_range(&candidates[k].range));
        assert(candidate_ranges(candidates@.take(k + 1)) =~= candidate_ranges(
            candidates@.take(k as int),
        ).push(candidates@[k as int].range));
        assert(barriers@ =~= protected@ + candidate_ranges(candidates@.take(k + 1)));
        k = k + 1;
    }
    assert(candidates@.take(candidates@.len() as int) =~= candidates@);
    let barriers = sorted_by_start(&barriers);

    let n = containers.len();
    let mut i: usize = 0;
    assert(containers@.take(0) =~= Seq::<Range<usize>>::empty());
    while i < n
        invariant
            n == containers@.len(),
            i <= n,
            bytes == source.spec_bytes(),
            containers_in_bounds(containers@, bytes.len() as int),
            candidates@ == display + containers_candidates(
                bytes,
                barriers@,
                protected@,
                containers@.take(i as int),
            ),
        decreases n - i,
    {
        assert(containers@[i as int].start <= containers@[i as int].end <= bytes.len());
        collect_container_candidates(source, &containers[i], &barriers, &protected, &mut candidates);
        let ghost next = containers@.take(i + 1);
        assert(next.drop_last() =~= containers@.take(i as int));
        assert(next.last() == containers@[i as int]);
        assert(candidates@ =~= display + containers_candidates(
            bytes,
            barriers@,
            protected@,
            next,
        ));
        i = i + 1;
    }
    assert(containers@.take(n as int) =~= containers@);
    let sorted = sorted_by_start(&candidates);
    dedup_candidates(sorted)
}

} // verus!

verus! {

/// Context passed to custom Markdown parsers.
pub struct MarkdownParseContext<'a> {
    source: &'a str,
    offset: usize,
}

impl<'a> MarkdownParseContext<'a> {
    pub fn new(source: &'a str, offset: usize) -> (r: Self)
        ensures
            r.source_view() == source@,
            r.source_bytes() == source.spec_bytes(),
            r.offset_view() == offset,
    {
        MarkdownParseContext { source, offset }
    }

    pub closed spec fn source_view(&self) -> Seq<char> {
        self.source@
    }

    pub closed spec fn source_bytes(&self) -> Seq<u8> {
        self.source.spec_bytes()
    }

    pub closed spec fn offset_view(&self) -> usize {
        self.offset
    }

    /// Source text for the Markdown fragment currently being parsed.
    pub fn source(&self) -> (r: &'a str)
        ensures
            r@ == self.source_view(),
            r.spec_bytes() == self.source_bytes(),
    {
        self.source
    }

    /// Byte offset of `source` in the full document when parsing an appended
    /// fragment.
    pub fn offset(&self) -> (r: usize)
        ensures
            r == self.offset_view(),
    {
        self.offset
    }

    /// Source slice for a node: `None` when the node has no position or its
    /// range is not a slice of `source` on character boundaries.
    pub fn node_source(&self, node: &markdown::mdast::Node) -> (r: Option<&'a str>)
        ensures
            r is Some <==> (range_of(node_parts(*node).1) matches Some(p) && str_get_ok(
                self.source_bytes(),
                p.start as int,
                p.end as int,
            )),
            r matches Some(s) ==> range_of(node_parts(*node).1) matches Some(p) && s.spec_bytes()
                == self.source_bytes().subrange(p.start as int, p.end as int),
    {
        match node_range(node) {
            Some(p) => str_get(self.source, p.start, p.end),
            None => None,
        }
    }
}

/// Layout requested by a custom Markdown phrasing node.
#[derive(Debug, Clone, Copy, PartialEq, Eq, Structural)]
pub enum MarkdownNodeLayout {
    /// Participate in the paragraph's inline wrapping flow.
    Inline,
    /// Occupy the full document width when it is the paragraph's sole child.
    FullWidth,
}

impl Default for MarkdownNodeLayout {
    fn default() -> (r: Self)
        ensures
            r == MarkdownNodeLayout::Inline,
    {
        MarkdownNodeLayout::Inline
    }
}

} // verus!

verus! {

/// Law: the LaTeX math candidates come out in order of their start offsets,
/// no two neighbours with the same range.
pub proof fn law_latex_candidates_ordered(bytes: Seq<u8>, root: MdNode)
    ensures
        crate::sort::is_sorted_by_start(latex_candidates(bytes, root)),
        forall|k: int|
            0 < k < latex_candidates(bytes, root).len() ==> latex_candidates(bytes, root)[k
                - 1].range != (#[trigger] latex_candidates(bytes, root)[k]).range,
{
    if has_math_opener(bytes) {
        let protected = sort_by_start(math_protected(root));
        let display = display_candidates(bytes, protected, 0);
        let bars = sort_by_start(protected + candidate_ranges(display));
        let all = display + containers_candidates(bytes, bars, protected, math_containers(root));
        crate::sort::law_sort_by_start(all);
        crate::latex::lemma_dedup_sorted(sort_by_start(all));
        crate::latex::lemma_dedup_distinct(sort_by_start(all));
    }
}

} // verus!

verus! {

/// A custom Markdown node: a stable name, its text and Markdown
/// representations, and the layout it asks for.
#[derive(Debug)]
pub struct MarkdownNode {
    name: String,
    text: String,
    markdown: String,
    layout: MarkdownNodeLayout,
}

impl MarkdownNode {
    pub closed spec fn name_view(&self) -> Seq<char> {
        self.name@
    }

    pub closed spec fn text_view(&self) -> Seq<char> {
        self.text@
    }

    pub closed spec fn markdown_view(&self) -> Seq<char> {
        self.markdown@
    }

    pub closed spec fn layout_view(&self) -> MarkdownNodeLayout {
        self.layout
    }

    /// A node named `name`, with empty text and Markdown, laid out inline.
    pub fn new(name: &str) -> (r: Self)
        ensures
            r.name_view() == name@,
            r.text_view() == Seq::<char>::empty(),
            r.markdown_view() == Seq::<char>::empty(),
            r.layout_view() == MarkdownNodeLayout::Inline,
    {
        MarkdownNode {
            name: name.to_owned(),
            text: String::new(),
            markdown: String::new(),
            layout: MarkdownNodeLayout::Inline,
        }
    }

    /// Stable name for this node.
    pub fn name(&self) -> (r: &str)
        ensures
            r@ == self.name_view(),
    {
        self.name.as_str()
    }

    /// Text representation of this node.
    pub fn as_text(&self) -> (r: &str)
        ensures
            r@ == self.text_view(),
    {
        self.text.as_str()
    }

    /// Markdown representation of this node.
    pub fn as_markdown(&self) -> (r: &str)
        ensures
            r@ == self.markdown_view(),
    {
        self.markdown.as_str()
    }

    /// Set the text representation.
    pub fn text(self, text: &str) -> (r: Self)
        ensures
            r.text_view() == text@,
            r.name_view() == self.name_view(),
            r.markdown_view() == self.markdown_view(),
            r.layout_view() == self.layout_view(),
    {
        MarkdownNode { text: text.to_owned(), ..self }
    }

    /// Set the Markdown representation.
    pub fn markdown(self, markdown: &str) -> (r: Self)
        ensures
            r.markdown_view() == markdown@,
            r.name_view() == self.name_view(),
            r.text_view() == self.text_view(),
            r.layout_view() == self.layout_view(),
    {
        MarkdownNode { markdown: markdown.to_owned(), ..self }
    }

    /// Ask for full-width layout when this node is its paragraph's sole child.
    pub fn full_width(self) -> (r: Self)
        ensures
            r.layout_view() == MarkdownNodeLayout::FullWidth,
            r.name_view() == self.name_view(),
            r.text_view() == self.text_view(),
            r.markdown_view() == self.markdown_view(),
    {
        MarkdownNode { layout: MarkdownNodeLayout::FullWidth, ..self }
    }

    /// The layout this node asks for.
    pub fn layout(&self) -> (r: MarkdownNodeLayout)
        ensures
            r == self.layout_view(),
    {
        self.layout
    }

    /// The Markdown written back for this node: its Markdown representation,
    /// or its text when that is empty.
    pub fn to_markdown(&self) -> (r: String)
        ensures
            r@ == if self.markdown_view().len() == 0 {
                self.text_view()
            } else {
                self.markdown_view()
            },
    {
        if self.markdown.as_str().is_empty() {
            self.text.clone()
        } else {
            self.markdown.clone()
        }
    }
}

} // verus!

verus! {

impl PartialEq for MarkdownNode {
    fn eq(&self, other: &Self) -> (r: bool) {
        self.name == other.name && self.text == other.text && self.markdown == other.markdown
            && self.layout == other.layout
    }
}

impl vstd::std_specs::cmp::PartialEqSpecImpl for MarkdownNode {
    open spec fn obeys_eq_spec() -> bool {
        true
    }

    open spec fn eq_spec(&self, other: &Self) -> bool {
        &&& self.name_view() == other.name_view()
        &&& self.text_view() == other.text_view()
        &&& self.markdown_view() == other.markdown_view()
        &&& self.layout_view() == other.layout_view()
    }
}

} // verus!
