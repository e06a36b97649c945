//! Where the LaTeX math candidates of a Markdown source can lie: never across
//! a protected node, and inline ones inside a math container; which node kinds
//! are protected, entered or containers; and that inline math in a container is
//! found wherever barriers stand around it.
use std::ops::Range;
use vstd::prelude::*;
use crate::latex::{
    dedup_ranges, lemma_dedup_nonempty, candidate, display_candidates, find_display_close, find_inline_close, inline_candidates,
    is_delimiter_at, lemma_dedup_preserves, lemma_find_display_close, lemma_find_inline_close,
    opens_display, overlaps, standalone_display, LatexMathCandidate, LatexMathMode,
};
use crate::markdown_ext::{
    barrier_walk, candidate_ranges, clamp_int, container_candidates, containers_candidates,
    containers_in_bounds, has_math_opener, latex_candidates, math_containers, math_containers_of,
    math_protected, math_protected_of, max_int, min_int, MdNode, MdNodeKind,
};
use crate::sort::{is_sorted_by_start, law_sort_by_start, lemma_sort_preserves, sort_by_start, StartKey};

verus! {

broadcast use vstd::seq_lib::group_to_multiset_ensures;

/// `x` and `b` share no byte.
pub open spec fn apart(x: Range<usize>, b: Range<usize>) -> bool {
    !(b.start < x.end && b.end > x.start)
}

/// `x` lies within `c`.
pub open spec fn inside(x: Range<usize>, c: Range<usize>) -> bool {
    c.start <= x.start && x.end <= c.end
}

/// `x` shares no byte with any of `bars`.
pub open spec fn apart_from_all(x: Range<usize>, bars: Seq<Range<usize>>) -> bool {
    forall|j: int| 0 <= j < bars.len() ==> apart(x, #[trigger] bars[j])
}

proof fn lemma_inline_bounds(bytes: Seq<u8>, lo: int, hi: int)
    requires
        0 <= lo,
        hi <= bytes.len() <= usize::MAX,
    ensures
        forall|i: int|
            0 <= i < inline_candidates(bytes, lo, hi).len() ==> {
                let x = #[trigger] inline_candidates(bytes, lo, hi)[i];
                &&& lo <= x.range.start
                &&& x.range.start < x.range.end <= hi
                &&& x.mode == LatexMathMode::Inline
            },
    decreases hi - lo,
{
    if lo + 1 >= hi {
    } else if !is_delimiter_at(bytes, lo, 40u8) {
        lemma_inline_bounds(bytes, lo + 1, hi);
    } else {
        lemma_find_inline_close(bytes, lo + 2, hi);
        match find_inline_close(bytes, lo + 2, hi) {
            None => {},
            Some(close) => {
                lemma_inline_bounds(bytes, close + 2, hi);
                let all = inline_candidates(bytes, lo, hi);
                let rest = inline_candidates(bytes, close + 2, hi);
                let found = if crate::latex::is_safe_dollar_fence(bytes.subrange(lo + 2, close)) {
                    seq![candidate(lo, close + 2, LatexMathMode::Inline)]
                } else {
                    seq![]
                };
                assert(all == found + rest);
                assert forall|i: int| 0 <= i < all.len() implies {
                    let x = #[trigger] all[i];
                    &&& lo <= x.range.start
                    &&& x.range.start < x.range.end <= hi
                    &&& x.mode == LatexMathMode::Inline
                } by {
                    if i >= found.len() {
                        assert(all[i] == rest[i - found.len()]);
                    }
                }
            },
        }
    }
}

/// Walking sorted barriers across a container finds inline candidates inside
/// the container and apart from every barrier.
proof fn lemma_walk_apart(bytes: Seq<u8>, full: Seq<Range<usize>>, c: Range<usize>, k: int)
    requires
        c.start <= c.end <= bytes.len() <= usize::MAX,
        is_sorted_by_start(full),
        0 <= k <= full.len(),
    ensures
        ({
            let (found, cursor) = barrier_walk(bytes, full.take(k), c);
            &&& c.start <= cursor <= c.end
            &&& forall|j: int|
                0 <= j < k && full[j].start < c.end && full[j].end > c.start ==> min_int(
                    #[trigger] full[j].end as int,
                    c.end as int,
                ) <= cursor
            &&& forall|i: int|
                0 <= i < found.len() ==> {
                    let x = #[trigger] found[i];
                    &&& inside(x.range, c)
                    &&& x.mode == LatexMathMode::Inline
                    &&& apart_from_all(x.range, full)
                }
        }),
    decreases k,
{
    if k == 0 {
        assert(full.take(0) =~= Seq::<Range<usize>>::empty());
    } else {
        lemma_walk_apart(bytes, full, c, k - 1);
        let bars = full.take(k);
        assert(bars.drop_last() =~= full.take(k - 1));
        assert(bars.last() == full[k - 1]);
        let (found0, cursor0) = barrier_walk(bytes, full.take(k - 1), c);
        let bar = full[k - 1];
        if bar.start < c.end && bar.end > c.start {
            let bs = clamp_int(bar.start as int, c.start as int, c.end as int);
            let (found, cursor) = barrier_walk(bytes, bars, c);
            if cursor0 < bs {
                lemma_inline_bounds(bytes, cursor0, bs);
                let more = inline_candidates(bytes, cursor0, bs);
                assert(found == found0 + more);
                assert forall|i: int| 0 <= i < found.len() implies {
                    let x = #[trigger] found[i];
                    &&& inside(x.range, c)
                    &&& x.mode == LatexMathMode::Inline
                    &&& apart_from_all(x.range, full)
                } by {
                    if i >= found0.len() {
                        let x = more[i - found0.len()];
                        assert(found[i] == x);
                        assert(bs <= bar.start);
                        assert forall|j: int| 0 <= j < full.len() implies apart(
                            x.range,
                            #[trigger] full[j],
                        ) by {
                            if j >= k - 1 {
                                assert(full[k - 1].start <= full[j].start);
                            } else if full[j].start < c.end && full[j].end > c.start {
                                assert(min_int(full[j].end as int, c.end as int) <= cursor0);
                            }
                        }
                    } else {
                        assert(found[i] == found0[i]);
                    }
                }
            } else {
                assert(found =~= found0);
            }
        }
    }
}

/// Where a candidate may lie: apart from every protected range, and inside
/// one of `containers` when it is inline.
pub open spec fn well_placed(
    x: LatexMathCandidate,
    protected: Seq<Range<usize>>,
    containers: Seq<Range<usize>>,
) -> bool {
    &&& forall|p: Range<usize>| protected.contains(p) ==> apart(x.range, p)
    &&& x.mode == LatexMathMode::Inline ==> exists|k: int|
        0 <= k < containers.len() && inside(x.range, #[trigger] containers[k])
}

proof fn lemma_container_placed(
    bytes: Seq<u8>,
    bars: Seq<Range<usize>>,
    protected: Seq<Range<usize>>,
    c: Range<usize>,
    containers: Seq<Range<usize>>,
    k: int,
)
    requires
        vstd::utf8::valid_utf8(bytes),
        c.start <= c.end <= bytes.len() <= usize::MAX,
        is_sorted_by_start(bars),
        forall|p: Range<usize>| protected.contains(p) ==> bars.contains(p),
        0 <= k < containers.len(),
        containers[k] == c,
    ensures
        forall|i: int|
            0 <= i < container_candidates(bytes, bars, protected, c).len() ==> well_placed(
                #[trigger] container_candidates(bytes, bars, protected, c)[i],
                protected,
                containers,
            ),
{
    let all = container_candidates(bytes, bars, protected, c);
    match standalone_display(bytes, c, protected) {
        Some(d) => {
            assert(all =~= seq![d]);
            let a = c.start as int;
            let chars = vstd::utf8::decode_utf8(bytes.subrange(a, c.end as int));
            let start = a + vstd::utf8::encode_utf8(chars.take(crate::text::leading_ws(chars) as int)).len();
            let end = a + vstd::utf8::encode_utf8(
                chars.take(chars.len() - crate::text::trailing_ws(chars)),
            ).len();
            crate::text::lemma_boundary_le_len(bytes, start);
            crate::text::lemma_boundary_le_len(bytes, end);
            assert(d.range.start == start && d.range.end == end);
            assert forall|p: Range<usize>| protected.contains(p) implies apart(d.range, p) by {
                let j = choose|j: int| 0 <= j < protected.len() && protected[j] == p;
                assert(!(protected[j].start < d.range.end && protected[j].end > d.range.start));
            }
        },
        None => {
            lemma_walk_apart(bytes, bars, c, bars.len() as int);
            assert(bars.take(bars.len() as int) =~= bars);
            let (found, cursor) = barrier_walk(bytes, bars, c);
            let tail = if cursor < c.end {
                inline_candidates(bytes, cursor, c.end as int)
            } else {
                seq![]
            };
            if cursor < c.end {
                lemma_inline_bounds(bytes, cursor, c.end as int);
            }
            assert(all == found + tail);
            assert forall|i: int| 0 <= i < all.len() implies well_placed(
                #[trigger] all[i],
                protected,
                containers,
            ) by {
                let x = all[i];
                if i < found.len() {
                    assert(x == found[i]);
                } else {
                    assert(x == tail[i - found.len()]);
                    assert forall|j: int| 0 <= j < bars.len() implies apart(
                        x.range,
                        #[trigger] bars[j],
                    ) by {
                        if bars[j].start < c.end && bars[j].end > c.start {
                            assert(min_int(bars[j].end as int, c.end as int) <= cursor);
                        }
                    }
                }
                assert(inside(x.range, containers[k]));
                assert forall|p: Range<usize>| protected.contains(p) implies apart(x.range, p) by {
                    let j = choose|j: int| 0 <= j < bars.len() && bars[j] == p;
                    assert(apart(x.range, bars[j]));
                }
            }
        },
    }
}

proof fn lemma_containers_placed(
    bytes: Seq<u8>,
    bars: Seq<Range<usize>>,
    protected: Seq<Range<usize>>,
    containers: Seq<Range<usize>>,
    n: int,
)
    requires
        vstd::utf8::valid_utf8(bytes),
        bytes.len() <= usize::MAX,
        containers_in_bounds(containers, bytes.len() as int),
        is_sorted_by_start(bars),
        forall|p: Range<usize>| protected.contains(p) ==> bars.contains(p),
        0 <= n <= containers.len(),
    ensures
        forall|i: int|
            0 <= i < containers_candidates(bytes, bars, protected, containers.take(n)).len()
                ==> well_placed(
                #[trigger] containers_candidates(bytes, bars, protected, containers.take(n))[i],
                protected,
                containers,
            ),
    decreases n,
{
    if n > 0 {
        let cs = containers.take(n);
        assert(cs.drop_last() =~= containers.take(n - 1));
        assert(cs.last() == containers[n - 1]);
        lemma_containers_placed(bytes, bars, protected, containers, n - 1);
        let c = containers[n - 1];
        lemma_container_placed(bytes, bars, protected, c, containers, n - 1);
        let before = containers_candidates(bytes, bars, protected, containers.take(n - 1));
        let more = container_candidates(bytes, bars, protected, c);
        let all = containers_candidates(bytes, bars, protected, cs);
        assert(all == before + more);
        assert forall|i: int| 0 <= i < all.len() implies well_placed(
            #[trigger] all[i],
            protected,
            containers,
        ) by {
            if i < before.len() {
                assert(all[i] == before[i]);
            } else {
                assert(all[i] == more[i - before.len()]);
            }
        }
    }
}

proof fn lemma_display_placed(bytes: Seq<u8>, protected: Seq<Range<usize>>, cursor: int)
    requires
        bytes.len() <= usize::MAX,
    ensures
        forall|i: int|
            0 <= i < display_candidates(bytes, protected, cursor).len() ==> {
                let x = #[trigger] display_candidates(bytes, protected, cursor)[i];
                &&& x.mode == LatexMathMode::Display
                &&& forall|p: Range<usize>| protected.contains(p) ==> apart(x.range, p)
            },
    decreases bytes.len() - cursor,
{
    if cursor < 0 || cursor + 1 >= bytes.len() {
    } else if !opens_display(bytes, protected, cursor) {
        lemma_display_placed(bytes, protected, cursor + 1);
    } else {
        lemma_find_display_close(bytes, cursor, cursor + 2);
        match find_display_close(bytes, cursor, cursor + 2) {
            None => {
                lemma_display_placed(bytes, protected, cursor + 2);
            },
            Some(close) => {
                lemma_display_placed(bytes, protected, close + 2);
                let all = display_candidates(bytes, protected, cursor);
                let rest = display_candidates(bytes, protected, close + 2);
                let keep = !overlaps(protected, cursor, close + 2)
                    && crate::latex::is_safe_dollar_fence(bytes.subrange(cursor + 2, close));
                let found = if keep {
                    seq![candidate(cursor, close + 2, LatexMathMode::Display)]
                } else {
                    seq![]
                };
                assert(all == found + rest);
                assert forall|i: int| 0 <= i < all.len() implies {
                    let x = #[trigger] all[i];
                    &&& x.mode == LatexMathMode::Display
                    &&& forall|p: Range<usize>| protected.contains(p) ==> apart(x.range, p)
                } by {
                    if i >= found.len() {
                        assert(all[i] == rest[i - found.len()]);
                    } else {
                        let x = all[i];
                        assert forall|p: Range<usize>| protected.contains(p) implies apart(
                            x.range,
                            p,
                        ) by {
                            let j = choose|j: int| 0 <= j < protected.len() && protected[j] == p;
                            assert(!(protected[j].start < close + 2 && protected[j].end > cursor));
                        }
                    }
                }
            },
        }
    }
}

proof fn lemma_sorted_contains(s: Seq<Range<usize>>)
    ensures
        forall|p: Range<usize>| s.contains(p) <==> sort_by_start(s).contains(p),
        is_sorted_by_start(sort_by_start(s)),
{
    law_sort_by_start(s);
    assert forall|p: Range<usize>| s.contains(p) <==> sort_by_start(s).contains(p) by {
        if s.contains(p) {
            assert(s.to_multiset().count(p) > 0);
        }
        if sort_by_start(s).contains(p) {
            assert(sort_by_start(s).to_multiset().count(p) > 0);
        }
    }
}

/// Law: without a `\(` or `\[` in the source there is no candidate; every
/// candidate shares no byte with a protected node (code, math, HTML, links,
/// images, definitions, MDX, front matter), and every inline candidate lies
/// inside a math container (a paragraph, heading or table cell).
pub proof fn law_latex_candidates_placed(bytes: Seq<u8>, root: MdNode)
    requires
        vstd::utf8::valid_utf8(bytes),
        bytes.len() <= usize::MAX,
        containers_in_bounds(math_containers(root), bytes.len() as int),
    ensures
        !has_math_opener(bytes) ==> latex_candidates(bytes, root).len() == 0,
        forall|i: int|
            0 <= i < latex_candidates(bytes, root).len() ==> well_placed(
                #[trigger] latex_candidates(bytes, root)[i],
                math_protected(root),
                math_containers(root),
            ),
{
    if has_math_opener(bytes) {
        let mp = math_protected(root);
        let mc = math_containers(root);
        let protected = sort_by_start(mp);
        lemma_sorted_contains(mp);
        let display = display_candidates(bytes, protected, 0);
        lemma_display_placed(bytes, protected, 0);
        let joined = protected + candidate_ranges(display);
        assert forall|p: Range<usize>| protected.contains(p) implies joined.contains(p) by {
            let j = choose|j: int| 0 <= j < protected.len() && protected[j] == p;
            assert(joined[j] == p);
        }
        let bars = sort_by_start(joined);
        lemma_sorted_contains(joined);
        lemma_containers_placed(bytes, bars, protected, mc, mc.len() as int);
        assert(mc.take(mc.len() as int) =~= mc);
        let inl = containers_candidates(bytes, bars, protected, mc);
        let all = display + inl;
        let ok = |x: LatexMathCandidate| well_placed(x, mp, mc);
        assert forall|i: int| 0 <= i < all.len() implies ok(#[trigger] all[i]) by {
            let x = all[i];
            if i < display.len() {
                assert(x == display[i]);
            } else {
                assert(x == inl[i - display.len()]);
                assert(well_placed(x, protected, mc));
            }
            assert forall|p: Range<usize>| mp.contains(p) implies apart(x.range, p) by {
                assert(protected.contains(p));
            }
        }
        lemma_sort_preserves(all, ok);
        lemma_dedup_preserves(sort_by_start(all), ok);
    }
}

} // verus!

verus! {

/// The node's own byte range, as a one-element list (empty without a position).
pub open spec fn own_range(n: MdNode) -> Seq<Range<usize>> {
    match n.position {
        Some(r) => seq![r],
        None => seq![],
    }
}

/// Law: how each kind of node takes part in the math rewrite.
/// - Code, inline code, math, inline math, HTML, links, link references,
///   images, image references, definitions, MDX ESM, expressions and JSX
///   elements, and TOML/YAML front matter are protected: their whole range
///   is protected and nothing inside them is a container.
/// - Paragraphs, headings and table cells are containers, and are entered.
/// - Every other node (the root, block quotes, lists and list items, tables
///   and rows, emphasis, strong, deletions, footnotes, breaks, text) is only
///   entered: its children's containers and protected ranges are its own.
pub proof fn law_node_kinds(n: MdNode)
    ensures
        (n.kind == MdNodeKind::Code || n.kind == MdNodeKind::InlineCode || n.kind == MdNodeKind::Math
            || n.kind == MdNodeKind::InlineMath || n.kind == MdNodeKind::Html || n.kind == MdNodeKind::Link
            || n.kind == MdNodeKind::LinkReference || n.kind == MdNodeKind::Image || n.kind == MdNodeKind::ImageReference
            || n.kind == MdNodeKind::Definition || n.kind == MdNodeKind::MdxjsEsm || n.kind == MdNodeKind::MdxTextExpression
            || n.kind == MdNodeKind::MdxFlowExpression || n.kind == MdNodeKind::MdxJsxTextElement || n.kind == MdNodeKind::MdxJsxFlowElement
            || n.kind == MdNodeKind::Toml || n.kind == MdNodeKind::Yaml) ==> math_containers(n) == Seq::<Range<usize>>::empty()
            && math_protected(n) == own_range(n),
        (n.kind == MdNodeKind::Paragraph || n.kind == MdNodeKind::Heading || n.kind == MdNodeKind::TableCell) ==> math_containers(n) == own_range(n) + math_containers_of(
            n.children@,
        ) && math_protected(n) == math_protected_of(n.children@),
        (n.kind == MdNodeKind::Root || n.kind == MdNodeKind::Blockquote || n.kind == MdNodeKind::List
            || n.kind == MdNodeKind::ListItem || n.kind == MdNodeKind::Table || n.kind == MdNodeKind::TableRow
            || n.kind == MdNodeKind::Emphasis || n.kind == MdNodeKind::Strong || n.kind == MdNodeKind::Delete
            || n.kind == MdNodeKind::FootnoteDefinition || n.kind == MdNodeKind::FootnoteReference || n.kind == MdNodeKind::Break
            || n.kind == MdNodeKind::ThematicBreak || n.kind == MdNodeKind::Text) ==> math_containers(n) == math_containers_of(n.children@)
            && math_protected(n) == math_protected_of(n.children@),
{
    assert(Seq::<Range<usize>>::empty() + math_containers_of(n.children@) =~= math_containers_of(
        n.children@,
    ));
    if n.position is Some {
        assert(own_range(n) == seq![n.position->0]);
    }
}

} // verus!

verus! {

proof fn lemma_close_extends(bytes: Seq<u8>, from: int, m: int, n: int)
    requires
        m <= n,
        find_inline_close(bytes, from, m) is Some,
    ensures
        find_inline_close(bytes, from, n) == find_inline_close(bytes, from, m),
    decreases m - from,
{
    if from + 1 < m && !is_delimiter_at(bytes, from, 41u8) {
        lemma_close_extends(bytes, from + 1, m, n);
    }
}

/// Scanning a longer stretch finds at least what scanning its start finds.
proof fn lemma_inline_prefix(bytes: Seq<u8>, lo: int, m: int, n: int)
    requires
        0 <= lo,
        m <= n <= bytes.len() <= usize::MAX,
    ensures
        forall|i: int|
            0 <= i < inline_candidates(bytes, lo, m).len() ==> inline_candidates(bytes, lo, n).contains(
                #[trigger] inline_candidates(bytes, lo, m)[i],
            ),
    decreases m - lo,
{
    if lo + 1 >= m {
    } else if !is_delimiter_at(bytes, lo, 40u8) {
        lemma_inline_prefix(bytes, lo + 1, m, n);
        assert(inline_candidates(bytes, lo, m) == inline_candidates(bytes, lo + 1, m));
        assert(inline_candidates(bytes, lo, n) == inline_candidates(bytes, lo + 1, n));
    } else {
        lemma_find_inline_close(bytes, lo + 2, m);
        match find_inline_close(bytes, lo + 2, m) {
            None => {
                assert(inline_candidates(bytes, lo, m).len() == 0);
            },
            Some(close) => {
                lemma_close_extends(bytes, lo + 2, m, n);
                lemma_inline_prefix(bytes, close + 2, m, n);
                let found = if crate::latex::is_safe_dollar_fence(bytes.subrange(lo + 2, close)) {
                    seq![candidate(lo, close + 2, LatexMathMode::Inline)]
                } else {
                    seq![]
                };
                let short = inline_candidates(bytes, lo, m);
                let long = inline_candidates(bytes, lo, n);
                let rs = inline_candidates(bytes, close + 2, m);
                let rl = inline_candidates(bytes, close + 2, n);
                assert(short == found + rs);
                assert(long == found + rl);
                assert forall|i: int| 0 <= i < short.len() implies long.contains(#[trigger] short[i]) by {
                    if i < found.len() {
                        assert(long[i] == short[i]);
                    } else {
                        assert(short[i] == rs[i - found.len()]);
                        assert(rl.contains(rs[i - found.len()]));
                        let j = choose|j: int| 0 <= j < rl.len() && rl[j] == rs[i - found.len()];
                        assert(long[found.len() + j] == rl[j]);
                    }
                }
            },
        }
    }
}

/// A bar `b` meets the stretch `start..m`.
pub open spec fn meets(b: Range<usize>, start: int, m: int) -> bool {
    b.start < m && b.end > start
}

/// A bar `b` shares a byte with container `c` (the walk stops at it).
pub open spec fn crosses(b: Range<usize>, c: Range<usize>) -> bool {
    b.start < c.end && b.end > c.start
}

/// Where a stretch may begin: at the start of container `c`, or where a bar
/// that crosses `c` ends.
pub open spec fn stretch_start(bars: Seq<Range<usize>>, c: Range<usize>, s: int) -> bool {
    s == c.start || exists|j: int|
        0 <= j < bars.len() && (#[trigger] bars[j]).start <= s && bars[j].end == s && crosses(bars[j], c)
}

proof fn lemma_walk_complete(
    bytes: Seq<u8>,
    full: Seq<Range<usize>>,
    c: Range<usize>,
    s: int,
    m: int,
    k: int,
)
    requires
        c.start <= s < m <= c.end <= bytes.len() <= usize::MAX,
        forall|j: int| 0 <= j < full.len() ==> !meets(#[trigger] full[j], s, m),
        is_sorted_by_start(full),
        stretch_start(full, c, s),
        0 <= k <= full.len(),
    ensures
        ({
            let (found, cursor) = barrier_walk(bytes, full.take(k), c);
            let wanted = inline_candidates(bytes, s, m);
            &&& c.start <= cursor
            &&& forall|j: int| 0 <= j < k && crosses(#[trigger] full[j], c) ==> cursor >= min_int(full[j].end as int, c.end as int)
            &&& (forall|j: int| 0 <= j < k ==> !(crosses(#[trigger] full[j], c) && full[j].start >= m)) ==> cursor <= s
            &&& (exists|j: int| 0 <= j < k && crosses(#[trigger] full[j], c) && full[j].start >= m)
                ==> forall|i: int| 0 <= i < wanted.len() ==> found.contains(#[trigger] wanted[i])
        }),
    decreases k,
{
    let wanted = inline_candidates(bytes, s, m);
    if k == 0 {
        assert(full.take(0) =~= Seq::<Range<usize>>::empty());
    } else {
        lemma_walk_complete(bytes, full, c, s, m, k - 1);
        let bars = full.take(k);
        assert(bars.drop_last() =~= full.take(k - 1));
        assert(bars.last() == full[k - 1]);
        let (found0, cursor0) = barrier_walk(bytes, full.take(k - 1), c);
        let (found, cursor) = barrier_walk(bytes, bars, c);
        let bar = full[k - 1];
        if crosses(bar, c) {
            let bs = clamp_int(bar.start as int, c.start as int, c.end as int);
            let more = if cursor0 < bs {
                inline_candidates(bytes, cursor0, bs)
            } else {
                seq![]
            };
            assert(found == found0 + more);
            assert(cursor == max_int(cursor0, min_int(bar.end as int, c.end as int)));
            if !(bar.start >= m) {
                assert(!meets(full[k - 1], s, m));
            }
            assert forall|i: int| 0 <= i < wanted.len() && (exists|j: int| 0 <= j < k && crosses(#[trigger] full[j], c) && full[j].start >= m) implies found.contains(#[trigger] wanted[i]) by {
                if exists|j: int| 0 <= j < k - 1 && crosses(#[trigger] full[j], c) && full[j].start >= m {
                    assert(found0.contains(wanted[i]));
                    let j = choose|j: int| 0 <= j < found0.len() && found0[j] == wanted[i];
                    assert(found[j] == found0[j]);
                } else {
                    assert(bar.start >= m);
                    assert(cursor0 <= s);
                    if s != c.start {
                        let w = choose|w: int|
                            0 <= w < full.len() && (#[trigger] full[w]).start <= s && full[w].end == s
                                && crosses(full[w], c);
                        if w >= k - 1 {
                            assert(full[k - 1].start_key() <= full[w].start_key());
                            assert(false);
                        }
                        assert(cursor0 >= s);
                    }
                    assert(cursor0 == s);
                    lemma_inline_prefix(bytes, s, m, bs);
                    assert(more.contains(wanted[i]));
                    let j = choose|j: int| 0 <= j < more.len() && more[j] == wanted[i];
                    assert(found[found0.len() + j] == more[j]);
                }
            }
        } else {
            assert(found == found0);
            assert(cursor == cursor0);
        }
    }
}

proof fn lemma_container_complete(
    bytes: Seq<u8>,
    bars: Seq<Range<usize>>,
    protected: Seq<Range<usize>>,
    c: Range<usize>,
    s: int,
    m: int,
)
    requires
        c.start <= s <= m <= c.end <= bytes.len() <= usize::MAX,
        forall|j: int| 0 <= j < bars.len() ==> !meets(#[trigger] bars[j], s, m),
        is_sorted_by_start(bars),
        stretch_start(bars, c, s),
        standalone_display(bytes, c, protected) is None,
    ensures
        forall|i: int|
            0 <= i < inline_candidates(bytes, s, m).len() ==> container_candidates(
                bytes,
                bars,
                protected,
                c,
            ).contains(#[trigger] inline_candidates(bytes, s, m)[i]),
{
    let wanted = inline_candidates(bytes, s, m);
    if s == m {
        assert(wanted.len() == 0);
        return;
    }
    lemma_walk_complete(bytes, bars, c, s, m, bars.len() as int);
    assert(bars.take(bars.len() as int) =~= bars);
    let (found, cursor) = barrier_walk(bytes, bars, c);
    let tail = if cursor < c.end {
        inline_candidates(bytes, cursor, c.end as int)
    } else {
        seq![]
    };
    let all = container_candidates(bytes, bars, protected, c);
    assert(all == found + tail);
    assert forall|i: int| 0 <= i < wanted.len() implies all.contains(#[trigger] wanted[i]) by {
        if exists|j: int| 0 <= j < bars.len() && crosses(#[trigger] bars[j], c) && bars[j].start >= m {
            let j = choose|j: int| 0 <= j < found.len() && found[j] == wanted[i];
            assert(all[j] == found[j]);
        } else {
            assert(cursor <= s);
            if s != c.start {
                let w = choose|w: int|
                    0 <= w < bars.len() && (#[trigger] bars[w]).start <= s && bars[w].end == s
                        && crosses(bars[w], c);
                assert(cursor >= min_int(bars[w].end as int, c.end as int));
            }
            assert(cursor == s);
            lemma_inline_prefix(bytes, s, m, c.end as int);
            let j = choose|j: int| 0 <= j < tail.len() && tail[j] == wanted[i];
            assert(all[found.len() + j] == tail[j]);
        }
    }
}

proof fn lemma_containers_contain(
    bytes: Seq<u8>,
    bars: Seq<Range<usize>>,
    protected: Seq<Range<usize>>,
    cs: Seq<Range<usize>>,
    k: int,
    x: LatexMathCandidate,
)
    requires
        0 <= k < cs.len(),
        container_candidates(bytes, bars, protected, cs[k]).contains(x),
    ensures
        containers_candidates(bytes, bars, protected, cs).contains(x),
    decreases cs.len(),
{
    let before = containers_candidates(bytes, bars, protected, cs.drop_last());
    let last = container_candidates(bytes, bars, protected, cs.last());
    let all = containers_candidates(bytes, bars, protected, cs);
    assert(all == before + last);
    if k < cs.len() - 1 {
        assert(cs.drop_last()[k] == cs[k]);
        lemma_containers_contain(bytes, bars, protected, cs.drop_last(), k, x);
        let j = choose|j: int| 0 <= j < before.len() && before[j] == x;
        assert(all[j] == before[j]);
    } else {
        let j = choose|j: int| 0 <= j < last.len() && last[j] == x;
        assert(all[before.len() + j] == last[j]);
    }
}

/// Dropping repeated ranges keeps every range.
proof fn lemma_dedup_keeps_ranges(s: Seq<LatexMathCandidate>, x: LatexMathCandidate)
    requires
        s.contains(x),
    ensures
        exists|j: int| 0 <= j < dedup_ranges(s).len() && (#[trigger] dedup_ranges(s)[j]).range == x.range,
    decreases s.len(),
{
    if s.len() > 1 {
        let init = s.drop_last();
        let kept = dedup_ranges(init);
        lemma_dedup_nonempty(init);
        if x == s.last() {
            if kept.last().range == s.last().range {
                assert(dedup_ranges(s) == kept);
                assert(dedup_ranges(s)[kept.len() - 1].range == x.range);
            } else {
                assert(dedup_ranges(s) == kept.push(s.last()));
                assert(dedup_ranges(s)[kept.len() as int] == x);
            }
        } else {
            let i = choose|i: int| 0 <= i < s.len() && s[i] == x;
            assert(init[i] == x);
            lemma_dedup_keeps_ranges(init, x);
            let j = choose|j: int| 0 <= j < kept.len() && (#[trigger] kept[j]).range == x.range;
            if kept.last().range == s.last().range {
                assert(dedup_ranges(s) == kept);
            } else {
                assert(dedup_ranges(s) == kept.push(s.last()));
                assert(dedup_ranges(s)[j] == kept[j]);
            }
        }
    } else {
        let i = choose|i: int| 0 <= i < s.len() && s[i] == x;
        assert(dedup_ranges(s)[i] == x);
    }
}

proof fn lemma_no_opener_no_inline(bytes: Seq<u8>, lo: int, hi: int)
    requires
        !has_math_opener(bytes),
        hi <= bytes.len(),
    ensures
        inline_candidates(bytes, lo, hi).len() == 0,
    decreases hi - lo,
{
    if lo + 1 < hi {
        if is_delimiter_at(bytes, lo, 40u8) {
            assert(crate::latex::is_backslash(bytes[lo]));
            assert(false);
        }
        lemma_no_opener_no_inline(bytes, lo + 1, hi);
    }
}

/// A barrier of the walk over containers: a protected node, or the range of
/// a display candidate.
pub open spec fn is_barrier(bytes: Seq<u8>, root: MdNode, b: Range<usize>) -> bool {
    ||| math_protected(root).contains(b)
    ||| exists|d: LatexMathCandidate|
        display_candidates(bytes, sort_by_start(math_protected(root)), 0).contains(d) && d.range == b
}

/// Law: inline math is found wherever it stands in a container. Take a math
/// container (a paragraph, heading or table cell) that is not itself one
/// display block, and a stretch `s..m` of it that no protected node and no
/// display block meets, starting at the container's start or where such a
/// barrier ends. Every `\(...\)` that a scan of the stretch finds is among
/// the candidates, whatever barriers come before or after it.
pub proof fn law_inline_candidates_complete(bytes: Seq<u8>, root: MdNode, k: int, s: int, m: int)
    requires
        bytes.len() <= usize::MAX,
        containers_in_bounds(math_containers(root), bytes.len() as int),
        0 <= k < math_containers(root).len(),
        math_containers(root)[k].start <= s <= m <= math_containers(root)[k].end,
        standalone_display(bytes, math_containers(root)[k], sort_by_start(math_protected(root))) is None,
        forall|b: Range<usize>| is_barrier(bytes, root, b) ==> !meets(b, s, m),
        s == math_containers(root)[k].start || exists|b: Range<usize>|
            is_barrier(bytes, root, b) && b.start <= s && b.end == s && crosses(b, math_containers(root)[k]),
    ensures
        forall|i: int|
            0 <= i < inline_candidates(bytes, s, m).len() ==> exists|j: int|
                0 <= j < latex_candidates(bytes, root).len() && (#[trigger] latex_candidates(bytes, root)[j]).range
                    == (#[trigger] inline_candidates(bytes, s, m)[i]).range,
{
    let mp = math_protected(root);
    let mc = math_containers(root);
    let c = mc[k];
    let wanted = inline_candidates(bytes, s, m);
    if !has_math_opener(bytes) {
        lemma_no_opener_no_inline(bytes, s, m);
        return;
    }
    let protected = sort_by_start(mp);
    lemma_sorted_contains(mp);
    let display = display_candidates(bytes, protected, 0);
    let joined = protected + candidate_ranges(display);
    let bars = sort_by_start(joined);
    lemma_sorted_contains(joined);
    assert forall|b: Range<usize>| is_barrier(bytes, root, b) implies #[trigger] bars.contains(b) by {
        if mp.contains(b) {
            let t = choose|t: int| 0 <= t < protected.len() && protected[t] == b;
            assert(joined[t] == b);
        } else {
            let d = choose|d: LatexMathCandidate| display.contains(d) && d.range == b;
            let t = choose|t: int| 0 <= t < display.len() && display[t] == d;
            assert(candidate_ranges(display)[t] == b);
            assert(joined[protected.len() + t] == b);
        }
        assert(joined.contains(b));
    }
    assert forall|j: int| 0 <= j < bars.len() implies !meets(#[trigger] bars[j], s, m) by {
        assert(joined.contains(bars[j]));
        let t = choose|t: int| 0 <= t < joined.len() && joined[t] == bars[j];
        if t < protected.len() {
            assert(protected[t] == bars[j]);
            assert(protected.contains(bars[j]));
            assert(mp.contains(bars[j]));
        } else {
            let d = display[t - protected.len()];
            assert(candidate_ranges(display)[t - protected.len()] == d.range);
            assert(joined[t] == d.range);
            assert(display.contains(d));
        }
        assert(is_barrier(bytes, root, bars[j]));
    }
    if s != c.start {
        let b = choose|b: Range<usize>|
            is_barrier(bytes, root, b) && b.start <= s && b.end == s && crosses(b, c);
        assert(bars.contains(b));
        let w = choose|w: int| 0 <= w < bars.len() && bars[w] == b;
        assert(bars[w].start <= s && bars[w].end == s && crosses(bars[w], c));
    }
    assert(stretch_start(bars, c, s));
    lemma_container_complete(bytes, bars, protected, c, s, m);
    let inl = containers_candidates(bytes, bars, protected, mc);
    let all = display + inl;
    law_sort_by_start(all);
    assert forall|i: int| 0 <= i < wanted.len() implies exists|j: int|
        0 <= j < latex_candidates(bytes, root).len() && (#[trigger] latex_candidates(bytes, root)[j]).range
            == (#[trigger] wanted[i]).range by {
        let x = wanted[i];
        lemma_containers_contain(bytes, bars, protected, mc, k, x);
        let t = choose|t: int| 0 <= t < inl.len() && inl[t] == x;
        assert(all[display.len() + t] == x);
        assert(all.to_multiset().count(x) > 0);
        assert(sort_by_start(all).to_multiset().count(x) > 0);
        assert(sort_by_start(all).contains(x));
        lemma_dedup_keeps_ranges(sort_by_start(all), x);
        assert(latex_candidates(bytes, root) == dedup_ranges(sort_by_start(all)));
        let w = choose|w: int|
            0 <= w < dedup_ranges(sort_by_start(all)).len() && (#[trigger] dedup_ranges(
                sort_by_start(all),
            )[w]).range == x.range;
        assert(latex_candidates(bytes, root)[w].range == wanted[i].range);
    }
}

} // verus!
