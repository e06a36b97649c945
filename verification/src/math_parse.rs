//! Rewriting LaTeX math delimiters for parsing: which candidates are safe to
//! rewrite, and the parse-and-confirm rounds that keep only the candidates
//! the parser turns into math.
use std::ops::Range;
use vstd::prelude::*;
use vstd::utf8::*;
use vstd::string::*;
use crate::latex::{
    candidate, candidates_in_bounds, display_candidates, find_display_close, find_inline_close,
    inline_candidates, is_delimiter_at, is_delimiter_byte, is_safe_dollar_fence,
    lemma_find_display_close, normalize_latex_math_candidates, lemma_find_inline_close, normalized_bytes, opens_display, overlaps,
    standalone_display, dedup_ranges, LatexMathCandidate, LatexMathMode,
};
use crate::markdown_ext::{
    barrier_walk, candidate_ranges, clamp_int, container_candidates, containers_candidates,
    containers_in_bounds, has_math_opener, latex_candidates, math_containers, math_protected,
    MdNode, collect_math_source_ranges, latex_math_candidates, parsed_math, parsed_math_ranges,
};
use crate::sort::{lemma_sort_preserves, sort_by_start};
use crate::text::{leading_ws, lemma_boundary_le_len, trailing_ws};

verus! {

broadcast use encode_utf8_valid_utf8;

/// Changing only ASCII bytes into ASCII bytes keeps an encoding valid.
pub proof fn lemma_ascii_swap_valid(b: Seq<u8>, t: Seq<u8>)
    requires
        valid_utf8(b),
        b.len() == t.len(),
        forall|i: int| 0 <= i < b.len() && b[i] != t[i] ==> b[i] < 128 && t[i] < 128,
    ensures
        valid_utf8(t),
    decreases b.len(),
{
    if b.len() > 0 {
        let l = length_of_first_scalar(b);
        if b[0] < 128 {
            assert(t[0] < 128);
            assert(length_of_first_scalar(t) == 1);
            assert(valid_first_scalar(t));
        } else {
            assert forall|j: int| 0 <= j < l implies t[j] == b[j] by {
                if t[j] != b[j] {
                    assert(b[j] < 128);
                }
            }
            assert(valid_first_scalar(t));
            assert(length_of_first_scalar(t) == l);
        }
        let rb = pop_first_scalar(b);
        let rt = pop_first_scalar(t);
        assert forall|i: int| 0 <= i < rb.len() && rb[i] != rt[i] implies rb[i] < 128 && rt[i]
            < 128 by {
            assert(rb[i] == b[i + l]);
            assert(rt[i] == t[i + l]);
        }
        lemma_ascii_swap_valid(rb, rt);
    }
}

} // verus!

verus! {

/// The four delimiter bytes of `c` exist and are ASCII.
pub open spec fn has_ascii_delimiters(bytes: Seq<u8>, c: LatexMathCandidate) -> bool {
    let s = c.range.start as int;
    let e = c.range.end as int;
    &&& s + 2 <= e <= bytes.len()
    &&& bytes[s] < 128
    &&& bytes[s + 1] < 128
    &&& bytes[e - 2] < 128
    &&& bytes[e - 1] < 128
}

pub open spec fn all_ascii_delimited(bytes: Seq<u8>, cs: Seq<LatexMathCandidate>) -> bool {
    forall|k: int| 0 <= k < cs.len() ==> has_ascii_delimiters(bytes, #[trigger] cs[k])
}

/// Rewriting ASCII delimiters keeps the source valid UTF-8.
pub proof fn lemma_normalized_valid(bytes: Seq<u8>, cs: Seq<LatexMathCandidate>)
    requires
        valid_utf8(bytes),
        all_ascii_delimited(bytes, cs),
    ensures
        valid_utf8(normalized_bytes(bytes, cs)),
        candidates_in_bounds(cs, bytes.len() as int),
{
    let t = normalized_bytes(bytes, cs);
    assert forall|i: int| 0 <= i < bytes.len() && bytes[i] != t[i] implies bytes[i] < 128 && t[i]
        < 128 by {
        assert(is_delimiter_byte(cs, i));
        let k = choose|k: int|
            0 <= k < cs.len() && {
                let r = (#[trigger] cs[k]).range;
                ||| i == r.start as int
                ||| i == r.start + 1
                ||| i == r.end - 2
                ||| i == r.end - 1
            };
        assert(has_ascii_delimiters(bytes, cs[k]));
    }
    lemma_ascii_swap_valid(bytes, t);
    assert forall|k: int| 0 <= k < cs.len() implies (#[trigger] cs[k]).range.start + 2
        <= bytes.len() && 2 <= cs[k].range.end <= bytes.len() by {
        assert(has_ascii_delimiters(bytes, cs[k]));
    }
}

pub proof fn lemma_inline_delimited(bytes: Seq<u8>, cursor: int, end: int)
    requires
        0 <= cursor,
        end <= bytes.len() <= usize::MAX,
    ensures
        all_ascii_delimited(bytes, inline_candidates(bytes, cursor, end)),
    decreases end - cursor,
{
    if cursor + 1 >= end {
    } else if !is_delimiter_at(bytes, cursor, 40u8) {
        lemma_inline_delimited(bytes, cursor + 1, end);
    } else {
        lemma_find_inline_close(bytes, cursor + 2, end);
        match find_inline_close(bytes, cursor + 2, end) {
            None => {},
            Some(close) => {
                lemma_inline_delimited(bytes, close + 2, end);
                let rest = inline_candidates(bytes, close + 2, end);
                let found = if is_safe_dollar_fence(bytes.subrange(cursor + 2, close)) {
                    seq![candidate(cursor, close + 2, LatexMathMode::Inline)]
                } else {
                    seq![]
                };
                assert(has_ascii_delimiters(
                    bytes,
                    candidate(cursor, close + 2, LatexMathMode::Inline),
                ));
                lemma_concat_delimited(bytes, found, rest);
            },
        }
    }
}

pub proof fn lemma_concat_delimited(
    bytes: Seq<u8>,
    a: Seq<LatexMathCandidate>,
    b: Seq<LatexMathCandidate>,
)
    requires
        all_ascii_delimited(bytes, a),
        all_ascii_delimited(bytes, b),
    ensures
        all_ascii_delimited(bytes, a + b),
{
    assert forall|k: int| 0 <= k < (a + b).len() implies has_ascii_delimiters(
        bytes,
        #[trigger] (a + b)[k],
    ) by {
        if k < a.len() {
            assert((a + b)[k] == a[k]);
        } else {
            assert((a + b)[k] == b[k - a.len()]);
        }
    }
}

pub proof fn lemma_display_delimited(bytes: Seq<u8>, protected: Seq<Range<usize>>, cursor: int)
    requires
        bytes.len() <= usize::MAX,
    ensures
        all_ascii_delimited(bytes, display_candidates(bytes, protected, cursor)),
    decreases bytes.len() - cursor,
{
    if cursor < 0 || cursor + 1 >= bytes.len() {
    } else if !opens_display(bytes, protected, cursor) {
        lemma_display_delimited(bytes, protected, cursor + 1);
    } else {
        lemma_find_display_close(bytes, cursor, cursor + 2);
        match find_display_close(bytes, cursor, cursor + 2) {
            None => {
                lemma_display_delimited(bytes, protected, cursor + 2);
            },
            Some(close) => {
                lemma_display_delimited(bytes, protected, close + 2);
                let rest = display_candidates(bytes, protected, close + 2);
                let found = if !overlaps(protected, cursor, close + 2) && is_safe_dollar_fence(
                    bytes.subrange(cursor + 2, close),
                ) {
                    seq![candidate(cursor, close + 2, LatexMathMode::Display)]
                } else {
                    seq![]
                };
                assert(has_ascii_delimiters(
                    bytes,
                    candidate(cursor, close + 2, LatexMathMode::Display),
                ));
                lemma_concat_delimited(bytes, found, rest);
            },
        }
    }
}

} // verus!

verus! {

pub proof fn lemma_standalone_delimited(
    bytes: Seq<u8>,
    c: Range<usize>,
    protected: Seq<Range<usize>>,
)
    requires
        valid_utf8(bytes),
        bytes.len() <= usize::MAX,
    ensures
        standalone_display(bytes, c, protected) matches Some(d) ==> has_ascii_delimiters(bytes, d),
{
    if let Some(d) = standalone_display(bytes, c, protected) {
        let a = c.start as int;
        let chars = decode_utf8(bytes.subrange(a, c.end as int));
        let start = a + encode_utf8(chars.take(leading_ws(chars) as int)).len();
        let end = a + encode_utf8(chars.take(chars.len() - trailing_ws(chars))).len();
        lemma_boundary_le_len(bytes, end);
        assert(d == candidate(start, end, LatexMathMode::Display));
    }
}

pub proof fn lemma_walk_delimited(bytes: Seq<u8>, bars: Seq<Range<usize>>, c: Range<usize>)
    requires
        c.start <= c.end <= bytes.len() <= usize::MAX,
    ensures
        all_ascii_delimited(bytes, barrier_walk(bytes, bars, c).0),
        c.start <= barrier_walk(bytes, bars, c).1 <= c.end,
    decreases bars.len(),
{
    if bars.len() > 0 {
        lemma_walk_delimited(bytes, bars.drop_last(), c);
        let (found, cursor) = barrier_walk(bytes, bars.drop_last(), c);
        let bar = bars.last();
        if bar.start < c.end && bar.end > c.start {
            let bs = clamp_int(bar.start as int, c.start as int, c.end as int);
            if cursor < bs {
                lemma_inline_delimited(bytes, cursor, bs);
                lemma_concat_delimited(bytes, found, inline_candidates(bytes, cursor, bs));
            } else {
                assert(found + seq![] =~= found);
            }
        }
    }
}

pub proof fn lemma_containers_delimited(
    bytes: Seq<u8>,
    bars: Seq<Range<usize>>,
    protected: Seq<Range<usize>>,
    cs: Seq<Range<usize>>,
)
    requires
        valid_utf8(bytes),
        bytes.len() <= usize::MAX,
        containers_in_bounds(cs, bytes.len() as int),
    ensures
        all_ascii_delimited(bytes, containers_candidates(bytes, bars, protected, cs)),
    decreases cs.len(),
{
    if cs.len() > 0 {
        let init = cs.drop_last();
        assert forall|k: int| 0 <= k < init.len() implies (#[trigger] init[k]).start
            <= init[k].end <= bytes.len() by {
            assert(init[k] == cs[k]);
        }
        lemma_containers_delimited(bytes, bars, protected, init);
        let c = cs.last();
        assert(cs[cs.len() - 1] == c);
        lemma_standalone_delimited(bytes, c, protected);
        lemma_walk_delimited(bytes, bars, c);
        let (found, cursor) = barrier_walk(bytes, bars, c);
        if cursor < c.end {
            lemma_inline_delimited(bytes, cursor, c.end as int);
            lemma_concat_delimited(bytes, found, inline_candidates(bytes, cursor, c.end as int));
        } else {
            assert(found + seq![] =~= found);
        }
        lemma_concat_delimited(
            bytes,
            containers_candidates(bytes, bars, protected, init),
            container_candidates(bytes, bars, protected, c),
        );
    }
}

pub proof fn lemma_dedup_delimited(bytes: Seq<u8>, s: Seq<LatexMathCandidate>)
    requires
        all_ascii_delimited(bytes, s),
    ensures
        all_ascii_delimited(bytes, dedup_ranges(s)),
    decreases s.len(),
{
    if s.len() > 1 {
        let init = s.drop_last();
        assert forall|k: int| 0 <= k < init.len() implies has_ascii_delimiters(
            bytes,
            #[trigger] init[k],
        ) by {
            assert(init[k] == s[k]);
        }
        lemma_dedup_delimited(bytes, init);
        assert(has_ascii_delimiters(bytes, s[s.len() - 1]));
        let kept = dedup_ranges(init);
        assert forall|k: int| 0 <= k < kept.push(s.last()).len() implies has_ascii_delimiters(
            bytes,
            #[trigger] kept.push(s.last())[k],
        ) by {
            if k < kept.len() {
                assert(kept.push(s.last())[k] == kept[k]);
            }
        }
    }
}

/// Every candidate found has its two delimiters at its ends, as ASCII bytes.
pub proof fn lemma_latex_candidates_delimited(bytes: Seq<u8>, root: MdNode)
    requires
        valid_utf8(bytes),
        bytes.len() <= usize::MAX,
        containers_in_bounds(math_containers(root), bytes.len() as int),
    ensures
        all_ascii_delimited(bytes, latex_candidates(bytes, root)),
{
    if has_math_opener(bytes) {
        let protected = sort_by_start(math_protected(root));
        let display = display_candidates(bytes, protected, 0);
        let bars = sort_by_start(protected + candidate_ranges(display));
        lemma_display_delimited(bytes, protected, 0);
        lemma_containers_delimited(bytes, bars, protected, math_containers(root));
        let all = display + containers_candidates(bytes, bars, protected, math_containers(root));
        lemma_concat_delimited(
            bytes,
            display,
            containers_candidates(bytes, bars, protected, math_containers(root)),
        );
        let p = |c: LatexMathCandidate| has_ascii_delimiters(bytes, c);
        assert forall|k: int| 0 <= k < all.len() implies p(#[trigger] all[k]) by {}
        lemma_sort_preserves(all, p);
        assert forall|k: int| 0 <= k < sort_by_start(all).len() implies has_ascii_delimiters(
            bytes,
            #[trigger] sort_by_start(all)[k],
        ) by {
            assert(p(sort_by_start(all)[k]));
        }
        lemma_dedup_delimited(bytes, sort_by_start(all));
    }
}

} // verus!

verus! {

/// The parser produced math at exactly `c`'s range, and display math only for
/// a display candidate.
pub open spec fn is_confirmed(parsed: Seq<(Range<usize>, bool)>, c: LatexMathCandidate) -> bool {
    exists|k: int|
        0 <= k < parsed.len() && (#[trigger] parsed[k]).0 == c.range && (c.mode
            == LatexMathMode::Display || !parsed[k].1)
}

/// The candidates confirmed by the parse, in order.
pub open spec fn confirmed(
    cs: Seq<LatexMathCandidate>,
    parsed: Seq<(Range<usize>, bool)>,
) -> Seq<LatexMathCandidate>
    decreases cs.len(),
{
    if cs.len() == 0 {
        seq![]
    } else if is_confirmed(parsed, cs.last()) {
        confirmed(cs.drop_last(), parsed).push(cs.last())
    } else {
        confirmed(cs.drop_last(), parsed)
    }
}

pub proof fn lemma_confirmed_subset(
    bytes: Seq<u8>,
    cs: Seq<LatexMathCandidate>,
    parsed: Seq<(Range<usize>, bool)>,
)
    requires
        all_ascii_delimited(bytes, cs),
    ensures
        all_ascii_delimited(bytes, confirmed(cs, parsed)),
        confirmed(cs, parsed).len() <= cs.len(),
    decreases cs.len(),
{
    if cs.len() > 0 {
        let init = cs.drop_last();
        assert forall|k: int| 0 <= k < init.len() implies has_ascii_delimiters(
            bytes,
            #[trigger] init[k],
        ) by {
            assert(init[k] == cs[k]);
        }
        lemma_confirmed_subset(bytes, init, parsed);
        assert(has_ascii_delimiters(bytes, cs[cs.len() - 1]));
        let kept = confirmed(init, parsed);
        assert forall|k: int| 0 <= k < kept.push(cs.last()).len() implies has_ascii_delimiters(
            bytes,
            #[trigger] kept.push(cs.last())[k],
        ) by {
            if k < kept.len() {
                assert(kept.push(cs.last())[k] == kept[k]);
            }
        }
    }
}

fn candidate_is_confirmed(parsed: &Vec<(Range<usize>, bool)>, c: &LatexMathCandidate) -> (r: bool)
    ensures
        r == is_confirmed(parsed@, *c),
{
    let display = match c.mode {
        LatexMathMode::Display => true,
        LatexMathMode::Inline => false,
    };
    let mut k: usize = 0;
    while k < parsed.len()
        invariant
            k <= parsed@.len(),
            display == (c.mode == LatexMathMode::Display),
            forall|j: int|
                0 <= j < k ==> !((#[trigger] parsed@[j]).0 == c.range && (c.mode
                    == LatexMathMode::Display || !parsed@[j].1)),
        decreases parsed@.len() - k,
    {
        let entry = &parsed[k];
        if entry.0.start == c.range.start && entry.0.end == c.range.end && (display || !entry.1) {
            assert(parsed@[k as int].0 == c.range);
            return true;
        }
        k = k + 1;
    }
    false
}

/// An ongoing parse of Markdown source whose LaTeX math delimiters are being
/// rewritten: the source and the candidates not yet refuted.
pub struct MathParse {
    source: String,
    candidates: Vec<LatexMathCandidate>,
}

/// What to do after re-parsing the rewritten source.
pub enum MathParseStep {
    /// Every candidate became math: keep the re-parsed tree.
    Accept,
    /// No candidate became math: keep the tree of the unmodified source.
    Fallback,
    /// Some candidates did not become math: rewrite only the others and parse again.
    Retry(MathParse),
}

impl MathParse {
    #[verifier::type_invariant]
    spec fn inv(&self) -> bool {
        &&& self.candidates@.len() > 0
        &&& all_ascii_delimited(encode_utf8(self.source@), self.candidates@)
    }

    pub closed spec fn source_view(&self) -> Seq<char> {
        self.source@
    }

    pub closed spec fn candidates_view(&self) -> Seq<LatexMathCandidate> {
        self.candidates@
    }

    /// Start rewriting `source`, parsed as `root`. `None` when there is no
    /// candidate (the tree of `source` stands), or when some container's
    /// range does not lie inside `source`.
    pub fn begin(source: &str, root: &MdNode) -> (r: Option<MathParse>)
        ensures
            r is Some <==> containers_in_bounds(
                math_containers(*root),
                source.spec_bytes().len() as int,
            ) && latex_candidates(source.spec_bytes(), *root).len() > 0,
            r matches Some(p) ==> p.source_view() == source@ && p.candidates_view()
                == latex_candidates(source.spec_bytes(), *root),
    {
        if !containers_fit(source, root) {
            return None;
        }
        let candidates = latex_math_candidates(source, root);
        if candidates.len() == 0 {
            return None;
        }
        let len = source.as_bytes().len();
        proof {
            assert(source.spec_bytes().len() == len);
            lemma_latex_candidates_delimited(source.spec_bytes(), *root);
        }
        Some(MathParse { source: source.to_owned(), candidates })
    }

    /// The candidates still to rewrite.
    pub fn candidates(&self) -> (r: &Vec<LatexMathCandidate>)
        ensures
            r@ == self.candidates_view(),
    {
        &self.candidates
    }

    /// The source with every remaining candidate's delimiters rewritten to
    /// `$$`: a byte-for-byte copy, so that offsets into it are offsets into
    /// the source.
    pub fn normalized(&self) -> (r: String)
        ensures
            r@ == decode_utf8(normalized_bytes(encode_utf8(self.source_view()), self.candidates_view())),
            encode_utf8(r@).len() == encode_utf8(self.source_view()).len(),
            forall|i: int|
                0 <= i < encode_utf8(r@).len() ==> #[trigger] encode_utf8(r@)[i] == if is_delimiter_byte(
                    self.candidates_view(),
                    i,
                ) {
                    36u8
                } else {
                    encode_utf8(self.source_view())[i]
                },
    {
        proof {
            use_type_invariant(self);
            lemma_normalized_valid(encode_utf8(self.source@), self.candidates@);
        }
        let r = normalize_latex_math_candidates(self.source.as_str(), self.candidates.as_slice());
        proof {
            let t = normalized_bytes(encode_utf8(self.source@), self.candidates@);
            decode_utf8_encode_utf8(t);
        }
        r
    }

    /// Decide, from the tree the rewritten source parsed to, whether to keep
    /// it, fall back, or retry with the confirmed candidates only.
    pub fn advance(self, parsed: &MdNode) -> (r: MathParseStep)
        ensures
            ({
                let kept = confirmed(self.candidates_view(), parsed_math(*parsed));
                if kept.len() == self.candidates_view().len() {
                    r is Accept
                } else if kept.len() == 0 {
                    r is Fallback
                } else {
                    r matches MathParseStep::Retry(p) && p.source_view() == self.source_view()
                        && p.candidates_view() == kept
                }
            }),
            r matches MathParseStep::Retry(p) ==> 0 < p.candidates_view().len()
                < self.candidates_view().len(),
    {
        proof {
            use_type_invariant(&self);
        }
        let math = parsed_math_ranges(parsed);
        let mut kept: Vec<LatexMathCandidate> = Vec::new();
        let n = self.candidates.len();
        let mut i: usize = 0;
        assert(self.candidates@.take(0) =~= Seq::<LatexMathCandidate>::empty());
        while i < n
            invariant
                n == self.candidates@.len(),
                i <= n,
                math@ == parsed_math(*parsed),
                kept@ == confirmed(self.candidates@.take(i as int), math@),
            decreases n - i,
        {
            let ghost next = self.candidates@.take(i + 1);
            assert(next.drop_last() =~= self.candidates@.take(i as int));
            assert(next.last() == self.candidates@[i as int]);
            if candidate_is_confirmed(&math, &self.candidates[i]) {
                kept.push(self.candidates[i].clone());
            }
            i = i + 1;
        }
        assert(self.candidates@.take(n as int) =~= self.candidates@);
        proof {
            lemma_confirmed_subset(encode_utf8(self.source@), self.candidates@, math@);
        }
        if kept.len() == n {
            MathParseStep::Accept
        } else if kept.len() == 0 {
            MathParseStep::Fallback
        } else {
            MathParseStep::Retry(MathParse { source: self.source, candidates: kept })
        }
    }
}

/// Whether every container of the tree lies inside `source`.
fn containers_fit(source: &str, root: &MdNode) -> (r: bool)
    ensures
        r == containers_in_bounds(math_containers(*root), source.spec_bytes().len() as int),
{
    let len = source.as_bytes().len();
    let mut containers: Vec<Range<usize>> = Vec::new();
    let mut protected: Vec<Range<usize>> = Vec::new();
    collect_math_source_ranges(root, &mut containers, &mut protected);
    assert(containers@ =~= math_containers(*root));
    let mut k: usize = 0;
    while k < containers.len()
        invariant
            k <= containers@.len(),
            containers@ == math_containers(*root),
            len == source.spec_bytes().len(),
            forall|j: int|
                0 <= j < k ==> (#[trigger] containers@[j]).start <= containers@[j].end <= len,
        decreases containers@.len() - k,
    {
        if !(containers[k].start <= containers[k].end && containers[k].end <= len) {
            assert(!(containers@[k as int].start <= containers@[k as int].end <= len));
            return false;
        }
        k = k + 1;
    }
    true
}

} // verus!

verus! {

/// Keeping the confirmed candidates never adds any.
pub proof fn lemma_confirmed_len(cs: Seq<LatexMathCandidate>, parsed: Seq<(Range<usize>, bool)>)
    ensures
        confirmed(cs, parsed).len() <= cs.len(),
    decreases cs.len(),
{
    if cs.len() > 0 {
        lemma_confirmed_len(cs.drop_last(), parsed);
    }
}

} // verus!
