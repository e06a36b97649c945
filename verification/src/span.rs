//! Source-backed rich spans of a text input and the bidirectional offset
//! projection between the input's canonical value and the text presented by
//! the editor.
use std::ops::Range;
use ropey::Rope;
use vstd::prelude::*;
use vstd::utf8::*;
use vstd::string::*;
use crate::rope::{rope_from_str, rope_text, rope_to_string};
use crate::sort::{lemma_sort_preserves, sort_by_start, sorted_by_start, StartKey};
use crate::text::{
    lemma_boundary_le_len, lemma_encode_concat, lemma_encode_single, lemma_valid_subrange,
    string_from_utf8,
};

verus! {

broadcast use {
    encode_utf8_valid_utf8,
    decode_utf8_encode_utf8,
    is_char_boundary_start_end_of_seq,
    valid_utf8_concat,
};

fn copy_range(r: &Range<usize>) -> (c: Range<usize>)
    ensures
        c == *r,
{
    r.start..r.end
}

fn copy_opt_range(r: &Option<Range<usize>>) -> (c: Option<Range<usize>>)
    ensures
        c == *r,
{
    match r {
        Some(r) => Some(copy_range(r)),
        None => None,
    }
}

/// Something that names an icon by its asset path.
pub trait IconNamed: Sized {
    /// The asset path this icon names.
    spec fn spec_path(&self) -> Seq<char>;

    fn path(self) -> (r: String)
        ensures
            r@ == self.spec_path(),
    ;
}

/// An asset path names the icon at that path.
impl IconNamed for String {
    open spec fn spec_path(&self) -> Seq<char> {
        self@
    }

    fn path(self) -> (r: String) {
        self
    }
}

/// How the editable part of a span accepts input.
#[derive(Debug, PartialEq, Eq)]
pub enum InputSpanEditMode {
    /// An unsigned integer kept within `min..=max`.
    UnsignedInteger { min: usize, max: usize },
}

impl Clone for InputSpanEditMode {
    fn clone(&self) -> (r: Self)
        ensures
            r == *self,
    {
        match self {
            InputSpanEditMode::UnsignedInteger { min, max } => InputSpanEditMode::UnsignedInteger {
                min: *min,
                max: *max,
            },
        }
    }
}

/// The editable source subrange of a span.
#[derive(Debug, PartialEq, Eq)]
pub struct InputSpanEditable {
    pub range: Range<usize>,
    pub mode: InputSpanEditMode,
}

impl Clone for InputSpanEditable {
    fn clone(&self) -> (r: Self)
        ensures
            r == *self,
    {
        InputSpanEditable { range: copy_range(&self.range), mode: self.mode.clone() }
    }
}

/// A source-backed rich span rendered inside a text input.
///
/// The input value always keeps the source text in `range`. The renderer
/// presents that source range as an atomic pill containing an optional icon,
/// `label`, and an optional editable source-backed value.
#[derive(Debug, PartialEq, Eq)]
pub struct InputSpan {
    pub range: Range<usize>,
    pub label: String,
    pub icon_path: Option<String>,
    pub editable: Option<InputSpanEditable>,
}

impl Clone for InputSpan {
    fn clone(&self) -> (r: Self)
        ensures
            r == *self,
    {
        InputSpan {
            range: copy_range(&self.range),
            label: self.label.clone(),
            icon_path: match &self.icon_path {
                Some(p) => Some(p.clone()),
                None => None,
            },
            editable: match &self.editable {
                Some(e) => Some(e.clone()),
                None => None,
            },
        }
    }
}

impl InputSpan {
    /// A span presenting the source `range` as a pill labelled `label`.
    pub fn new(range: Range<usize>, label: &str) -> (r: Self)
        ensures
            r.range == range,
            r.label@ == label@,
            r.icon_path is None,
            r.editable is None,
    {
        InputSpan { range, label: label.to_owned(), icon_path: None, editable: None }
    }

    /// Set an icon rendered before the span label.
    pub fn icon<I: IconNamed>(self, icon: I) -> (r: Self)
        ensures
            r.icon_path matches Some(p) && p@ == icon.spec_path(),
            r.range == self.range,
            r.label == self.label,
            r.editable == self.editable,
    {
        InputSpan { icon_path: Some(icon.path()), ..self }
    }

    /// Make a source subrange editable as a bounded unsigned integer.
    ///
    /// Non-digit input is ignored. Empty and out-of-range values are clamped
    /// when span editing finishes. A `max` below `min` is raised to `min`.
    pub fn editable_unsigned_integer(self, range: Range<usize>, min: usize, max: usize) -> (r: Self)
        ensures
            r.editable == Some(
                InputSpanEditable {
                    range,
                    mode: InputSpanEditMode::UnsignedInteger {
                        min,
                        max: if max >= min {
                            max
                        } else {
                            min
                        },
                    },
                },
            ),
            r.range == self.range,
            r.label == self.label,
            r.icon_path == self.icon_path,
    {
        let max = if max >= min {
            max
        } else {
            min
        };
        InputSpan {
            editable: Some(
                InputSpanEditable { range, mode: InputSpanEditMode::UnsignedInteger { min, max } },
            ),
            ..self
        }
    }

    /// The source range the span covers.
    pub fn range(&self) -> (r: &Range<usize>)
        ensures
            *r == self.range,
    {
        &self.range
    }

    /// The editable source subrange, if the span has one.
    pub fn editable_range(&self) -> (r: Option<&Range<usize>>)
        ensures
            r == (match self.editable {
                Some(e) => Some(&e.range),
                None => None,
            }),
    {
        match &self.editable {
            Some(e) => Some(&e.range),
            None => None,
        }
    }
}

} // verus!

verus! {

/// No line feed in `bytes[start..end]`.
pub open spec fn no_newline(bytes: Seq<u8>, start: int, end: int) -> bool {
    forall|i: int| start <= i < end ==> bytes[i] != 10u8
}

/// A span is shown only when its range is non-empty, inside the source, on
/// character boundaries, within one line, and its editable range (if any)
/// lies inside it on character boundaries.
pub open spec fn is_valid_span(bytes: Seq<u8>, s: InputSpan) -> bool {
    let a = s.range.start as int;
    let e = s.range.end as int;
    &&& a < e
    &&& e <= bytes.len()
    &&& is_char_boundary(bytes, a)
    &&& is_char_boundary(bytes, e)
    &&& no_newline(bytes, a, e)
    &&& match s.editable {
        None => true,
        Some(ed) => {
            &&& a <= ed.range.start
            &&& ed.range.start <= ed.range.end
            &&& ed.range.end <= e
            &&& is_char_boundary(bytes, ed.range.start as int)
            &&& is_char_boundary(bytes, ed.range.end as int)
        },
    }
}

/// A span chosen for presentation: its position among the given spans and
/// its source range.
#[derive(Debug)]
pub struct SpanRef {
    pub index: usize,
    pub start: usize,
    pub end: usize,
}

impl StartKey for SpanRef {
    open spec fn start_key(&self) -> int {
        self.start as int
    }

    fn start(&self) -> (r: usize) {
        self.start
    }

    fn copy_value(&self) -> (r: Self) {
        SpanRef { index: self.index, start: self.start, end: self.end }
    }
}

pub open spec fn span_ref(index: int, s: InputSpan) -> SpanRef {
    SpanRef { index: index as usize, start: s.range.start, end: s.range.end }
}

/// The valid spans, in their given order.
pub open spec fn valid_refs(bytes: Seq<u8>, spans: Seq<InputSpan>) -> Seq<SpanRef>
    decreases spans.len(),
{
    if spans.len() == 0 {
        seq![]
    } else {
        let init = valid_refs(bytes, spans.drop_last());
        if is_valid_span(bytes, spans.last()) {
            init.push(span_ref(spans.len() - 1, spans.last()))
        } else {
            init
        }
    }
}

/// Keep each span that starts at or after the end of the last span kept.
pub open spec fn retain_disjoint(s: Seq<SpanRef>) -> (Seq<SpanRef>, int)
    decreases s.len(),
{
    if s.len() == 0 {
        (seq![], 0)
    } else {
        let (kept, cursor) = retain_disjoint(s.drop_last());
        if (s.last().start as int) < cursor {
            (kept, cursor)
        } else {
            (kept.push(s.last()), s.last().end as int)
        }
    }
}

/// The spans presented: the valid ones, stably sorted by start, dropping
/// each that overlaps one kept before it.
pub open spec fn selected_spans(bytes: Seq<u8>, spans: Seq<InputSpan>) -> Seq<SpanRef> {
    retain_disjoint(sort_by_start(valid_refs(bytes, spans))).0
}

fn span_is_valid(source: &str, span: &InputSpan) -> (r: bool)
    ensures
        r == is_valid_span(source.spec_bytes(), *span),
{
    let bytes = source.as_bytes();
    let start = span.range.start;
    let end = span.range.end;
    if !(start < end && end <= bytes.len() && source.is_char_boundary(start)
        && source.is_char_boundary(end)) {
        return false;
    }
    let mut i = start;
    while i < end
        invariant
            bytes@ == source.spec_bytes(),
            start <= i <= end <= bytes@.len(),
            start == span.range.start,
            end == span.range.end,
            no_newline(bytes@, start as int, i as int),
        decreases end - i,
    {
        if bytes[i] == 10u8 {
            assert(bytes@[i as int] == 10u8);
            assert(!no_newline(bytes@, start as int, end as int));
            return false;
        }
        i = i + 1;
    }
    match &span.editable {
        None => true,
        Some(ed) => start <= ed.range.start && ed.range.start <= ed.range.end && ed.range.end
            <= end && source.is_char_boundary(ed.range.start) && source.is_char_boundary(
            ed.range.end,
        ),
    }
}

/// The spans to present (see [`selected_spans`]), as references into `spans`.
pub fn valid_spans(source: &str, spans: &[InputSpan]) -> (r: Vec<SpanRef>)
    ensures
        r@ == selected_spans(source.spec_bytes(), spans@),
{
    let ghost bytes = source.spec_bytes();
    let mut refs: Vec<SpanRef> = Vec::new();
    let mut i: usize = 0;
    assert(spans@.take(0) =~= Seq::<InputSpan>::empty());
    while i < spans.len()
        invariant
            i <= spans@.len(),
            bytes == source.spec_bytes(),
            refs@ == valid_refs(bytes, spans@.take(i as int)),
        decreases spans@.len() - i,
    {
        let ghost next = spans@.take(i + 1);
        assert(next.drop_last() =~= spans@.take(i as int));
        assert(next.last() == spans@[i as int]);
        if span_is_valid(source, &spans[i]) {
            refs.push(SpanRef { index: i, start: spans[i].range.start, end: spans[i].range.end });
        }
        i = i + 1;
    }
    assert(spans@.take(spans@.len() as int) =~= spans@);
    let sorted = sorted_by_start(&refs);
    let mut kept: Vec<SpanRef> = Vec::new();
    let mut cursor: usize = 0;
    let mut k: usize = 0;
    assert(sorted@.take(0) =~= Seq::<SpanRef>::empty());
    while k < sorted.len()
        invariant
            k <= sorted@.len(),
            (kept@, cursor as int) == retain_disjoint(sorted@.take(k as int)),
        decreases sorted@.len() - k,
    {
        let ghost next = sorted@.take(k + 1);
        assert(next.drop_last() =~= sorted@.take(k as int));
        assert(next.last() == sorted@[k as int]);
        if sorted[k].start >= cursor {
            cursor = sorted[k].end;
            kept.push(sorted[k].copy_value());
        }
        k = k + 1;
    }
    assert(sorted@.take(sorted@.len() as int) =~= sorted@);
    kept
}

} // verus!

verus! {

/// Where a presented span landed in the display text.
#[derive(Debug, PartialEq, Eq)]
pub struct DisplaySpan {
    pub source_range: Range<usize>,
    pub display_range: Range<usize>,
    pub icon_range: Option<Range<usize>>,
    pub editable_source_range: Option<Range<usize>>,
    pub editable_display_range: Option<Range<usize>>,
}

impl Clone for DisplaySpan {
    fn clone(&self) -> (r: Self)
        ensures
            r == *self,
    {
        DisplaySpan {
            source_range: copy_range(&self.source_range),
            display_range: copy_range(&self.display_range),
            icon_range: copy_opt_range(&self.icon_range),
            editable_source_range: copy_opt_range(&self.editable_source_range),
            editable_display_range: copy_opt_range(&self.editable_display_range),
        }
    }
}

/// The display text (as UTF-8 bytes) with the two offset maps and the
/// presented spans. `source_to_display[o]` is the display offset of source
/// offset `o`; `display_to_source[d]` is the source offset of display offset `d`.
#[verifier::ext_equal]
pub ghost struct Layout {
    pub text: Seq<u8>,
    pub source_to_display: Seq<usize>,
    pub display_to_source: Seq<usize>,
    pub spans: Seq<DisplaySpan>,
}

/// One no-break space (U+00A0), the padding of a pill.
pub open spec fn nbsp() -> Seq<u8> {
    encode_utf8(seq!['\u{a0}'])
}

/// Append display-only text that maps back to `source_offset`.
pub open spec fn push_display(l: Layout, fragment: Seq<u8>, source_offset: int) -> Layout {
    Layout {
        text: l.text + fragment,
        display_to_source: l.display_to_source + Seq::new(
            fragment.len(),
            |i: int| source_offset as usize,
        ),
        ..l
    }
}

/// Start of the character that contains byte `p`.
pub open spec fn char_start(bytes: Seq<u8>, p: int) -> int
    decreases p,
{
    if p <= 0 || !is_continuation_byte(bytes[p]) {
        p
    } else {
        char_start(bytes, p - 1)
    }
}

/// Source offset for the display position just after source byte `p` of a
/// fragment ending at `end`: the end of its character once the character is
/// complete, else the character's start.
pub open spec fn after_source_byte(bytes: Seq<u8>, end: int, p: int) -> usize {
    if p + 1 == end || !is_continuation_byte(bytes[p + 1]) {
        (p + 1) as usize
    } else {
        char_start(bytes, p) as usize
    }
}

/// Append the source text `bytes[start..end]`, mapping each character start
/// (and `end`) both ways.
pub open spec fn push_source(l: Layout, bytes: Seq<u8>, start: int, end: int) -> Layout {
    let d = l.text.len() as int;
    Layout {
        text: l.text + bytes.subrange(start, end),
        source_to_display: Seq::new(
            l.source_to_display.len(),
            |o: int|
                if o == end {
                    (d + end - start) as usize
                } else if start <= o < end && !is_continuation_byte(bytes[o]) {
                    (d + o - start) as usize
                } else {
                    l.source_to_display[o]
                },
        ),
        display_to_source: l.display_to_source + Seq::new(
            (end - start) as nat,
            |i: int| after_source_byte(bytes, end, start + i),
        ),
        ..l
    }
}

/// Map every source offset in `start..end` to display offset `v`.
pub open spec fn fill_source(l: Layout, start: int, end: int, v: int) -> Layout {
    Layout {
        source_to_display: Seq::new(
            l.source_to_display.len(),
            |o: int|
                if start <= o < end {
                    v as usize
                } else {
                    l.source_to_display[o]
                },
        ),
        ..l
    }
}

/// Map source offset `o` to display offset `v`.
pub open spec fn set_source(l: Layout, o: int, v: int) -> Layout {
    Layout { source_to_display: l.source_to_display.update(o, v as usize), ..l }
}

/// Map every display offset in `from..=to` to source offset `v`.
pub open spec fn fill_display(l: Layout, from: int, to: int, v: int) -> Layout {
    Layout {
        display_to_source: Seq::new(
            l.display_to_source.len(),
            |i: int|
                if from <= i <= to {
                    v as usize
                } else {
                    l.display_to_source[i]
                },
        ),
        ..l
    }
}

/// The plain source from `cursor` up to span `s`, the pill's opening spaces,
/// its icon slot (two spaces and a separating space) when it has an icon, and
/// its label. The span's whole source range maps to the pill's start.
pub open spec fn span_head(l: Layout, bytes: Seq<u8>, cursor: int, s: InputSpan) -> Layout {
    let a = s.range.start as int;
    let l1 = push_source(l, bytes, cursor, a);
    let l2 = push_display(
        fill_source(l1, a, s.range.end as int, l1.text.len() as int),
        nbsp() + nbsp(),
        a,
    );
    let l3 = if s.icon_path is Some {
        push_display(push_display(l2, nbsp() + nbsp(), a), nbsp(), a)
    } else {
        l2
    };
    push_display(l3, encode_utf8(s.label@), a)
}

/// The editable value of `s`, between single spaces, if it has one.
pub open spec fn span_editable(l: Layout, bytes: Seq<u8>, s: InputSpan) -> Layout {
    match s.editable {
        None => l,
        Some(ed) => {
            let x = push_display(l, nbsp(), ed.range.start as int);
            push_display(
                push_source(
                    set_source(x, ed.range.start as int, x.text.len() as int),
                    bytes,
                    ed.range.start as int,
                    ed.range.end as int,
                ),
                nbsp(),
                ed.range.end as int,
            )
        },
    }
}

/// The pill's closing spaces; the span end then maps to the pill's end, and
/// the second half of the pill (or what follows the editable value) maps
/// back to the span end. The span is recorded, and one separating space
/// follows outside the pill.
pub open spec fn span_tail(
    l: Layout,
    s: InputSpan,
    display_start: int,
    icon_range: Option<Range<usize>>,
    editable_display_range: Option<Range<usize>>,
) -> Layout {
    let e = s.range.end as int;
    let l6 = push_display(l, nbsp() + nbsp(), e);
    let de = l6.text.len() as int;
    let l7 = set_source(l6, e, de);
    let split = match editable_display_range {
        Some(r) => r.end as int,
        None => display_start + (de - display_start) / 2,
    };
    let l8 = fill_display(l7, split, de, e);
    let shown = DisplaySpan {
        source_range: s.range,
        display_range: Range { start: display_start as usize, end: de as usize },
        icon_range,
        editable_source_range: match s.editable {
            None => None,
            Some(ed) => Some(ed.range),
        },
        editable_display_range,
    };
    push_display(Layout { spans: l8.spans.push(shown), ..l8 }, nbsp(), e)
}

/// Present the plain source up to span `s`, then the pill for `s`: two
/// no-break spaces, the icon slot, the label, the editable value, two closing
/// spaces, then one separating space outside the pill.
pub open spec fn present_span(l: Layout, bytes: Seq<u8>, cursor: int, s: InputSpan) -> Layout {
    let display_start = l.text.len() + s.range.start - cursor;
    let icon_start = display_start + (nbsp() + nbsp()).len();
    let icon_range = if s.icon_path is Some {
        Some(
            Range {
                start: icon_start as usize,
                end: (icon_start + (nbsp() + nbsp()).len()) as usize,
            },
        )
    } else {
        None
    };
    let head = span_head(l, bytes, cursor, s);
    let body = span_editable(head, bytes, s);
    let editable_display_range = match s.editable {
        None => None,
        Some(ed) => Some(Range { start: head.text.len() as usize, end: body.text.len() as usize }),
    };
    span_tail(body, s, display_start, icon_range, editable_display_range)
}

/// Nothing presented yet.
pub open spec fn initial_layout(bytes: Seq<u8>) -> Layout {
    Layout {
        text: seq![],
        source_to_display: Seq::new((bytes.len() + 1) as nat, |o: int| 0usize),
        display_to_source: seq![0usize],
        spans: seq![],
    }
}

/// The source shown as it is.
pub open spec fn identity_layout(bytes: Seq<u8>) -> Layout {
    Layout {
        text: bytes,
        source_to_display: Seq::new((bytes.len() + 1) as nat, |o: int| o as usize),
        display_to_source: Seq::new((bytes.len() + 1) as nat, |o: int| o as usize),
        spans: seq![],
    }
}

/// Present the first spans of `sel`; also the source offset reached.
pub open spec fn present_prefix(bytes: Seq<u8>, spans: Seq<InputSpan>, sel: Seq<SpanRef>) -> (
    Layout,
    int,
)
    decreases sel.len(),
{
    if sel.len() == 0 {
        (initial_layout(bytes), 0)
    } else {
        let (l, cursor) = present_prefix(bytes, spans, sel.drop_last());
        let s = spans[sel.last().index as int];
        (present_span(l, bytes, cursor, s), s.range.end as int)
    }
}

/// The presentation of `bytes` with `spans`: the source as it is when no span
/// is presented; otherwise every selected span in order, then the rest of
/// the source, with the last display offset mapped to the source end.
pub open spec fn presentation(bytes: Seq<u8>, spans: Seq<InputSpan>) -> Layout {
    let sel = selected_spans(bytes, spans);
    if sel.len() == 0 {
        identity_layout(bytes)
    } else {
        let (l, cursor) = present_prefix(bytes, spans, sel);
        let f = set_source(
            push_source(l, bytes, cursor, bytes.len() as int),
            bytes.len() as int,
            (l.text.len() + bytes.len() - cursor) as int,
        );
        Layout {
            display_to_source: f.display_to_source.update(
                f.display_to_source.len() - 1,
                bytes.len() as usize,
            ),
            ..f
        }
    }
}

} // verus!

verus! {

/// Append display-only `fragment`, every byte of it mapping back to
/// `source_offset`.
pub fn push_display_fragment(
    text: &mut Vec<u8>,
    display_to_source: &mut Vec<usize>,
    fragment: &str,
    source_offset: usize,
)
    ensures
        final(text)@ == old(text)@ + fragment.spec_bytes(),
        final(display_to_source)@ == old(display_to_source)@ + Seq::new(
            fragment.spec_bytes().len(),
            |i: int| source_offset,
        ),
{
    let bytes = fragment.as_bytes();
    let mut i: usize = 0;
    while i < bytes.len()
        invariant
            i <= bytes@.len(),
            bytes@ == fragment.spec_bytes(),
            text@ == old(text)@ + bytes@.take(i as int),
            display_to_source@ == old(display_to_source)@ + Seq::new(
                i as nat,
                |j: int| source_offset,
            ),
        decreases bytes@.len() - i,
    {
        text.push(bytes[i]);
        display_to_source.push(source_offset);
        assert(bytes@.take(i + 1) =~= bytes@.take(i as int).push(bytes@[i as int]));
        assert(text@ =~= old(text)@ + bytes@.take(i + 1));
        assert(display_to_source@ =~= old(display_to_source)@ + Seq::new(
            (i + 1) as nat,
            |j: int| source_offset,
        ));
        i = i + 1;
    }
    assert(bytes@.take(bytes@.len() as int) =~= bytes@);
}

} // verus!

verus! {

proof fn lemma_char_start_step(bytes: Seq<u8>, p: int)
    requires
        0 < p < bytes.len(),
        is_continuation_byte(bytes[p]),
    ensures
        char_start(bytes, p) == char_start(bytes, p - 1),
{
}

/// Append the source text `source[range]`, mapping each character start and
/// the range end to where it lands in the display text, and each display
/// byte back to the start of its character (or the character's end after
/// its last byte).
pub fn push_source_fragment(
    text: &mut Vec<u8>,
    display_to_source: &mut Vec<usize>,
    source_to_display: &mut Vec<usize>,
    source: &str,
    range: Range<usize>,
)
    requires
        range.start <= range.end,
        is_char_boundary(source.spec_bytes(), range.start as int),
        is_char_boundary(source.spec_bytes(), range.end as int),
        range.end < old(source_to_display)@.len(),
    ensures
        final(text)@ == old(text)@ + source.spec_bytes().subrange(
            range.start as int,
            range.end as int,
        ),
        final(display_to_source)@ == old(display_to_source)@ + Seq::new(
            (range.end - range.start) as nat,
            |i: int| after_source_byte(source.spec_bytes(), range.end as int, range.start + i),
        ),
        final(source_to_display)@ == Seq::new(
            old(source_to_display)@.len(),
            |o: int|
                if o == range.end {
                    (old(text)@.len() + range.end - range.start) as usize
                } else if range.start <= o < range.end && !is_continuation_byte(
                    source.spec_bytes()[o],
                ) {
                    (old(text)@.len() + o - range.start) as usize
                } else {
                    old(source_to_display)@[o]
                },
        ),
{
    let bytes = source.as_bytes();
    let start = range.start;
    let end = range.end;
    proof {
        lemma_boundary_le_len(bytes@, end as int);
    }
    let ghost d = text@.len() as int;
    let ghost text0 = text@;
    let ghost d2s0 = display_to_source@;
    let ghost s2d0 = source_to_display@;
    let mut p = start;
    let mut current_char_start = start;
    while p < end
        invariant
            bytes@ == source.spec_bytes(),
            start <= p <= end <= bytes@.len(),
            is_char_boundary(bytes@, start as int),
            d == text0.len(),
            text@ == text0 + bytes@.subrange(start as int, p as int),
            display_to_source@ == d2s0 + Seq::new(
                (p - start) as nat,
                |i: int| after_source_byte(bytes@, end as int, start + i),
            ),
            source_to_display@.len() == s2d0.len(),
            end < s2d0.len(),
            forall|o: int|
                0 <= o < s2d0.len() ==> #[trigger] source_to_display@[o] == if start <= o < p
                    && !is_continuation_byte(bytes@[o]) {
                    (d + o - start) as usize
                } else {
                    s2d0[o]
                },
            p > start ==> current_char_start == char_start(bytes@, p - 1),
        decreases end - p,
    {
        let here = text.len();
        let b = bytes[p];
        text.push(b);
        let is_cont = 0x80u8 <= b && b <= 0xbfu8;
        if !is_cont {
            source_to_display.set(p, here);
            current_char_start = p;
        } else {
            proof {
                if p == start {
                    is_char_boundary_iff_not_is_continuation_byte(bytes@, start as int);
                }
                lemma_char_start_step(bytes@, p as int);
            }
        }
        let next_is_boundary = p + 1 == end || !(0x80u8 <= bytes[p + 1] && bytes[p + 1] <= 0xbfu8);
        if next_is_boundary {
            display_to_source.push(p + 1);
        } else {
            display_to_source.push(current_char_start);
        }
        assert(bytes@.subrange(start as int, p + 1) =~= bytes@.subrange(start as int, p as int).push(b));
        assert(display_to_source@ =~= d2s0 + Seq::new(
            (p + 1 - start) as nat,
            |i: int| after_source_byte(bytes@, end as int, start + i),
        ));
        p = p + 1;
    }
    let here = text.len();
    source_to_display.set(end, here);
    assert(source_to_display@ =~= Seq::new(
        s2d0.len(),
        |o: int|
            if o == end {
                (d + end - start) as usize
            } else if start <= o < end && !is_continuation_byte(bytes@[o]) {
                (d + o - start) as usize
            } else {
                s2d0[o]
            },
    ));
}

} // verus!

verus! {

/// A reference to a valid span among `spans`.
pub open spec fn refers_to_valid(bytes: Seq<u8>, spans: Seq<InputSpan>, r: SpanRef) -> bool {
    &&& (r.index as int) < spans.len()
    &&& is_valid_span(bytes, spans[r.index as int])
    &&& r.start == spans[r.index as int].range.start
    &&& r.end == spans[r.index as int].range.end
}

proof fn lemma_valid_refs(bytes: Seq<u8>, spans: Seq<InputSpan>)
    requires
        spans.len() <= usize::MAX,
    ensures
        forall|k: int|
            0 <= k < valid_refs(bytes, spans).len() ==> refers_to_valid(
                bytes,
                spans,
                #[trigger] valid_refs(bytes, spans)[k],
            ),
    decreases spans.len(),
{
    if spans.len() > 0 {
        let init = spans.drop_last();
        lemma_valid_refs(bytes, init);
        let prev = valid_refs(bytes, init);
        assert forall|k: int| 0 <= k < prev.len() implies refers_to_valid(
            bytes,
            spans,
            #[trigger] prev[k],
        ) by {
            assert(refers_to_valid(bytes, init, prev[k]));
            assert(spans[prev[k].index as int] == init[prev[k].index as int]);
        }
        if is_valid_span(bytes, spans.last()) {
            let now = prev.push(span_ref(spans.len() - 1, spans.last()));
            assert forall|k: int| 0 <= k < now.len() implies refers_to_valid(
                bytes,
                spans,
                #[trigger] now[k],
            ) by {
                if k < prev.len() {
                    assert(now[k] == prev[k]);
                }
            }
        }
    }
}

proof fn lemma_retain_disjoint(s: Seq<SpanRef>, p: spec_fn(SpanRef) -> bool)
    requires
        forall|k: int| 0 <= k < s.len() ==> p(#[trigger] s[k]),
        forall|k: int| 0 <= k < s.len() ==> (#[trigger] s[k]).start < s[k].end,
    ensures
        ({
            let (kept, cursor) = retain_disjoint(s);
            &&& forall|k: int| 0 <= k < kept.len() ==> p(#[trigger] kept[k])
            &&& forall|k: int| 0 < k < kept.len() ==> kept[k - 1].end <= (#[trigger] kept[k]).start
            &&& forall|k: int| 0 <= k < kept.len() ==> (#[trigger] kept[k]).start < kept[k].end
            &&& kept.len() == 0 ==> cursor == 0
            &&& kept.len() > 0 ==> cursor == kept.last().end
        }),
    decreases s.len(),
{
    if s.len() > 0 {
        let init = s.drop_last();
        assert forall|k: int| 0 <= k < init.len() implies p(#[trigger] init[k]) && init[k].start
            < init[k].end by {
            assert(init[k] == s[k]);
        }
        lemma_retain_disjoint(init, p);
        let (kept, cursor) = retain_disjoint(init);
        assert(p(s[s.len() - 1]));
        assert(s[s.len() - 1].start < s[s.len() - 1].end);
        if (s.last().start as int) >= cursor {
            let now = kept.push(s.last());
            assert forall|k: int| 0 <= k < now.len() implies p(#[trigger] now[k]) && now[k].start
                < now[k].end by {
                if k < kept.len() {
                    assert(now[k] == kept[k]);
                }
            }
            assert forall|k: int| 0 < k < now.len() implies now[k - 1].end <= (
            #[trigger] now[k]).start by {
                if k < kept.len() {
                    assert(now[k] == kept[k]);
                    assert(now[k - 1] == kept[k - 1]);
                }
            }
        }
    }
}

/// The selected spans refer to valid spans, in source order, without overlap.
pub proof fn lemma_selected_spans(bytes: Seq<u8>, spans: Seq<InputSpan>)
    requires
        spans.len() <= usize::MAX,
    ensures
        ({
            let sel = selected_spans(bytes, spans);
            &&& forall|k: int| 0 <= k < sel.len() ==> refers_to_valid(bytes, spans, #[trigger] sel[k])
            &&& forall|k: int| 0 < k < sel.len() ==> sel[k - 1].end <= (#[trigger] sel[k]).start
        }),
{
    let refs = valid_refs(bytes, spans);
    lemma_valid_refs(bytes, spans);
    let p = |r: SpanRef| refers_to_valid(bytes, spans, r);
    assert forall|k: int| 0 <= k < refs.len() implies p(#[trigger] refs[k]) by {}
    lemma_sort_preserves(refs, p);
    let sorted = sort_by_start(refs);
    assert forall|k: int| 0 <= k < sorted.len() implies (#[trigger] sorted[k]).start
        < sorted[k].end by {
        assert(p(sorted[k]));
    }
    lemma_retain_disjoint(sorted, p);
    let sel = retain_disjoint(sorted).0;
    assert forall|k: int| 0 <= k < sel.len() implies refers_to_valid(
        bytes,
        spans,
        #[trigger] sel[k],
    ) by {
        assert(p(sel[k]));
    }
}

} // verus!

verus! {

pub open spec fn layout_of(
    text: Seq<u8>,
    source_to_display: Seq<usize>,
    display_to_source: Seq<usize>,
    spans: Seq<DisplaySpan>,
) -> Layout {
    Layout { text, source_to_display, display_to_source, spans }
}

/// One no-break space.
fn nbsp_str() -> (r: &'static str)
    ensures
        r.spec_bytes() == nbsp(),
{
    let s = "\u{a0}";
    proof {
        reveal_strlit("\u{a0}");
    }
    assert(s@ =~= seq!['\u{a0}']);
    s
}

/// Two no-break spaces.
fn nbsp2_str() -> (r: &'static str)
    ensures
        r.spec_bytes() == nbsp() + nbsp(),
{
    let s = "\u{a0}\u{a0}";
    proof {
        reveal_strlit("\u{a0}\u{a0}");
        assert(s@ =~= seq!['\u{a0}'] + seq!['\u{a0}']);
        lemma_encode_concat(seq!['\u{a0}'], seq!['\u{a0}']);
    }
    s
}

/// Map every source offset in `start..end` to `value`.
fn fill_source_to_display(map: &mut Vec<usize>, start: usize, end: usize, value: usize)
    requires
        end <= old(map)@.len(),
    ensures
        final(map)@ == Seq::new(
            old(map)@.len(),
            |o: int|
                if start <= o < end {
                    value
                } else {
                    old(map)@[o]
                },
        ),
{
    let mut o = start;
    while o < end
        invariant
            end <= map@.len(),
            map@.len() == old(map)@.len(),
            start <= o,
            start < end ==> o <= end,
            start >= end ==> o == start,
            forall|j: int|
                0 <= j < map@.len() ==> #[trigger] map@[j] == if start <= j < o {
                    value
                } else {
                    old(map)@[j]
                },
        decreases end - o,
    {
        map.set(o, value);
        o = o + 1;
    }
    assert(start < end ==> o == end);
    assert forall|j: int| 0 <= j < map@.len() implies #[trigger] map@[j] == (if start <= j < end {
        value
    } else {
        old(map)@[j]
    }) by {
        assert(map@[j] == (if start <= j < o {
            value
        } else {
            old(map)@[j]
        }));
    }
    assert(map@ =~= Seq::new(
        old(map)@.len(),
        |o: int|
            if start <= o < end {
                value
            } else {
                old(map)@[o]
            },
    ));
}

/// Map every display offset in `from..=to` to `value`.
fn fill_display_to_source(map: &mut Vec<usize>, from: usize, to: usize, value: usize)
    requires
        to < old(map)@.len(),
    ensures
        final(map)@ == Seq::new(
            old(map)@.len(),
            |i: int|
                if from <= i <= to {
                    value
                } else {
                    old(map)@[i]
                },
        ),
{
    let n = map.len();
    let mut q = from;
    while q <= to
        invariant
            n == map@.len(),
            to < map@.len(),
            map@.len() == old(map)@.len(),
            from <= q,
            from <= to ==> q <= to + 1,
            from > to ==> q == from,
            forall|j: int|
                0 <= j < map@.len() ==> #[trigger] map@[j] == if from <= j < q {
                    value
                } else {
                    old(map)@[j]
                },
        decreases to + 1 - q,
    {
        map.set(q, value);
        q = q + 1;
    }
    assert forall|j: int| 0 <= j < map@.len() implies #[trigger] map@[j] == (if from <= j <= to {
        value
    } else {
        old(map)@[j]
    }) by {}
    assert(map@ =~= Seq::new(
        old(map)@.len(),
        |i: int|
            if from <= i <= to {
                value
            } else {
                old(map)@[i]
            },
    ));
}

} // verus!

verus! {

pub proof fn lemma_nbsp_valid()
    ensures
        valid_utf8(nbsp()),
        valid_utf8(nbsp() + nbsp()),
        nbsp().len() > 0,
{
    lemma_encode_single('\u{a0}');
    char_is_scalar('\u{a0}');
}

/// The plain source up to `span`, the pill's opening spaces, icon slot and
/// label (see [`span_head`]). Returns where the pill starts and its icon slot.
fn present_head(
    text: &mut Vec<u8>,
    source_to_display: &mut Vec<usize>,
    display_to_source: &mut Vec<usize>,
    source: &str,
    span: &InputSpan,
    cursor: usize,
) -> (r: (usize, Option<Range<usize>>))
    requires
        is_valid_span(source.spec_bytes(), *span),
        cursor <= span.range.start,
        is_char_boundary(source.spec_bytes(), cursor as int),
        old(source_to_display)@.len() == source.spec_bytes().len() + 1,
        old(display_to_source)@.len() == old(text)@.len() + 1,
        valid_utf8(old(text)@),
    ensures
        final(source_to_display)@.len() == source.spec_bytes().len() + 1,
        final(display_to_source)@.len() == final(text)@.len() + 1,
        ({
            let l0 = layout_of(old(text)@, old(source_to_display)@, old(display_to_source)@, seq![]);
            let head = span_head(l0, source.spec_bytes(), cursor as int, *span);
            let ds = old(text)@.len() + span.range.start - cursor;
            &&& layout_of(final(text)@, final(source_to_display)@, final(display_to_source)@, seq![])
                == head
            &&& r.0 == ds
            &&& r.1 == (if span.icon_path is Some {
                Some(
                    Range {
                        start: (ds + (nbsp() + nbsp()).len()) as usize,
                        end: (ds + 2 * (nbsp() + nbsp()).len()) as usize,
                    },
                )
            } else {
                None::<Range<usize>>
            })
        }),
        valid_utf8(final(text)@),
{
    let ghost bytes = source.spec_bytes();
    let ghost l0 = layout_of(text@, source_to_display@, display_to_source@, seq![]);
    let a = span.range.start;
    let e = span.range.end;
    proof {
        lemma_boundary_le_len(bytes, e as int);
        lemma_valid_subrange(bytes, cursor as int, a as int);
        lemma_nbsp_valid();
    }
    push_source_fragment(text, display_to_source, source_to_display, source, cursor..a);
    assert(valid_utf8(text@));
    let display_start = text.len();
    fill_source_to_display(source_to_display, a, e, display_start);
    let nbsp1 = nbsp_str();
    let nbsp2 = nbsp2_str();
    push_display_fragment(text, display_to_source, nbsp2, a);
    assert(valid_utf8(text@));
    let icon_range = if span.icon_path.is_some() {
        let start = text.len();
        push_display_fragment(text, display_to_source, nbsp2, a);
        assert(valid_utf8(text@));
        let r = start..text.len();
        push_display_fragment(text, display_to_source, nbsp1, a);
        assert(valid_utf8(text@));
        Some(r)
    } else {
        None
    };
    let ghost before = text@;
    push_display_fragment(text, display_to_source, span.label.as_str(), a);
    assert(valid_utf8(encode_utf8(span.label@)));
    assert(text@ == before + encode_utf8(span.label@));
    assert(layout_of(text@, source_to_display@, display_to_source@, seq![]) =~= span_head(
        l0,
        bytes,
        cursor as int,
        *span,
    ));
    (display_start, icon_range)
}

} // verus!

verus! {

/// The editable value of `span` between single spaces (see [`span_editable`]).
/// Returns its display range.
fn present_editable(
    text: &mut Vec<u8>,
    source_to_display: &mut Vec<usize>,
    display_to_source: &mut Vec<usize>,
    source: &str,
    span: &InputSpan,
) -> (r: Option<Range<usize>>)
    requires
        is_valid_span(source.spec_bytes(), *span),
        old(source_to_display)@.len() == source.spec_bytes().len() + 1,
        old(display_to_source)@.len() == old(text)@.len() + 1,
        valid_utf8(old(text)@),
    ensures
        final(source_to_display)@.len() == source.spec_bytes().len() + 1,
        final(display_to_source)@.len() == final(text)@.len() + 1,
        final(text)@.len() >= old(text)@.len(),
        ({
            let l0 = layout_of(old(text)@, old(source_to_display)@, old(display_to_source)@, seq![]);
            let body = span_editable(l0, source.spec_bytes(), *span);
            &&& layout_of(final(text)@, final(source_to_display)@, final(display_to_source)@, seq![])
                == body
            &&& r == (match span.editable {
                None => None,
                Some(ed) => Some(
                    Range { start: old(text)@.len() as usize, end: body.text.len() as usize },
                ),
            })
        }),
        valid_utf8(final(text)@),
{
    let ghost bytes = source.spec_bytes();
    let ghost l0 = layout_of(text@, source_to_display@, display_to_source@, seq![]);
    match &span.editable {
        None => None,
        Some(ed) => {
            proof {
                lemma_boundary_le_len(bytes, span.range.end as int);
                lemma_valid_subrange(bytes, ed.range.start as int, ed.range.end as int);
                lemma_nbsp_valid();
            }
            let nbsp1 = nbsp_str();
            let decoration_start = text.len();
            push_display_fragment(text, display_to_source, nbsp1, ed.range.start);
            assert(valid_utf8(text@));
            let here = text.len();
            source_to_display.set(ed.range.start, here);
            push_source_fragment(
                text,
                display_to_source,
                source_to_display,
                source,
                ed.range.start..ed.range.end,
            );
            assert(valid_utf8(text@));
            push_display_fragment(text, display_to_source, nbsp1, ed.range.end);
            assert(valid_utf8(text@));
            assert(layout_of(text@, source_to_display@, display_to_source@, seq![])
                =~= span_editable(l0, bytes, *span));
            Some(decoration_start..text.len())
        },
    }
}

/// The pill's closing spaces, the span record and the separating space (see
/// [`span_tail`]).
fn present_tail(
    text: &mut Vec<u8>,
    source_to_display: &mut Vec<usize>,
    display_to_source: &mut Vec<usize>,
    display_spans: &mut Vec<DisplaySpan>,
    span: &InputSpan,
    display_start: usize,
    icon_range: Option<Range<usize>>,
    editable_display_range: Option<Range<usize>>,
)
    requires
        span.range.end < old(source_to_display)@.len(),
        old(display_to_source)@.len() == old(text)@.len() + 1,
        display_start <= old(text)@.len(),
        editable_display_range matches Some(r) ==> r.end <= old(text)@.len(),
        valid_utf8(old(text)@),
    ensures
        layout_of(
            final(text)@,
            final(source_to_display)@,
            final(display_to_source)@,
            final(display_spans)@,
        ) == span_tail(
            layout_of(
                old(text)@,
                old(source_to_display)@,
                old(display_to_source)@,
                old(display_spans)@,
            ),
            *span,
            display_start as int,
            icon_range,
            editable_display_range,
        ),
        final(source_to_display)@.len() == old(source_to_display)@.len(),
        final(display_to_source)@.len() == final(text)@.len() + 1,
        valid_utf8(final(text)@),
{
    let ghost l0 = layout_of(text@, source_to_display@, display_to_source@, display_spans@);
    proof {
        lemma_nbsp_valid();
    }
    let e = span.range.end;
    let nbsp1 = nbsp_str();
    let nbsp2 = nbsp2_str();
    push_display_fragment(text, display_to_source, nbsp2, e);
    assert(valid_utf8(text@));
    let here = text.len();
    source_to_display.set(e, here);
    let display_end = text.len();
    let split = match &editable_display_range {
        Some(r) => r.end,
        None => display_start + (display_end - display_start) / 2,
    };
    fill_display_to_source(display_to_source, split, display_end, e);
    let editable_source_range = match &span.editable {
        None => None,
        Some(ed) => Some(copy_range(&ed.range)),
    };
    display_spans.push(
        DisplaySpan {
            source_range: copy_range(&span.range),
            display_range: display_start..display_end,
            icon_range,
            editable_source_range,
            editable_display_range,
        },
    );
    push_display_fragment(text, display_to_source, nbsp1, e);
    assert(valid_utf8(text@));
    assert(layout_of(text@, source_to_display@, display_to_source@, display_spans@) =~= span_tail(
        l0,
        *span,
        display_start as int,
        icon_range,
        editable_display_range,
    ));
}

} // verus!

verus! {

/// Present the plain source from `cursor` up to `span`, then `span` itself
/// (see [`present_span`]).
fn present_one(
    text: &mut Vec<u8>,
    source_to_display: &mut Vec<usize>,
    display_to_source: &mut Vec<usize>,
    display_spans: &mut Vec<DisplaySpan>,
    source: &str,
    span: &InputSpan,
    cursor: usize,
)
    requires
        is_valid_span(source.spec_bytes(), *span),
        cursor <= span.range.start,
        is_char_boundary(source.spec_bytes(), cursor as int),
        old(source_to_display)@.len() == source.spec_bytes().len() + 1,
        old(display_to_source)@.len() == old(text)@.len() + 1,
        valid_utf8(old(text)@),
    ensures
        layout_of(
            final(text)@,
            final(source_to_display)@,
            final(display_to_source)@,
            final(display_spans)@,
        ) == present_span(
            layout_of(
                old(text)@,
                old(source_to_display)@,
                old(display_to_source)@,
                old(display_spans)@,
            ),
            source.spec_bytes(),
            cursor as int,
            *span,
        ),
        final(source_to_display)@.len() == source.spec_bytes().len() + 1,
        final(display_to_source)@.len() == final(text)@.len() + 1,
        valid_utf8(final(text)@),
{
    let ghost bytes = source.spec_bytes();
    let ghost spans0 = display_spans@;
    let ghost l0 = layout_of(text@, source_to_display@, display_to_source@, spans0);
    let ghost l0e = layout_of(text@, source_to_display@, display_to_source@, seq![]);
    proof {
        lemma_boundary_le_len(bytes, span.range.end as int);
    }
    let (display_start, icon_range) = present_head(
        text,
        source_to_display,
        display_to_source,
        source,
        span,
        cursor,
    );
    let ghost head = span_head(l0, bytes, cursor as int, *span);
    assert(span_head(l0e, bytes, cursor as int, *span) =~= Layout { spans: seq![], ..head });
    assert(layout_of(text@, source_to_display@, display_to_source@, spans0) =~= head);
    let ghost h0 = layout_of(text@, source_to_display@, display_to_source@, seq![]);
    let editable_display_range = present_editable(
        text,
        source_to_display,
        display_to_source,
        source,
        span,
    );
    let ghost body = span_editable(head, bytes, *span);
    assert(span_editable(h0, bytes, *span) =~= Layout { spans: seq![], ..body });
    assert(layout_of(text@, source_to_display@, display_to_source@, spans0) =~= body);
    present_tail(
        text,
        source_to_display,
        display_to_source,
        display_spans,
        span,
        display_start,
        icon_range,
        editable_display_range,
    );
}

} // verus!

verus! {

/// Bidirectional projection between the input's canonical value and the rich
/// text presented by the editor.
pub struct SpanPresentation {
    text: Rope,
    source_to_display: Vec<usize>,
    display_to_source: Vec<usize>,
    spans: Vec<DisplaySpan>,
}

impl View for SpanPresentation {
    type V = Layout;

    closed spec fn view(&self) -> Layout {
        Layout {
            text: encode_utf8(rope_text(self.text)),
            source_to_display: self.source_to_display@,
            display_to_source: self.display_to_source@,
            spans: self.spans@,
        }
    }
}

/// `min(offset, len - 1)`-th entry of a non-empty map, or 0 for an empty one.
pub open spec fn lookup(map: Seq<usize>, offset: int) -> usize {
    if map.len() == 0 {
        0
    } else if offset < map.len() - 1 {
        map[offset]
    } else {
        map[map.len() - 1]
    }
}

/// `len + 1` zeros.
fn zero_map(len: usize) -> (r: Vec<usize>)
    ensures
        r@ == Seq::new((len + 1) as nat, |i: int| 0usize),
{
    let mut map: Vec<usize> = Vec::new();
    let mut o: usize = 0;
    loop
        invariant_except_break
            o <= len,
            map@ == Seq::new(o as nat, |i: int| 0usize),
        ensures
            map@ == Seq::new((len + 1) as nat, |i: int| 0usize),
        decreases len - o,
    {
        map.push(0);
        assert(map@ =~= Seq::new((o + 1) as nat, |i: int| 0usize));
        if o == len {
            break;
        }
        o = o + 1;
    }
    map
}

/// Present every selected span in order (see [`present_prefix`]).
fn present_selected(src: &str, spans: &[InputSpan], valid: &Vec<SpanRef>) -> (r: (
    Vec<u8>,
    Vec<usize>,
    Vec<usize>,
    Vec<DisplaySpan>,
    usize,
))
    requires
        valid@ == selected_spans(src.spec_bytes(), spans@),
    ensures
        (layout_of(r.0@, r.1@, r.2@, r.3@), r.4 as int) == present_prefix(
            src.spec_bytes(),
            spans@,
            valid@,
        ),
        is_char_boundary(src.spec_bytes(), r.4 as int),
        r.4 <= src.spec_bytes().len(),
        r.1@.len() == src.spec_bytes().len() + 1,
        r.2@.len() == r.0@.len() + 1,
        valid_utf8(r.0@),
{
    let ghost bytes = src.spec_bytes();
    let len = src.as_bytes().len();
    let nspans = spans.len();
    proof {
        lemma_selected_spans(bytes, spans@);
    }
    let ghost sel = valid@;
    let mut text: Vec<u8> = Vec::new();
    let mut source_to_display = zero_map(len);
    let mut display_to_source: Vec<usize> = Vec::new();
    display_to_source.push(0);
    let mut display_spans: Vec<DisplaySpan> = Vec::new();
    let mut cursor: usize = 0;
    assert(layout_of(text@, source_to_display@, display_to_source@, display_spans@)
        =~= initial_layout(bytes));
    assert(sel.take(0) =~= Seq::<SpanRef>::empty());
    assert(valid_utf8(text@)) by {
        assert(text@ =~= Seq::<u8>::empty());
    }
    let n = valid.len();
    let mut i: usize = 0;
    while i < n
        invariant
            n == sel.len(),
            valid@ == sel,
            bytes == src.spec_bytes(),
            len == bytes.len(),
            i <= n,
            forall|k: int| 0 <= k < sel.len() ==> refers_to_valid(bytes, spans@, #[trigger] sel[k]),
            forall|k: int| 0 < k < sel.len() ==> sel[k - 1].end <= (#[trigger] sel[k]).start,
            (layout_of(text@, source_to_display@, display_to_source@, display_spans@), cursor as int)
                == present_prefix(bytes, spans@, sel.take(i as int)),
            i == 0 ==> cursor == 0,
            i > 0 ==> cursor == sel[i - 1].end,
            is_char_boundary(bytes, cursor as int),
            cursor <= len,
            source_to_display@.len() == len + 1,
            display_to_source@.len() == text@.len() + 1,
            valid_utf8(text@),
        decreases n - i,
    {
        let index = valid[i].index;
        let span = &spans[index];
        assert(refers_to_valid(bytes, spans@, sel[i as int]));
        proof {
            if i > 0 {
                assert(sel[i - 1].end <= sel[i as int].start);
            }
            lemma_boundary_le_len(bytes, span.range.end as int);
        }
        present_one(
            &mut text,
            &mut source_to_display,
            &mut display_to_source,
            &mut display_spans,
            src,
            span,
            cursor,
        );
        cursor = span.range.end;
        let ghost next = sel.take(i + 1);
        assert(next.drop_last() =~= sel.take(i as int));
        assert(next.last() == sel[i as int]);
        i = i + 1;
    }
    assert(sel.take(n as int) =~= sel);
    (text, source_to_display, display_to_source, display_spans, cursor)
}

/// Present the selected spans, then the rest of the source (see [`presentation`]).
fn present_all(src: &str, spans: &[InputSpan], valid: &Vec<SpanRef>) -> (r: (
    Vec<u8>,
    Vec<usize>,
    Vec<usize>,
    Vec<DisplaySpan>,
))
    requires
        valid@ == selected_spans(src.spec_bytes(), spans@),
        valid@.len() > 0,
    ensures
        layout_of(r.0@, r.1@, r.2@, r.3@) == presentation(src.spec_bytes(), spans@),
        valid_utf8(r.0@),
{
    let ghost bytes = src.spec_bytes();
    let len = src.as_bytes().len();
    let (mut text, mut source_to_display, mut display_to_source, display_spans, cursor) =
        present_selected(src, spans, valid);
    let ghost before = layout_of(text@, source_to_display@, display_to_source@, display_spans@);
    proof {
        lemma_valid_subrange(bytes, cursor as int, len as int);
    }
    push_source_fragment(&mut text, &mut display_to_source, &mut source_to_display, src, cursor..len);
    let here = text.len();
    source_to_display.set(len, here);
    let last = display_to_source.len() - 1;
    display_to_source.set(last, len);
    assert(layout_of(text@, source_to_display@, display_to_source@, display_spans@)
        =~= presentation(bytes, spans@));
    (text, source_to_display, display_to_source, display_spans)
}

impl SpanPresentation {
    /// Present `source` with `spans` (see [`presentation`]).
    pub fn new(source: &Rope, spans: &[InputSpan]) -> (r: Self)
        ensures
            r@ == presentation(encode_utf8(rope_text(*source)), spans@),
            r@.text.len() <= usize::MAX,
    {
        let source_string = rope_to_string(source);
        let src = source_string.as_str();
        let valid = valid_spans(src, spans);
        assert(src.spec_bytes() == encode_utf8(rope_text(*source)));
        if valid.len() == 0 {
            return Self::identity(src);
        }
        let (text, source_to_display, display_to_source, display_spans) = present_all(
            src,
            spans,
            &valid,
        );
        assert(text@.len() == text.len());
        let shown = match string_from_utf8(text) {
            Some(s) => s,
            None => {
                assert(false);
                String::new()
            },
        };
        let rope = rope_from_str(shown.as_str());
        assert(encode_utf8(rope_text(rope)) == encode_utf8(decode_utf8(text@)));
        assert(encode_utf8(decode_utf8(text@)) == text@);
        SpanPresentation {
            text: rope,
            source_to_display,
            display_to_source,
            spans: display_spans,
        }
    }

    /// The source shown as it is, every offset mapping to itself.
    pub fn identity(source: &str) -> (r: Self)
        ensures
            r@ == identity_layout(source.spec_bytes()),
            r@.text.len() <= usize::MAX,
    {
        let len = source.as_bytes().len();
        let mut map: Vec<usize> = Vec::new();
        let mut o: usize = 0;
        loop
            invariant_except_break
                o <= len,
                map@ == Seq::new(o as nat, |i: int| i as usize),
            ensures
                map@ == Seq::new((len + 1) as nat, |i: int| i as usize),
            decreases len - o,
        {
            map.push(o);
            assert(map@ =~= Seq::new((o + 1) as nat, |i: int| i as usize));
            if o == len {
                break;
            }
            o = o + 1;
        }
        let copy = map.clone();
        assert(copy@ =~= map@);
        SpanPresentation {
            text: rope_from_str(source),
            source_to_display: map,
            display_to_source: copy,
            spans: Vec::new(),
        }
    }

    /// The presented text.
    pub fn text(&self) -> (r: &Rope)
        ensures
            encode_utf8(rope_text(*r)) == self@.text,
    {
        &self.text
    }

    /// The source offset presented at `display_offset` (offsets past the end
    /// map like the end).
    pub fn source_offset(&self, display_offset: usize) -> (r: usize)
        ensures
            r == lookup(self@.display_to_source, display_offset as int),
    {
        let n = self.display_to_source.len();
        if n == 0 {
            return 0;
        }
        let i = if display_offset < n - 1 {
            display_offset
        } else {
            n - 1
        };
        self.display_to_source[i]
    }

    /// The display offset of `source_offset` (offsets past the end map like
    /// the end).
    pub fn display_offset(&self, source_offset: usize) -> (r: usize)
        ensures
            r == lookup(self@.source_to_display, source_offset as int),
    {
        let n = self.source_to_display.len();
        if n == 0 {
            return 0;
        }
        let i = if source_offset < n - 1 {
            source_offset
        } else {
            n - 1
        };
        self.source_to_display[i]
    }

    /// The display range of a source range.
    pub fn display_range(&self, source_range: &Range<usize>) -> (r: Range<usize>)
        ensures
            r.start == lookup(self@.source_to_display, source_range.start as int),
            r.end == lookup(self@.source_to_display, source_range.end as int),
    {
        self.display_offset(source_range.start)..self.display_offset(source_range.end)
    }

    /// The presented spans, in source order.
    pub fn spans(&self) -> (r: &[DisplaySpan])
        ensures
            r@ == self@.spans,
    {
        self.spans.as_slice()
    }
}

} // verus!
