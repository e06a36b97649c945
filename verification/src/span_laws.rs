//! What the span presentation guarantees: offsets outside pills (and inside
//! editable values) survive the round trip through the display text, the
//! caret after a span stays outside its pill, and only valid, disjoint spans
//! are presented, in source order.
use vstd::prelude::*;
use std::ops::Range;
use vstd::utf8::*;
use crate::text::lemma_boundary_le_len;
use crate::span::{
    after_source_byte, fill_display, fill_source, is_valid_span, nbsp, present_span, push_display,
    push_source,
    set_source, span_editable, span_head, span_tail, DisplaySpan, InputSpan, Layout, initial_layout,
    present_prefix, refers_to_valid, SpanRef, presentation, selected_spans, identity_layout,
    lemma_selected_spans, lookup, char_start,
};

verus! {

/// Offset `o` survives the round trip in `l`, landing before the text's end.
pub open spec fn round_trips(l: Layout, o: int) -> bool {
    &&& 0 <= o < l.source_to_display.len()
    &&& (l.source_to_display[o] as int) < l.text.len()
    &&& l.display_to_source[l.source_to_display[o] as int] == o
}

/// Facts every partial presentation keeps.
pub open spec fn well_shaped(l: Layout, len: int) -> bool {
    &&& l.source_to_display.len() == len + 1
    &&& l.display_to_source.len() == l.text.len() + 1
}

proof fn lemma_push_display_frame(l: Layout, f: Seq<u8>, v: int, len: int)
    requires
        well_shaped(l, len),
    ensures
        well_shaped(push_display(l, f, v), len),
        push_display(l, f, v).source_to_display == l.source_to_display,
        push_display(l, f, v).text.len() == l.text.len() + f.len(),
        forall|x: int|
            0 <= x < l.display_to_source.len() ==> #[trigger] push_display(
                l,
                f,
                v,
            ).display_to_source[x] == l.display_to_source[x],
        forall|x: int|
            l.text.len() < x <= l.text.len() + f.len() ==> #[trigger] push_display(
                l,
                f,
                v,
            ).display_to_source[x] == v as usize,
{
}

} // verus!

verus! {

/// `l2` extends `l`: source offsets below `so` keep their display offset, and
/// display offsets below `dx` keep their source offset.
pub open spec fn frames(l: Layout, l2: Layout, len: int, so: int, dx: int) -> bool {
    &&& well_shaped(l, len)
    &&& well_shaped(l2, len)
    &&& l2.text.len() >= l.text.len()
    &&& forall|o: int| 0 <= o < so && o <= len ==> #[trigger] l2.source_to_display[o] == l.source_to_display[o]
    &&& forall|x: int| 0 <= x < dx && x <= l.text.len() ==> #[trigger] l2.display_to_source[x] == l.display_to_source[x]
}

proof fn lemma_frames_trans(a: Layout, b: Layout, c: Layout, len: int, so: int, dx: int)
    requires
        frames(a, b, len, so, dx),
        frames(b, c, len, so, dx),
    ensures
        frames(a, c, len, so, dx),
{
    assert forall|x: int| 0 <= x < dx && x <= a.text.len() implies #[trigger] c.display_to_source[x]
        == a.display_to_source[x] by {
        assert(b.display_to_source[x] == a.display_to_source[x]);
    }
    assert forall|o: int| 0 <= o < so && o <= len implies #[trigger] c.source_to_display[o]
        == a.source_to_display[o] by {
        assert(b.source_to_display[o] == a.source_to_display[o]);
    }
}

proof fn lemma_frames_weaken(a: Layout, b: Layout, len: int, so: int, dx: int, so2: int, dx2: int)
    requires
        frames(a, b, len, so, dx),
        so2 <= so,
        dx2 <= dx || dx >= a.text.len() + 1,
    ensures
        frames(a, b, len, so2, dx2),
{
}

proof fn lemma_push_display_frames(l: Layout, f: Seq<u8>, v: int, len: int)
    requires
        well_shaped(l, len),
    ensures
        frames(l, push_display(l, f, v), len, len + 1, (l.text.len() + 1) as int),
{
    lemma_push_display_frame(l, f, v, len);
}

proof fn lemma_push_source_frames(l: Layout, bytes: Seq<u8>, st: int, en: int, len: int)
    requires
        well_shaped(l, len),
        0 <= st <= en <= len,
        bytes.len() == len,
    ensures
        frames(l, push_source(l, bytes, st, en), len, st, (l.text.len() + 1) as int),
        push_source(l, bytes, st, en).text.len() == l.text.len() + en - st,
{
    let r = push_source(l, bytes, st, en);
    assert forall|x: int| 0 <= x < l.text.len() + 1 && x <= l.text.len() implies #[trigger] r.display_to_source[x]
        == l.display_to_source[x] by {}
}

proof fn lemma_fill_source_frames(l: Layout, st: int, en: int, v: int, len: int)
    requires
        well_shaped(l, len),
    ensures
        frames(l, fill_source(l, st, en, v), len, st, (l.text.len() + 1) as int),
        fill_source(l, st, en, v).text == l.text,
        fill_source(l, st, en, v).display_to_source == l.display_to_source,
{
}

proof fn lemma_set_source_frames(l: Layout, o: int, v: int, len: int)
    requires
        well_shaped(l, len),
        0 <= o <= len,
    ensures
        frames(l, set_source(l, o, v), len, o, (l.text.len() + 1) as int),
        set_source(l, o, v).text == l.text,
        set_source(l, o, v).display_to_source == l.display_to_source,
{
}

proof fn lemma_fill_display_frames(l: Layout, from: int, to: int, v: int, len: int)
    requires
        well_shaped(l, len),
    ensures
        frames(l, fill_display(l, from, to, v), len, len + 1, from),
        fill_display(l, from, to, v).text == l.text,
        fill_display(l, from, to, v).source_to_display == l.source_to_display,
{
}

} // verus!

verus! {

proof fn lemma_nbsp_len()
    ensures
        nbsp().len() >= 1,
{
    crate::span::lemma_nbsp_valid();
}

/// The stages of presenting one span.
pub proof fn lemma_head_frames(l: Layout, bytes: Seq<u8>, c: int, s: InputSpan)
    requires
        well_shaped(l, bytes.len() as int),
        is_valid_span(bytes, s),
        0 <= c <= s.range.start,
    ensures
        frames(l, span_head(l, bytes, c, s), bytes.len() as int, c, (l.text.len() + 1) as int),
        span_head(l, bytes, c, s).text.len() >= l.text.len() + s.range.start - c + (nbsp()
            + nbsp()).len(),
        span_head(l, bytes, c, s).spans == l.spans,
{
    let len = bytes.len() as int;
    let a = s.range.start as int;
    let e = s.range.end as int;
    let d = (l.text.len() + 1) as int;
    lemma_nbsp_len();
    let l1 = push_source(l, bytes, c, a);
    lemma_push_source_frames(l, bytes, c, a, len);
    let lf = fill_source(l1, a, e, l1.text.len() as int);
    lemma_fill_source_frames(l1, a, e, l1.text.len() as int, len);
    lemma_frames_weaken(l1, lf, len, a, (l1.text.len() + 1) as int, c, d);
    lemma_frames_trans(l, l1, lf, len, c, d);
    let l2 = push_display(lf, nbsp() + nbsp(), a);
    lemma_push_display_frames(lf, nbsp() + nbsp(), a, len);
    lemma_frames_weaken(lf, l2, len, len + 1, (lf.text.len() + 1) as int, c, d);
    lemma_frames_trans(l, lf, l2, len, c, d);
    let l3 = if s.icon_path is Some {
        let i1 = push_display(l2, nbsp() + nbsp(), a);
        lemma_push_display_frames(l2, nbsp() + nbsp(), a, len);
        lemma_frames_weaken(l2, i1, len, len + 1, (l2.text.len() + 1) as int, c, d);
        lemma_frames_trans(l, l2, i1, len, c, d);
        let i2 = push_display(i1, nbsp(), a);
        lemma_push_display_frames(i1, nbsp(), a, len);
        lemma_frames_weaken(i1, i2, len, len + 1, (i1.text.len() + 1) as int, c, d);
        lemma_frames_trans(l, i1, i2, len, c, d);
        i2
    } else {
        l2
    };
    let l4 = push_display(l3, encode_utf8(s.label@), a);
    lemma_push_display_frames(l3, encode_utf8(s.label@), a, len);
    lemma_frames_weaken(l3, l4, len, len + 1, (l3.text.len() + 1) as int, c, d);
    lemma_frames_trans(l, l3, l4, len, c, d);
    assert(l4 == span_head(l, bytes, c, s));
}

pub proof fn lemma_editable_frames(l: Layout, bytes: Seq<u8>, s: InputSpan)
    requires
        well_shaped(l, bytes.len() as int),
        is_valid_span(bytes, s),
    ensures
        frames(
            l,
            span_editable(l, bytes, s),
            bytes.len() as int,
            s.range.start as int,
            (l.text.len() + 1) as int,
        ),
        span_editable(l, bytes, s).spans == l.spans,
{
    let len = bytes.len() as int;
    let d = (l.text.len() + 1) as int;
    let a = s.range.start as int;
    match s.editable {
        None => {},
        Some(ed) => {
            let es = ed.range.start as int;
            let ee = ed.range.end as int;
            let x = push_display(l, nbsp(), es);
            lemma_push_display_frames(l, nbsp(), es, len);
            lemma_frames_weaken(l, x, len, len + 1, d, a, d);
            let y = set_source(x, es, x.text.len() as int);
            lemma_set_source_frames(x, es, x.text.len() as int, len);
            lemma_frames_weaken(x, y, len, es, (x.text.len() + 1) as int, a, d);
            lemma_frames_trans(l, x, y, len, a, d);
            let z = push_source(y, bytes, es, ee);
            lemma_push_source_frames(y, bytes, es, ee, len);
            lemma_frames_weaken(y, z, len, es, (y.text.len() + 1) as int, a, d);
            lemma_frames_trans(l, y, z, len, a, d);
            let w = push_display(z, nbsp(), ee);
            lemma_push_display_frames(z, nbsp(), ee, len);
            lemma_frames_weaken(z, w, len, len + 1, (z.text.len() + 1) as int, a, d);
            lemma_frames_trans(l, z, w, len, a, d);
        },
    }
}

} // verus!

verus! {

pub proof fn lemma_tail_frames(
    l: Layout,
    len: int,
    s: InputSpan,
    display_start: int,
    icon_range: Option<Range<usize>>,
    editable_display_range: Option<Range<usize>>,
    dx: int,
)
    requires
        well_shaped(l, len),
        0 <= s.range.end <= len,
        dx <= (match editable_display_range {
            Some(r) => r.end as int,
            None => display_start + (l.text.len() + (nbsp() + nbsp()).len() - display_start) / 2,
        }),
    ensures
        frames(
            l,
            span_tail(l, s, display_start, icon_range, editable_display_range),
            len,
            s.range.end as int,
            dx,
        ),
        ({
            let t = span_tail(l, s, display_start, icon_range, editable_display_range);
            t.display_to_source[t.text.len() as int] == s.range.end
        }),
{
    let e = s.range.end as int;
    let l6 = push_display(l, nbsp() + nbsp(), e);
    lemma_push_display_frames(l, nbsp() + nbsp(), e, len);
    lemma_frames_weaken(l, l6, len, len + 1, (l.text.len() + 1) as int, e, dx);
    let de = l6.text.len() as int;
    let l7 = set_source(l6, e, de);
    lemma_set_source_frames(l6, e, de, len);
    lemma_frames_weaken(l6, l7, len, e, (l6.text.len() + 1) as int, e, dx);
    lemma_frames_trans(l, l6, l7, len, e, dx);
    let split = match editable_display_range {
        Some(r) => r.end as int,
        None => display_start + (de - display_start) / 2,
    };
    let l8 = fill_display(l7, split, de, e);
    lemma_fill_display_frames(l7, split, de, e, len);
    lemma_frames_weaken(l7, l8, len, len + 1, split, e, dx);
    lemma_frames_trans(l, l7, l8, len, e, dx);
    let shown = DisplaySpan {
        source_range: s.range,
        display_range: Range { start: display_start as usize, end: de as usize },
        icon_range,
        editable_source_range: match s.editable {
            None => None,
            Some(ed) => Some(ed.range),
        },
        editable_display_range,
    };
    let l9 = Layout { spans: l8.spans.push(shown), ..l8 };
    assert(frames(l8, l9, len, len + 1, (l8.text.len() + 1) as int));
    lemma_frames_weaken(l8, l9, len, len + 1, (l8.text.len() + 1) as int, e, dx);
    lemma_frames_trans(l, l8, l9, len, e, dx);
    let l10 = push_display(l9, nbsp(), e);
    lemma_push_display_frames(l9, nbsp(), e, len);
    lemma_nbsp_len();
    lemma_frames_weaken(l9, l10, len, len + 1, (l9.text.len() + 1) as int, e, dx);
    lemma_frames_trans(l, l9, l10, len, e, dx);
    assert(l10 == span_tail(l, s, display_start, icon_range, editable_display_range));
    assert(l10.display_to_source[l10.text.len() as int] == e as usize);
}

/// Presenting a span leaves earlier source offsets and earlier display
/// offsets as they were, and the display end maps to the span's end.
pub proof fn lemma_present_span_frames(l: Layout, bytes: Seq<u8>, c: int, s: InputSpan)
    requires
        well_shaped(l, bytes.len() as int),
        is_valid_span(bytes, s),
        0 <= c <= s.range.start,
        present_span(l, bytes, c, s).text.len() <= usize::MAX,
    ensures
        frames(l, present_span(l, bytes, c, s), bytes.len() as int, c, (l.text.len() + 1) as int),
        ({
            let p = present_span(l, bytes, c, s);
            p.display_to_source[p.text.len() as int] == s.range.end
        }),
{
    let len = bytes.len() as int;
    let d = (l.text.len() + 1) as int;
    let head = span_head(l, bytes, c, s);
    lemma_head_frames(l, bytes, c, s);
    let body = span_editable(head, bytes, s);
    lemma_editable_frames(head, bytes, s);
    lemma_frames_weaken(head, body, len, s.range.start as int, (head.text.len() + 1) as int, c, d);
    lemma_frames_trans(l, head, body, len, c, d);
    lemma_nbsp_len();
    let display_start = l.text.len() + s.range.start - c;
    let icon_start = display_start + (nbsp() + nbsp()).len();
    let icon_range = if s.icon_path is Some {
        Some(
            Range {
                start: icon_start as usize,
                end: (icon_start + (nbsp() + nbsp()).len()) as usize,
            },
        )
    } else {
        None
    };
    let editable_display_range = match s.editable {
        None => None,
        Some(ed) => Some(Range { start: head.text.len() as usize, end: body.text.len() as usize }),
    };
    assert(span_tail(body, s, display_start, icon_range, editable_display_range).text.len()
        >= body.text.len());
    assert(body.text.len() >= head.text.len() >= d + 1);
    lemma_tail_frames(body, len, s, display_start, icon_range, editable_display_range, d);
    lemma_frames_weaken(
        body,
        span_tail(body, s, display_start, icon_range, editable_display_range),
        len,
        s.range.end as int,
        d,
        c,
        d,
    );
    lemma_frames_trans(
        l,
        body,
        span_tail(body, s, display_start, icon_range, editable_display_range),
        len,
        c,
        d,
    );
}

} // verus!

verus! {

/// After `push_source`, a boundary offset `o` of the pushed range maps to its
/// new display position, and that position maps back to `o`.
pub proof fn lemma_push_source_maps(l: Layout, bytes: Seq<u8>, st: int, en: int, o: int)
    requires
        well_shaped(l, bytes.len() as int),
        valid_utf8(bytes),
        0 <= st <= o <= en <= bytes.len(),
        is_char_boundary(bytes, o),
        o > st || l.display_to_source[l.text.len() as int] == st,
        l.text.len() + en - st <= usize::MAX,
        bytes.len() <= usize::MAX,
    ensures
        ({
            let r = push_source(l, bytes, st, en);
            let d = l.text.len() as int;
            &&& r.source_to_display[o] as int == d + o - st
            &&& r.display_to_source[d + o - st] as int == o
        }),
{
    let r = push_source(l, bytes, st, en);
    let d = l.text.len() as int;
    if o < en {
        is_char_boundary_iff_not_is_continuation_byte(bytes, o);
    }
    if o > st {
        assert(r.display_to_source[d + o - st] == after_source_byte(bytes, en, o - 1));
    }
}

/// After `push_source`, the display end maps to the range end.
pub proof fn lemma_push_source_last(l: Layout, bytes: Seq<u8>, st: int, en: int)
    requires
        well_shaped(l, bytes.len() as int),
        0 <= st <= en <= bytes.len(),
        en > st || l.display_to_source[l.text.len() as int] == st,
        bytes.len() <= usize::MAX,
    ensures
        ({
            let r = push_source(l, bytes, st, en);
            r.display_to_source[r.text.len() as int] == en as usize
        }),
{
    let r = push_source(l, bytes, st, en);
    let d = l.text.len() as int;
    if en > st {
        assert(r.display_to_source[d + en - st] == after_source_byte(bytes, en, en - 1));
    }
}

} // verus!

verus! {

/// `o` lies inside the pill of `s` without being part of its editable value.
pub open spec fn in_pill_interior(s: InputSpan, o: int) -> bool {
    &&& s.range.start < o < s.range.end
    &&& !(s.editable matches Some(ed) && ed.range.start <= o <= ed.range.end)
}

/// Presenting span `s` settles every boundary offset from `c` up to (not
/// including) its end that is not hidden inside the pill: each then survives
/// the round trip.
pub proof fn lemma_present_span_settles(l: Layout, bytes: Seq<u8>, c: int, s: InputSpan, o: int)
    requires
        well_shaped(l, bytes.len() as int),
        valid_utf8(bytes),
        bytes.len() <= usize::MAX,
        is_valid_span(bytes, s),
        0 <= c <= s.range.start,
        l.display_to_source[l.text.len() as int] == c,
        present_span(l, bytes, c, s).text.len() <= usize::MAX,
        c <= o < s.range.end,
        is_char_boundary(bytes, o),
        !in_pill_interior(s, o),
    ensures
        round_trips(present_span(l, bytes, c, s), o),
{
    let len = bytes.len() as int;
    let a = s.range.start as int;
    let e = s.range.end as int;
    let p = present_span(l, bytes, c, s);
    let d = l.text.len() as int;
    lemma_present_span_frames(l, bytes, c, s);
    lemma_nbsp_len();
    // The stages, as `present_span` builds them.
    let l1 = push_source(l, bytes, c, a);
    let ds = l1.text.len() as int;
    lemma_push_source_frames(l, bytes, c, a, len);
    let lf = fill_source(l1, a, e, ds);
    lemma_fill_source_frames(l1, a, e, ds, len);
    let l2 = push_display(lf, nbsp() + nbsp(), a);
    lemma_push_display_frames(lf, nbsp() + nbsp(), a, len);
    let l3 = if s.icon_path is Some {
        let i1 = push_display(l2, nbsp() + nbsp(), a);
        lemma_push_display_frames(l2, nbsp() + nbsp(), a, len);
        lemma_push_display_frames(i1, nbsp(), a, len);
        lemma_frames_trans(l2, i1, push_display(i1, nbsp(), a), len, len + 1, (l2.text.len() + 1) as int);
        push_display(i1, nbsp(), a)
    } else {
        l2
    };
    let head = push_display(l3, encode_utf8(s.label@), a);
    lemma_push_display_frames(l3, encode_utf8(s.label@), a, len);
    assert(head == span_head(l, bytes, c, s));
    let body = span_editable(head, bytes, s);
    lemma_editable_frames(head, bytes, s);
    let display_start = l.text.len() + s.range.start - c;
    let icon_start = display_start + (nbsp() + nbsp()).len();
    let icon_range = if s.icon_path is Some {
        Some(
            Range {
                start: icon_start as usize,
                end: (icon_start + (nbsp() + nbsp()).len()) as usize,
            },
        )
    } else {
        None
    };
    let editable_display_range = match s.editable {
        None => None,
        Some(ed) => Some(Range { start: head.text.len() as usize, end: body.text.len() as usize }),
    };
    assert(p == span_tail(body, s, display_start, icon_range, editable_display_range));
    assert(p.text.len() >= body.text.len() >= head.text.len() >= ds + 1);
    lemma_tail_frames(body, len, s, display_start, icon_range, editable_display_range, ds + 1);
    // From the head's label to the end, source offsets from `a` on and display
    // offsets up to `ds` are untouched... up to the editable stage.
    lemma_frames_trans(l2, l3, head, len, len + 1, (l2.text.len() + 1) as int);
    lemma_frames_weaken(lf, l2, len, len + 1, (lf.text.len() + 1) as int, len + 1, ds + 1);
    lemma_frames_weaken(l2, head, len, len + 1, (l2.text.len() + 1) as int, len + 1, ds + 1);
    lemma_frames_trans(lf, l2, head, len, len + 1, ds + 1);
    if s.editable is Some && s.editable->0.range.start <= o <= s.editable->0.range.end {
        let ed = s.editable->0;
        let es = ed.range.start as int;
        let ee = ed.range.end as int;
        let x = push_display(head, nbsp(), es);
        lemma_push_display_frame(head, nbsp(), es, len);
        let y = set_source(x, es, x.text.len() as int);
        let z = push_source(y, bytes, es, ee);
        let w = push_display(z, nbsp(), ee);
        assert(body == w);
        assert(x.display_to_source[x.text.len() as int] == es);
        lemma_push_source_maps(y, bytes, es, ee, o);
        lemma_push_display_frames(z, nbsp(), ee, len);
        assert(round_trips(w, o));
        lemma_tail_frames(
            body,
            len,
            s,
            display_start,
            icon_range,
            editable_display_range,
            (z.text.len() + 1) as int,
        );
    } else if o == a {
        // The pill start maps back to the span start.
        if c < a {
            lemma_push_source_last(l, bytes, c, a);
        }
        assert(l1.display_to_source[ds] == a);
        assert(lf.source_to_display[a] == ds);
        assert(round_trips(l2, o));
        assert(frames(head, body, len, a + 1, ds + 1)) by {
            match s.editable {
                None => {},
                Some(ed) => {
                    let es = ed.range.start as int;
                    let ee = ed.range.end as int;
                    let x = push_display(head, nbsp(), es);
                    lemma_push_display_frames(head, nbsp(), es, len);
                    let y = set_source(x, es, x.text.len() as int);
                    lemma_set_source_frames(x, es, x.text.len() as int, len);
                    let z = push_source(y, bytes, es, ee);
                    lemma_push_source_frames(y, bytes, es, ee, len);
                    let w = push_display(z, nbsp(), ee);
                    lemma_push_display_frames(z, nbsp(), ee, len);
                    lemma_frames_weaken(head, x, len, len + 1, (head.text.len() + 1) as int, a + 1, ds + 1);
                    lemma_frames_weaken(x, y, len, es, (x.text.len() + 1) as int, a + 1, ds + 1);
                    lemma_frames_weaken(y, z, len, es, (y.text.len() + 1) as int, a + 1, ds + 1);
                    lemma_frames_weaken(z, w, len, len + 1, (z.text.len() + 1) as int, a + 1, ds + 1);
                    lemma_frames_trans(head, x, y, len, a + 1, ds + 1);
                    lemma_frames_trans(head, y, z, len, a + 1, ds + 1);
                    lemma_frames_trans(head, z, w, len, a + 1, ds + 1);
                },
            }
        }
        lemma_frames_weaken(body, p, len, e, ds + 1, a + 1, ds + 1);
        lemma_frames_trans(head, body, p, len, a + 1, ds + 1);
        lemma_frames_weaken(l2, head, len, len + 1, ds + 1, a + 1, ds + 1);
        lemma_frames_trans(l2, head, p, len, a + 1, ds + 1);
    } else {
        // Plain source before the pill.
        assert(o < a);
        lemma_push_source_maps(l, bytes, c, a, o);
        assert(round_trips(l1, o));
        lemma_frames_weaken(lf, head, len, len + 1, ds + 1, a, ds + 1);
        lemma_frames_weaken(head, body, len, a, (head.text.len() + 1) as int, a, ds + 1);
        lemma_frames_trans(lf, head, body, len, a, ds + 1);
        lemma_frames_weaken(body, p, len, e, ds + 1, a, ds + 1);
        lemma_frames_trans(lf, body, p, len, a, ds + 1);
        lemma_frames_weaken(l1, lf, len, a, (l1.text.len() + 1) as int, a, ds + 1);
        lemma_frames_trans(l1, lf, p, len, a, ds + 1);
    }
}

} // verus!

verus! {

/// `o` is outside the pill interiors of the spans `sel` refers to.
pub open spec fn outside_pills(spans: Seq<InputSpan>, sel: Seq<SpanRef>, o: int) -> bool {
    forall|k: int| 0 <= k < sel.len() ==> !in_pill_interior(#[trigger] spans[sel[k].index as int], o)
}

/// The selection facts the presentation relies on.
pub open spec fn well_selected(bytes: Seq<u8>, spans: Seq<InputSpan>, sel: Seq<SpanRef>) -> bool {
    &&& forall|k: int| 0 <= k < sel.len() ==> refers_to_valid(bytes, spans, #[trigger] sel[k])
    &&& forall|k: int| 0 < k < sel.len() ==> sel[k - 1].end <= (#[trigger] sel[k]).start
}

proof fn lemma_well_selected_init(bytes: Seq<u8>, spans: Seq<InputSpan>, sel: Seq<SpanRef>)
    requires
        well_selected(bytes, spans, sel),
        sel.len() > 0,
    ensures
        well_selected(bytes, spans, sel.drop_last()),
{
    let init = sel.drop_last();
    assert forall|k: int| 0 <= k < init.len() implies refers_to_valid(bytes, spans, #[trigger] init[k]) by {
        assert(init[k] == sel[k]);
    }
    assert forall|k: int| 0 < k < init.len() implies init[k - 1].end <= (#[trigger] init[k]).start by {
        assert(init[k] == sel[k]);
        assert(init[k - 1] == sel[k - 1]);
    }
}

proof fn lemma_present_span_grows(l: Layout, bytes: Seq<u8>, c: int, s: InputSpan)
    requires
        0 <= c <= s.range.start <= bytes.len(),
        s.editable matches Some(ed) ==> 0 <= ed.range.start <= ed.range.end <= bytes.len(),
    ensures
        present_span(l, bytes, c, s).text.len() >= l.text.len(),
{
    let head = span_head(l, bytes, c, s);
    assert(head.text.len() >= l.text.len());
    let body = span_editable(head, bytes, s);
    assert(body.text.len() >= head.text.len());
}

/// Every prefix of the presentation keeps its shape, ends mapping to the
/// source offset reached, and settles every anchored offset before it.
pub proof fn lemma_prefix_round_trip(
    bytes: Seq<u8>,
    spans: Seq<InputSpan>,
    sel: Seq<SpanRef>,
    o: int,
)
    requires
        valid_utf8(bytes),
        bytes.len() <= usize::MAX,
        well_selected(bytes, spans, sel),
        present_prefix(bytes, spans, sel).0.text.len() <= usize::MAX,
    ensures
        ({
            let (l, c) = present_prefix(bytes, spans, sel);
            &&& well_shaped(l, bytes.len() as int)
            &&& l.display_to_source[l.text.len() as int] == c
            &&& 0 <= c <= bytes.len()
            &&& is_char_boundary(bytes, c)
            &&& (sel.len() > 0 ==> c == sel.last().end)
            &&& (0 <= o < c && is_char_boundary(bytes, o) && outside_pills(spans, sel, o))
                ==> round_trips(l, o)
        }),
    decreases sel.len(),
{
    let len = bytes.len() as int;
    if sel.len() == 0 {
        let l = initial_layout(bytes);
        assert(l.display_to_source[0] == 0);
    } else {
        let init = sel.drop_last();
        lemma_well_selected_init(bytes, spans, sel);
        let (l0, c0) = present_prefix(bytes, spans, init);
        let r = sel.last();
        assert(refers_to_valid(bytes, spans, sel[sel.len() - 1]));
        let s = spans[r.index as int];
        let p = present_span(l0, bytes, c0, s);
        assert(present_prefix(bytes, spans, sel) == (p, s.range.end as int));
        if init.len() > 0 {
            assert(sel[sel.len() - 2].end <= sel[sel.len() - 1].start);
            assert(init.last() == sel[sel.len() - 2]);
        }
        lemma_present_span_grows(l0, bytes, c0, s);
        lemma_prefix_round_trip(bytes, spans, init, o);
        lemma_present_span_frames(l0, bytes, c0, s);
        lemma_boundary_le_len(bytes, s.range.end as int);
        if 0 <= o < s.range.end && is_char_boundary(bytes, o) && outside_pills(spans, sel, o) {
            assert(!in_pill_interior(spans[sel[sel.len() - 1].index as int], o));
            if o < c0 {
                assert(outside_pills(spans, init, o)) by {
                    assert forall|k: int| 0 <= k < init.len() implies !in_pill_interior(
                        #[trigger] spans[init[k].index as int],
                        o,
                    ) by {
                        assert(init[k] == sel[k]);
                        assert(!in_pill_interior(spans[sel[k].index as int], o));
                    }
                }
                assert(round_trips(l0, o));
            } else {
                lemma_present_span_settles(l0, bytes, c0, s, o);
            }
        }
    }
}

} // verus!

verus! {

/// Law: presenting spans keeps every source offset that no pill hides. An
/// offset on a character boundary that lies outside the pills of the presented
/// spans (or inside an editable value) maps to a display offset within the
/// display text, which maps back to it.
pub proof fn law_source_offsets_round_trip(bytes: Seq<u8>, spans: Seq<InputSpan>, o: int)
    requires
        valid_utf8(bytes),
        bytes.len() <= usize::MAX,
        spans.len() <= usize::MAX,
        presentation(bytes, spans).text.len() <= usize::MAX,
        is_char_boundary(bytes, o),
        outside_pills(spans, selected_spans(bytes, spans), o),
    ensures
        ({
            let l = presentation(bytes, spans);
            &&& lookup(l.source_to_display, o) <= l.text.len()
            &&& lookup(l.display_to_source, lookup(l.source_to_display, o) as int) == o
        }),
{
    lemma_boundary_le_len(bytes, o);
    let len = bytes.len() as int;
    let sel = selected_spans(bytes, spans);
    let l = presentation(bytes, spans);
    if sel.len() == 0 {
        assert(l == identity_layout(bytes));
    } else {
        lemma_selected_spans(bytes, spans);
        let (p, c) = present_prefix(bytes, spans, sel);
        assert(refers_to_valid(bytes, spans, sel[sel.len() - 1]));
        assert(c == spans[sel.last().index as int].range.end);
        assert(0 <= c <= len);
        let r = push_source(p, bytes, c, len);
        assert(r.text.len() == p.text.len() + len - c);
        lemma_prefix_round_trip(bytes, spans, sel, o);
        let f = set_source(r, len, (p.text.len() + len - c) as int);
        assert(l.source_to_display == f.source_to_display);
        assert(l.text == r.text);
        lemma_push_source_frames(p, bytes, c, len, len);
        if o == len {
            assert(l.source_to_display[len] as int == r.text.len());
            assert(l.display_to_source[r.text.len() as int] == len);
        } else if o < c {
            assert(round_trips(p, o));
            assert(r.source_to_display[o] == p.source_to_display[o]);
            let x = p.source_to_display[o] as int;
            assert(r.display_to_source[x] == p.display_to_source[x]);
            assert(l.display_to_source[x] == r.display_to_source[x]);
        } else {
            lemma_push_source_maps(p, bytes, c, len, o);
            let x = p.text.len() + o - c;
            assert(l.display_to_source[x] == r.display_to_source[x]);
        }
    }
}

} // verus!

verus! {

/// `l2` changes the display offset of a source offset only to one at or past
/// the end of `l`'s text.
pub open spec fn writes_above(l: Layout, l2: Layout, len: int) -> bool {
    &&& l2.text.len() >= l.text.len()
    &&& forall|o: int|
        0 <= o <= len ==> #[trigger] l2.source_to_display[o] == l.source_to_display[o]
            || l2.source_to_display[o] >= l.text.len()
}

proof fn lemma_writes_above_trans(a: Layout, b: Layout, c: Layout, len: int)
    requires
        writes_above(a, b, len),
        writes_above(b, c, len),
    ensures
        writes_above(a, c, len),
{
    assert forall|o: int| 0 <= o <= len implies #[trigger] c.source_to_display[o]
        == a.source_to_display[o] || c.source_to_display[o] >= a.text.len() by {
        assert(b.source_to_display[o] == a.source_to_display[o] || b.source_to_display[o]
            >= a.text.len());
        assert(c.source_to_display[o] == b.source_to_display[o] || c.source_to_display[o]
            >= b.text.len());
    }
}

proof fn lemma_push_source_writes_above(l: Layout, bytes: Seq<u8>, st: int, en: int)
    requires
        well_shaped(l, bytes.len() as int),
        0 <= st <= en <= bytes.len(),
        l.text.len() + en - st <= usize::MAX,
    ensures
        writes_above(l, push_source(l, bytes, st, en), bytes.len() as int),
{
}

/// Presenting span `s` writes source offsets only past the text so far (the
/// offset `c` it starts from included), adds the span's record, and leaves the
/// caret at the span's end on the pill's end, before the separating space.
#[verifier::spinoff_prover]
proof fn lemma_present_span_writes_above(l: Layout, bytes: Seq<u8>, c: int, s: InputSpan)
    requires
        well_shaped(l, bytes.len() as int),
        valid_utf8(bytes),
        is_valid_span(bytes, s),
        is_char_boundary(bytes, c),
        0 <= c <= s.range.start,
        present_span(l, bytes, c, s).text.len() <= usize::MAX,
    ensures
        ({
            let p = present_span(l, bytes, c, s);
            &&& writes_above(l, p, bytes.len() as int)
            &&& p.source_to_display[c] >= l.text.len()
            &&& p.spans.len() == l.spans.len() + 1
            &&& forall|k: int| 0 <= k < l.spans.len() ==> #[trigger] p.spans[k] == l.spans[k]
            &&& p.spans.last().source_range == s.range
            &&& l.text.len() <= p.spans.last().display_range.start
            &&& p.spans.last().display_range.start < p.spans.last().display_range.end
            &&& p.source_to_display[s.range.end as int] == p.spans.last().display_range.end
            &&& (p.spans.last().display_range.end as int) < p.text.len()
        }),
{
    let len = bytes.len() as int;
    let a = s.range.start as int;
    let e = s.range.end as int;
    lemma_nbsp_len();
    lemma_present_span_frames(l, bytes, c, s);
    let p = present_span(l, bytes, c, s);
    let l1 = push_source(l, bytes, c, a);
    lemma_push_source_frames(l, bytes, c, a, len);
    if c < a {
        is_char_boundary_iff_not_is_continuation_byte(bytes, c);
    }
    assert(l1.source_to_display[c] as int == l.text.len());
    lemma_head_frames(l, bytes, c, s);
    let head = span_head(l, bytes, c, s);
    let body = span_editable(head, bytes, s);
    lemma_editable_frames(head, bytes, s);
    assert(p.text.len() >= body.text.len() >= head.text.len());
    lemma_push_source_writes_above(l, bytes, c, a);
    let lf = fill_source(l1, a, e, l1.text.len() as int);
    let l2 = push_display(lf, nbsp() + nbsp(), a);
    lemma_push_display_frame(lf, nbsp() + nbsp(), a, len);
    assert(writes_above(l1, l2, len));
    let l3 = if s.icon_path is Some {
        push_display(push_display(l2, nbsp() + nbsp(), a), nbsp(), a)
    } else {
        l2
    };
    assert(l3.source_to_display == l2.source_to_display);
    assert(head.source_to_display == l2.source_to_display);
    assert(writes_above(l1, head, len));
    match s.editable {
        None => {
            assert(body == head);
        },
        Some(ed) => {
            let es = ed.range.start as int;
            let ee = ed.range.end as int;
            let x = push_display(head, nbsp(), es);
            lemma_push_display_frame(head, nbsp(), es, len);
            let y = set_source(x, es, x.text.len() as int);
            assert(writes_above(head, y, len));
            let z = push_source(y, bytes, es, ee);
            lemma_push_source_writes_above(y, bytes, es, ee);
            let w = push_display(z, nbsp(), ee);
            lemma_push_display_frame(z, nbsp(), ee, len);
            assert(body == w);
            lemma_writes_above_trans(head, y, z, len);
            assert(writes_above(head, body, len));
        },
    }
    lemma_writes_above_trans(l1, head, body, len);
    let l6 = push_display(body, nbsp() + nbsp(), e);
    lemma_push_display_frame(body, nbsp() + nbsp(), e, len);
    let de = l6.text.len() as int;
    let l7 = set_source(l6, e, de);
    assert(writes_above(body, l7, len));
    assert(p.source_to_display == l7.source_to_display);
    assert(p.text.len() == de + nbsp().len());
    lemma_writes_above_trans(l1, body, l7, len);
    lemma_writes_above_trans(l, l1, l7, len);
    assert(p.source_to_display[c] == l1.source_to_display[c] || p.source_to_display[c]
        >= l1.text.len());
    assert(p.spans == l.spans.push(p.spans.last()));
}

/// Every prefix of the presentation records one display span per selected
/// span, in order; the caret at the end of each span but the last is drawn
/// past its pill, and that of the last on its pill's end.
#[verifier::spinoff_prover]
proof fn lemma_prefix_spans(bytes: Seq<u8>, spans: Seq<InputSpan>, sel: Seq<SpanRef>)
    requires
        valid_utf8(bytes),
        bytes.len() <= usize::MAX,
        well_selected(bytes, spans, sel),
        present_prefix(bytes, spans, sel).0.text.len() <= usize::MAX,
    ensures
        ({
            let (l, c) = present_prefix(bytes, spans, sel);
            &&& l.spans.len() == sel.len()
            &&& forall|k: int|
                0 <= k < sel.len() ==> (#[trigger] l.spans[k]).source_range
                    == spans[sel[k].index as int].range
            &&& forall|k: int|
                0 <= k < sel.len() ==> ((#[trigger] l.spans[k]).display_range.end as int)
                    < l.text.len()
            &&& forall|k: int|
                0 <= k < sel.len() - 1 ==> (#[trigger] l.spans[k]).display_range.end
                    < l.source_to_display[l.spans[k].source_range.end as int]
            &&& sel.len() > 0 ==> l.source_to_display[c] == l.spans.last().display_range.end
            &&& forall|k: int|
                0 <= k < sel.len() ==> (#[trigger] l.spans[k]).display_range.start
                    < l.spans[k].display_range.end
            &&& forall|k: int|
                0 < k < sel.len() ==> l.spans[k - 1].display_range.end
                    < (#[trigger] l.spans[k]).display_range.start
        }),
    decreases sel.len(),
{
    if sel.len() > 0 {
        let init = sel.drop_last();
        lemma_well_selected_init(bytes, spans, sel);
        let (l0, c0) = present_prefix(bytes, spans, init);
        let r = sel.last();
        assert(refers_to_valid(bytes, spans, sel[sel.len() - 1]));
        let s = spans[r.index as int];
        let p = present_span(l0, bytes, c0, s);
        assert(present_prefix(bytes, spans, sel) == (p, s.range.end as int));
        if init.len() > 0 {
            assert(sel[sel.len() - 2].end <= sel[sel.len() - 1].start);
            assert(init.last() == sel[sel.len() - 2]);
        }
        lemma_present_span_grows(l0, bytes, c0, s);
        lemma_prefix_spans(bytes, spans, init);
        lemma_prefix_round_trip(bytes, spans, init, 0);
        lemma_present_span_writes_above(l0, bytes, c0, s);
        lemma_extend_spans(bytes, spans, sel, l0, c0, p);
    }
}

proof fn lemma_extend_spans(
    bytes: Seq<u8>,
    spans: Seq<InputSpan>,
    sel: Seq<SpanRef>,
    l0: Layout,
    c0: int,
    p: Layout,
)
    requires
        sel.len() > 0,
        well_selected(bytes, spans, sel),
        valid_utf8(bytes),
        well_shaped(l0, bytes.len() as int),
        l0.spans.len() == sel.len() - 1,
        forall|k: int|
            0 <= k < sel.len() - 1 ==> (#[trigger] l0.spans[k]).source_range
                == spans[sel[k].index as int].range,
        forall|k: int|
            0 <= k < sel.len() - 1 ==> ((#[trigger] l0.spans[k]).display_range.end as int)
                < l0.text.len(),
        forall|k: int|
            0 <= k < sel.len() - 2 ==> (#[trigger] l0.spans[k]).display_range.end
                < l0.source_to_display[l0.spans[k].source_range.end as int],
        sel.len() > 1 ==> l0.source_to_display[c0] == l0.spans.last().display_range.end,
        sel.len() > 1 ==> c0 == sel[sel.len() - 2].end,
        writes_above(l0, p, bytes.len() as int),
        p.source_to_display[c0] >= l0.text.len(),
        p.spans.len() == l0.spans.len() + 1,
        forall|k: int| 0 <= k < l0.spans.len() ==> #[trigger] p.spans[k] == l0.spans[k],
        p.spans.last().source_range == spans[sel.last().index as int].range,
        (p.spans.last().display_range.end as int) < p.text.len(),
        forall|k: int|
            0 <= k < sel.len() - 1 ==> (#[trigger] l0.spans[k]).display_range.start
                < l0.spans[k].display_range.end,
        forall|k: int|
            0 < k < sel.len() - 1 ==> l0.spans[k - 1].display_range.end
                < (#[trigger] l0.spans[k]).display_range.start,
        l0.text.len() <= p.spans.last().display_range.start,
        p.spans.last().display_range.start < p.spans.last().display_range.end,
    ensures
        forall|k: int|
            0 <= k < sel.len() ==> (#[trigger] p.spans[k]).display_range.start
                < p.spans[k].display_range.end,
        forall|k: int|
            0 < k < sel.len() ==> p.spans[k - 1].display_range.end
                < (#[trigger] p.spans[k]).display_range.start,
        forall|k: int|
            0 <= k < sel.len() ==> (#[trigger] p.spans[k]).source_range
                == spans[sel[k].index as int].range,
        forall|k: int|
            0 <= k < sel.len() ==> ((#[trigger] p.spans[k]).display_range.end as int)
                < p.text.len(),
        forall|k: int|
            0 <= k < sel.len() - 1 ==> (#[trigger] p.spans[k]).display_range.end
                < p.source_to_display[p.spans[k].source_range.end as int],
{
    let len = bytes.len() as int;
    assert forall|k: int| 0 <= k < sel.len() implies (#[trigger] p.spans[k]).display_range.start
        < p.spans[k].display_range.end by {
        if k < sel.len() - 1 {
            assert(p.spans[k] == l0.spans[k]);
        }
    }
    assert forall|k: int| 0 < k < sel.len() implies p.spans[k - 1].display_range.end
        < (#[trigger] p.spans[k]).display_range.start by {
        assert(p.spans[k - 1] == l0.spans[k - 1]);
        if k < sel.len() - 1 {
            assert(p.spans[k] == l0.spans[k]);
        }
    }
    assert forall|k: int| 0 <= k < sel.len() implies (#[trigger] p.spans[k]).source_range
        == spans[sel[k].index as int].range by {
        if k < sel.len() - 1 {
            assert(p.spans[k] == l0.spans[k]);
        }
    }
    assert forall|k: int| 0 <= k < sel.len() implies ((#[trigger] p.spans[k]).display_range.end
        as int) < p.text.len() by {
        if k < sel.len() - 1 {
            assert(p.spans[k] == l0.spans[k]);
        }
    }
    assert forall|k: int| 0 <= k < sel.len() - 1 implies (#[trigger] p.spans[k]).display_range.end
        < p.source_to_display[p.spans[k].source_range.end as int] by {
        assert(p.spans[k] == l0.spans[k]);
        let e = l0.spans[k].source_range.end as int;
        assert(refers_to_valid(bytes, spans, sel[k]));
        assert(0 <= e <= len);
        if k < sel.len() - 2 {
            assert(l0.spans[k].display_range.end < l0.source_to_display[e]);
            assert(p.source_to_display[e] == l0.source_to_display[e] || p.source_to_display[e]
                >= l0.text.len());
        } else {
            assert(e == c0);
        }
    }
}

} // verus!

verus! {

/// Law: the presentation shows exactly the selected spans: valid ones,
/// without overlap, in source order, one display span each with the source
/// range of the span it shows. Their pills are non-empty, lie inside the
/// display text in the same order without touching, and the caret at the end
/// of a presented span is drawn past its pill.
#[verifier::spinoff_prover]
pub proof fn law_presented_spans(bytes: Seq<u8>, spans: Seq<InputSpan>)
    requires
        valid_utf8(bytes),
        bytes.len() <= usize::MAX,
        spans.len() <= usize::MAX,
        presentation(bytes, spans).text.len() <= usize::MAX,
    ensures
        ({
            let l = presentation(bytes, spans);
            let sel = selected_spans(bytes, spans);
            &&& l.spans.len() == sel.len()
            &&& forall|k: int|
                0 <= k < sel.len() ==> (#[trigger] l.spans[k]).source_range
                    == spans[sel[k].index as int].range
            &&& forall|k: int|
                0 <= k < sel.len() ==> is_valid_span(bytes, #[trigger] spans[sel[k].index as int])
            &&& forall|k: int|
                0 < k < sel.len() ==> l.spans[k - 1].source_range.end
                    <= (#[trigger] l.spans[k]).source_range.start
            &&& forall|k: int|
                0 <= k < sel.len() ==> (#[trigger] l.spans[k]).display_range.end
                    < l.source_to_display[l.spans[k].source_range.end as int]
            &&& forall|k: int|
                0 <= k < sel.len() ==> (#[trigger] l.spans[k]).display_range.start
                    < l.spans[k].display_range.end <= l.text.len()
            &&& forall|k: int|
                0 < k < sel.len() ==> l.spans[k - 1].display_range.end
                    < (#[trigger] l.spans[k]).display_range.start
        }),
{
    let len = bytes.len() as int;
    let sel = selected_spans(bytes, spans);
    let l = presentation(bytes, spans);
    lemma_selected_spans(bytes, spans);
    assert forall|k: int| 0 <= k < sel.len() implies is_valid_span(
        bytes,
        #[trigger] spans[sel[k].index as int],
    ) by {
        assert(refers_to_valid(bytes, spans, sel[k]));
    }
    if sel.len() > 0 {
        let (p, c) = present_prefix(bytes, spans, sel);
        assert(refers_to_valid(bytes, spans, sel[sel.len() - 1]));
        assert(c == spans[sel.last().index as int].range.end);
        let r = push_source(p, bytes, c, len);
        assert(r.text.len() == p.text.len() + len - c);
        lemma_prefix_round_trip(bytes, spans, sel, 0);
        lemma_prefix_spans(bytes, spans, sel);
        lemma_push_source_frames(p, bytes, c, len, len);
        lemma_push_source_writes_above(p, bytes, c, len);
        if c < len {
            is_char_boundary_iff_not_is_continuation_byte(bytes, c);
        }
        assert(r.source_to_display[c] as int == p.text.len());
        assert(l.spans == p.spans);
        assert forall|k: int| 0 < k < sel.len() implies l.spans[k - 1].source_range.end
            <= (#[trigger] l.spans[k]).source_range.start by {
            assert(refers_to_valid(bytes, spans, sel[k]));
            assert(refers_to_valid(bytes, spans, sel[k - 1]));
        }
        assert forall|k: int| 0 <= k < sel.len() implies (#[trigger] l.spans[k]).display_range.end
            < l.source_to_display[l.spans[k].source_range.end as int] by {
            let e = p.spans[k].source_range.end as int;
            assert(refers_to_valid(bytes, spans, sel[k]));
            assert(0 <= e <= len);
            if k < sel.len() - 1 {
                assert(r.source_to_display[e] == p.source_to_display[e] || r.source_to_display[e]
                    >= p.text.len());
            } else {
                assert(e == c);
            }
        }
    }
}

} // verus!

verus! {

/// Law: the presentation maps every source offset `0..=len` to a display
/// offset and every display offset up to the end of the display text back to
/// a source offset, and the end of the display text maps to the end of the
/// source.
pub proof fn law_presentation_shape(bytes: Seq<u8>, spans: Seq<InputSpan>)
    requires
        valid_utf8(bytes),
        bytes.len() <= usize::MAX,
        spans.len() <= usize::MAX,
        presentation(bytes, spans).text.len() <= usize::MAX,
    ensures
        ({
            let l = presentation(bytes, spans);
            &&& l.source_to_display.len() == bytes.len() + 1
            &&& l.display_to_source.len() == l.text.len() + 1
            &&& l.display_to_source[l.text.len() as int] == bytes.len()
            &&& l.source_to_display[bytes.len() as int] == l.text.len()
        }),
{
    let len = bytes.len() as int;
    let sel = selected_spans(bytes, spans);
    if sel.len() > 0 {
        lemma_selected_spans(bytes, spans);
        let (p, c) = present_prefix(bytes, spans, sel);
        assert(refers_to_valid(bytes, spans, sel[sel.len() - 1]));
        assert(c == spans[sel.last().index as int].range.end);
        let r = push_source(p, bytes, c, len);
        assert(r.text.len() == p.text.len() + len - c);
        lemma_prefix_round_trip(bytes, spans, sel, 0);
        lemma_push_source_frames(p, bytes, c, len, len);
    }
}

} // verus!

verus! {

/// The source offsets of `s` never decrease.
pub open spec fn nondecreasing(s: Seq<usize>) -> bool {
    forall|i: int, j: int| 0 <= i <= j < s.len() ==> s[i] <= s[j]
}

proof fn lemma_nondecreasing_from_steps(s: Seq<usize>)
    requires
        forall|i: int| 0 <= i < s.len() - 1 ==> #[trigger] s[i] <= s[i + 1],
    ensures
        nondecreasing(s),
    decreases s.len(),
{
    if s.len() > 1 {
        let init = s.drop_last();
        assert forall|i: int| 0 <= i < init.len() - 1 implies #[trigger] init[i] <= init[i + 1] by {
            assert(init[i] == s[i]);
            assert(init[i + 1] == s[i + 1]);
        }
        lemma_nondecreasing_from_steps(init);
        assert forall|i: int, j: int| 0 <= i <= j < s.len() implies s[i] <= s[j] by {
            if j == s.len() - 1 && i < j {
                assert(init[i] <= init[j - 1]);
                assert(s[j - 1] <= s[j]);
            } else if j < s.len() - 1 {
                assert(init[i] <= init[j]);
            }
        }
    }
}

proof fn lemma_char_start_bounds(bytes: Seq<u8>, st: int, p: int)
    requires
        0 <= st <= p < bytes.len(),
        !is_continuation_byte(bytes[st]),
    ensures
        st <= char_start(bytes, p) <= p,
    decreases p,
{
    if p > st && is_continuation_byte(bytes[p]) {
        lemma_char_start_bounds(bytes, st, p - 1);
    }
}

/// The source offsets `push_source` appends lie in `st..=en` and never
/// decrease.
proof fn lemma_push_source_order(bytes: Seq<u8>, st: int, en: int)
    requires
        valid_utf8(bytes),
        0 <= st < en <= bytes.len(),
        is_char_boundary(bytes, st),
        bytes.len() <= usize::MAX,
    ensures
        ({
            let a = Seq::new((en - st) as nat, |i: int| after_source_byte(bytes, en, st + i));
            &&& nondecreasing(a)
            &&& forall|i: int| 0 <= i < a.len() ==> st <= #[trigger] a[i] <= en
        }),
{
    let a = Seq::new((en - st) as nat, |i: int| after_source_byte(bytes, en, st + i));
    is_char_boundary_iff_not_is_continuation_byte(bytes, st);
    assert forall|i: int| 0 <= i < a.len() implies st <= #[trigger] a[i] <= en by {
        lemma_char_start_bounds(bytes, st, st + i);
    }
    assert forall|i: int| 0 <= i < a.len() - 1 implies #[trigger] a[i] <= a[i + 1] by {
        let p = st + i;
        lemma_char_start_bounds(bytes, st, p);
        lemma_char_start_bounds(bytes, st, p + 1);
        if is_continuation_byte(bytes[p + 1]) {
            assert(char_start(bytes, p + 1) == char_start(bytes, p));
        } else {
            assert(char_start(bytes, p + 1) == p + 1);
        }
    }
    lemma_nondecreasing_from_steps(a);
}

} // verus!

verus! {

/// The source offset that display offset `l.text.len()` maps to.
pub open spec fn last_source(l: Layout) -> int {
    l.display_to_source[l.text.len() as int] as int
}

proof fn lemma_push_display_order(l: Layout, f: Seq<u8>, v: int, len: int)
    requires
        well_shaped(l, len),
        nondecreasing(l.display_to_source),
        last_source(l) <= v,
        0 <= v <= usize::MAX,
    ensures
        nondecreasing(push_display(l, f, v).display_to_source),
        last_source(push_display(l, f, v)) == if f.len() > 0 {
            v
        } else {
            last_source(l)
        },
{
    let r = push_display(l, f, v);
    lemma_push_display_frame(l, f, v, len);
    let n = l.text.len() as int;
    assert forall|i: int, j: int| 0 <= i <= j < r.display_to_source.len() implies r.display_to_source[i]
        <= r.display_to_source[j] by {
        if j <= n {
            assert(l.display_to_source[i] <= l.display_to_source[j]);
        } else if i <= n {
            assert(l.display_to_source[i] <= l.display_to_source[n]);
        }
    }
}

proof fn lemma_push_source_keeps_order(l: Layout, bytes: Seq<u8>, st: int, en: int)
    requires
        well_shaped(l, bytes.len() as int),
        valid_utf8(bytes),
        0 <= st <= en <= bytes.len(),
        is_char_boundary(bytes, st),
        bytes.len() <= usize::MAX,
        nondecreasing(l.display_to_source),
        last_source(l) == st,
    ensures
        nondecreasing(push_source(l, bytes, st, en).display_to_source),
        last_source(push_source(l, bytes, st, en)) == en,
{
    let r = push_source(l, bytes, st, en);
    let n = l.text.len() as int;
    lemma_push_source_last(l, bytes, st, en);
    if st < en {
        lemma_push_source_order(bytes, st, en);
        let a = Seq::new((en - st) as nat, |i: int| after_source_byte(bytes, en, st + i));
        assert(r.display_to_source == l.display_to_source + a);
        assert forall|i: int, j: int| 0 <= i <= j < r.display_to_source.len() implies r.display_to_source[i]
            <= r.display_to_source[j] by {
            if j <= n {
                assert(l.display_to_source[i] <= l.display_to_source[j]);
            } else if i <= n {
                assert(l.display_to_source[i] <= l.display_to_source[n]);
                assert(st <= a[j - n - 1]);
            } else {
                assert(a[i - n - 1] <= a[j - n - 1]);
            }
        }
    } else {
        assert(r.display_to_source =~= l.display_to_source);
    }
}

proof fn lemma_fill_display_order(l: Layout, from: int, v: int, len: int)
    requires
        well_shaped(l, len),
        nondecreasing(l.display_to_source),
        last_source(l) <= v,
        0 <= v <= usize::MAX,
    ensures
        nondecreasing(fill_display(l, from, l.text.len() as int, v).display_to_source),
        last_source(fill_display(l, from, l.text.len() as int, v)) == if from <= l.text.len() {
            v
        } else {
            last_source(l)
        },
{
    let n = l.text.len() as int;
    let r = fill_display(l, from, n, v);
    assert forall|i: int, j: int| 0 <= i <= j < r.display_to_source.len() implies r.display_to_source[i]
        <= r.display_to_source[j] by {
        assert(l.display_to_source[i] <= l.display_to_source[j]);
        assert(l.display_to_source[i] <= l.display_to_source[n]);
    }
}

} // verus!

verus! {

/// Presenting a span keeps the source offsets of the display text in order,
/// and leaves the display end on the span's end.
#[verifier::spinoff_prover]
proof fn lemma_present_span_order(l: Layout, bytes: Seq<u8>, c: int, s: InputSpan)
    requires
        well_shaped(l, bytes.len() as int),
        valid_utf8(bytes),
        bytes.len() <= usize::MAX,
        is_valid_span(bytes, s),
        is_char_boundary(bytes, c),
        0 <= c <= s.range.start,
        nondecreasing(l.display_to_source),
        last_source(l) == c,
        present_span(l, bytes, c, s).text.len() <= usize::MAX,
    ensures
        nondecreasing(present_span(l, bytes, c, s).display_to_source),
        last_source(present_span(l, bytes, c, s)) == s.range.end,
{
    let len = bytes.len() as int;
    let a = s.range.start as int;
    let e = s.range.end as int;
    lemma_nbsp_len();
    lemma_present_span_frames(l, bytes, c, s);
    let p = present_span(l, bytes, c, s);
    let l1 = push_source(l, bytes, c, a);
    lemma_push_source_frames(l, bytes, c, a, len);
    lemma_push_source_keeps_order(l, bytes, c, a);
    let lf = fill_source(l1, a, e, l1.text.len() as int);
    lemma_fill_source_frames(l1, a, e, l1.text.len() as int, len);
    let l2 = push_display(lf, nbsp() + nbsp(), a);
    lemma_push_display_order(lf, nbsp() + nbsp(), a, len);
    lemma_push_display_frame(lf, nbsp() + nbsp(), a, len);
    let l3 = if s.icon_path is Some {
        let i1 = push_display(l2, nbsp() + nbsp(), a);
        lemma_push_display_order(l2, nbsp() + nbsp(), a, len);
        lemma_push_display_frame(l2, nbsp() + nbsp(), a, len);
        lemma_push_display_order(i1, nbsp(), a, len);
        lemma_push_display_frame(i1, nbsp(), a, len);
        push_display(i1, nbsp(), a)
    } else {
        l2
    };
    let head = push_display(l3, encode_utf8(s.label@), a);
    lemma_push_display_order(l3, encode_utf8(s.label@), a, len);
    lemma_push_display_frame(l3, encode_utf8(s.label@), a, len);
    assert(head == span_head(l, bytes, c, s));
    assert(last_source(head) == a);
    let body = span_editable(head, bytes, s);
    match s.editable {
        None => {},
        Some(ed) => {
            let es = ed.range.start as int;
            let ee = ed.range.end as int;
            let x = push_display(head, nbsp(), es);
            lemma_push_display_order(head, nbsp(), es, len);
            lemma_push_display_frame(head, nbsp(), es, len);
            let y = set_source(x, es, x.text.len() as int);
            let z = push_source(y, bytes, es, ee);
            lemma_push_source_keeps_order(y, bytes, es, ee);
            lemma_push_source_frames(y, bytes, es, ee, len);
            let w = push_display(z, nbsp(), ee);
            lemma_push_display_order(z, nbsp(), ee, len);
            assert(body == w);
        },
    }
    lemma_editable_frames(head, bytes, s);
    assert(nondecreasing(body.display_to_source));
    assert(last_source(body) <= e);
    let l6 = push_display(body, nbsp() + nbsp(), e);
    lemma_push_display_order(body, nbsp() + nbsp(), e, len);
    lemma_push_display_frame(body, nbsp() + nbsp(), e, len);
    let de = l6.text.len() as int;
    let l7 = set_source(l6, e, de);
    let display_start = l.text.len() + s.range.start - c;
    let editable_display_range = match s.editable {
        None => None,
        Some(ed) => Some(Range { start: head.text.len() as usize, end: body.text.len() as usize }),
    };
    let split = match editable_display_range {
        Some(r) => r.end as int,
        None => display_start + (de - display_start) / 2,
    };
    let l8 = fill_display(l7, split, de, e);
    lemma_fill_display_order(l7, split, e, len);
    let l9 = Layout { spans: l8.spans.push(p.spans.last()), ..l8 };
    lemma_push_display_order(l9, nbsp(), e, len);
    assert(p.display_to_source == push_display(l9, nbsp(), e).display_to_source);
    assert(p.text == push_display(l9, nbsp(), e).text);
}

} // verus!

verus! {

#[verifier::spinoff_prover]
proof fn lemma_prefix_order(bytes: Seq<u8>, spans: Seq<InputSpan>, sel: Seq<SpanRef>)
    requires
        valid_utf8(bytes),
        bytes.len() <= usize::MAX,
        well_selected(bytes, spans, sel),
        present_prefix(bytes, spans, sel).0.text.len() <= usize::MAX,
    ensures
        nondecreasing(present_prefix(bytes, spans, sel).0.display_to_source),
    decreases sel.len(),
{
    if sel.len() > 0 {
        let init = sel.drop_last();
        lemma_well_selected_init(bytes, spans, sel);
        let (l0, c0) = present_prefix(bytes, spans, init);
        let r = sel.last();
        assert(refers_to_valid(bytes, spans, sel[sel.len() - 1]));
        let s = spans[r.index as int];
        assert(present_prefix(bytes, spans, sel) == (present_span(l0, bytes, c0, s), s.range.end as int));
        if init.len() > 0 {
            assert(sel[sel.len() - 2].end <= sel[sel.len() - 1].start);
            assert(init.last() == sel[sel.len() - 2]);
        }
        lemma_present_span_grows(l0, bytes, c0, s);
        lemma_prefix_round_trip(bytes, spans, init, 0);
        lemma_prefix_order(bytes, spans, init);
        lemma_present_span_order(l0, bytes, c0, s);
    } else {
        let l = initial_layout(bytes);
        assert(l.display_to_source =~= seq![0usize]);
    }
}

/// Law: the source offsets of the display text never decrease, stay within
/// the source, and every display offset at or past the end of the display
/// text maps to the end of the source.
#[verifier::spinoff_prover]
pub proof fn law_source_offsets_in_order(bytes: Seq<u8>, spans: Seq<InputSpan>, d1: int, d2: int)
    requires
        valid_utf8(bytes),
        bytes.len() <= usize::MAX,
        spans.len() <= usize::MAX,
        presentation(bytes, spans).text.len() <= usize::MAX,
        0 <= d1 <= d2,
    ensures
        ({
            let l = presentation(bytes, spans);
            &&& lookup(l.display_to_source, d1) <= lookup(l.display_to_source, d2) <= bytes.len()
            &&& d2 >= l.text.len() ==> lookup(l.display_to_source, d2) == bytes.len()
        }),
{
    let len = bytes.len() as int;
    let sel = selected_spans(bytes, spans);
    let l = presentation(bytes, spans);
    law_presentation_shape(bytes, spans);
    if sel.len() == 0 {
        assert(l == identity_layout(bytes));
    } else {
        lemma_selected_spans(bytes, spans);
        let (p, c) = present_prefix(bytes, spans, sel);
        assert(refers_to_valid(bytes, spans, sel[sel.len() - 1]));
        assert(c == spans[sel.last().index as int].range.end);
        let r = push_source(p, bytes, c, len);
        assert(r.text.len() == p.text.len() + len - c);
        lemma_prefix_round_trip(bytes, spans, sel, 0);
        lemma_prefix_order(bytes, spans, sel);
        lemma_push_source_keeps_order(p, bytes, c, len);
        assert(l.display_to_source =~= r.display_to_source);
    }
    let m = l.display_to_source;
    let n = l.text.len() as int;
    assert(m[n] == len);
    assert(forall|i: int| 0 <= i <= n ==> m[i] <= m[n]);
}

} // verus!

verus! {

/// Every display offset of the pill of a span without an editable value
/// maps to the span's start or its end.
pub open spec fn pill_maps_to_ends(l: Layout, k: int) -> bool {
    let shown = l.spans[k];
    shown.editable_source_range is None ==> forall|d: int|
        shown.display_range.start <= d <= shown.display_range.end ==> #[trigger] l.display_to_source[d]
            == shown.source_range.start || l.display_to_source[d] == shown.source_range.end
}

#[verifier::spinoff_prover]
proof fn lemma_present_span_pill(l: Layout, bytes: Seq<u8>, c: int, s: InputSpan)
    requires
        well_shaped(l, bytes.len() as int),
        valid_utf8(bytes),
        bytes.len() <= usize::MAX,
        is_valid_span(bytes, s),
        is_char_boundary(bytes, c),
        0 <= c <= s.range.start,
        last_source(l) == c,
        present_span(l, bytes, c, s).text.len() <= usize::MAX,
    ensures
        ({
            let p = present_span(l, bytes, c, s);
            &&& p.spans.len() == l.spans.len() + 1
            &&& pill_maps_to_ends(p, l.spans.len() as int)
        }),
{
    let len = bytes.len() as int;
    let a = s.range.start as int;
    let e = s.range.end as int;
    lemma_nbsp_len();
    lemma_present_span_frames(l, bytes, c, s);
    let p = present_span(l, bytes, c, s);
    if s.editable is None {
        let l1 = push_source(l, bytes, c, a);
        lemma_push_source_frames(l, bytes, c, a, len);
        lemma_push_source_last(l, bytes, c, a);
        let ds = l1.text.len() as int;
        let lf = fill_source(l1, a, e, ds);
        let l2 = push_display(lf, nbsp() + nbsp(), a);
        lemma_push_display_frame(lf, nbsp() + nbsp(), a, len);
        let l3 = if s.icon_path is Some {
            let i1 = push_display(l2, nbsp() + nbsp(), a);
            lemma_push_display_frame(l2, nbsp() + nbsp(), a, len);
            lemma_push_display_frame(i1, nbsp(), a, len);
            push_display(i1, nbsp(), a)
        } else {
            l2
        };
        let head = push_display(l3, encode_utf8(s.label@), a);
        lemma_push_display_frame(l3, encode_utf8(s.label@), a, len);
        assert(head == span_head(l, bytes, c, s));
        assert(span_editable(head, bytes, s) == head);
        assert forall|d: int| ds <= d <= head.text.len() implies #[trigger] head.display_to_source[d]
            == a by {
            if d > ds {
                assert(d > lf.text.len());
            }
        }
        let l6 = push_display(head, nbsp() + nbsp(), e);
        lemma_push_display_frame(head, nbsp() + nbsp(), e, len);
        let de = l6.text.len() as int;
        let l7 = set_source(l6, e, de);
        let split = ds + (de - ds) / 2;
        let l8 = fill_display(l7, split, de, e);
        let l9 = Layout { spans: l8.spans.push(p.spans.last()), ..l8 };
        lemma_push_display_frame(l9, nbsp(), e, len);
        assert(p.display_to_source == push_display(l9, nbsp(), e).display_to_source);
        assert(p.spans.last().display_range == Range { start: ds as usize, end: de as usize });
        assert forall|d: int| ds <= d <= de implies #[trigger] p.display_to_source[d] == a
            || p.display_to_source[d] == e by {
            assert(p.display_to_source[d] == l8.display_to_source[d]);
            if d <= head.text.len() && d < split {
                assert(l6.display_to_source[d] == head.display_to_source[d]);
            }
        }
        assert(p.spans[l.spans.len() as int] == p.spans.last());
    }
    lemma_present_span_writes_above(l, bytes, c, s);
}

} // verus!

verus! {

#[verifier::spinoff_prover]
proof fn lemma_prefix_pills(bytes: Seq<u8>, spans: Seq<InputSpan>, sel: Seq<SpanRef>)
    requires
        valid_utf8(bytes),
        bytes.len() <= usize::MAX,
        well_selected(bytes, spans, sel),
        present_prefix(bytes, spans, sel).0.text.len() <= usize::MAX,
    ensures
        forall|k: int|
            0 <= k < sel.len() ==> pill_maps_to_ends(present_prefix(bytes, spans, sel).0, k),
    decreases sel.len(),
{
    if sel.len() > 0 {
        let init = sel.drop_last();
        lemma_well_selected_init(bytes, spans, sel);
        let (l0, c0) = present_prefix(bytes, spans, init);
        let r = sel.last();
        assert(refers_to_valid(bytes, spans, sel[sel.len() - 1]));
        let s = spans[r.index as int];
        let p = present_span(l0, bytes, c0, s);
        assert(present_prefix(bytes, spans, sel) == (p, s.range.end as int));
        if init.len() > 0 {
            assert(sel[sel.len() - 2].end <= sel[sel.len() - 1].start);
            assert(init.last() == sel[sel.len() - 2]);
        }
        lemma_present_span_grows(l0, bytes, c0, s);
        lemma_prefix_round_trip(bytes, spans, init, 0);
        lemma_prefix_spans(bytes, spans, init);
        lemma_prefix_pills(bytes, spans, init);
        lemma_present_span_pill(l0, bytes, c0, s);
        lemma_present_span_writes_above(l0, bytes, c0, s);
        lemma_present_span_frames(l0, bytes, c0, s);
        assert forall|k: int| 0 <= k < sel.len() implies pill_maps_to_ends(p, k) by {
            if k < init.len() {
                assert(p.spans[k] == l0.spans[k]);
                assert(pill_maps_to_ends(l0, k));
                let shown = l0.spans[k];
                assert(shown.display_range.end < l0.text.len());
                assert forall|d: int| shown.display_range.start <= d <= shown.display_range.end
                    implies #[trigger] p.display_to_source[d] == l0.display_to_source[d] by {}
            }
        }
    }
}

/// Law: a pill without an editable value maps every display offset it covers
/// back to the start or the end of its span.
#[verifier::spinoff_prover]
pub proof fn law_plain_pills_map_to_ends(bytes: Seq<u8>, spans: Seq<InputSpan>, k: int, d: int)
    requires
        valid_utf8(bytes),
        bytes.len() <= usize::MAX,
        spans.len() <= usize::MAX,
        presentation(bytes, spans).text.len() <= usize::MAX,
        0 <= k < presentation(bytes, spans).spans.len(),
        presentation(bytes, spans).spans[k].editable_source_range is None,
        presentation(bytes, spans).spans[k].display_range.start <= d
            <= presentation(bytes, spans).spans[k].display_range.end,
    ensures
        ({
            let l = presentation(bytes, spans);
            ||| lookup(l.display_to_source, d) == l.spans[k].source_range.start
            ||| lookup(l.display_to_source, d) == l.spans[k].source_range.end
        }),
{
    let len = bytes.len() as int;
    let sel = selected_spans(bytes, spans);
    let l = presentation(bytes, spans);
    law_presented_spans(bytes, spans);
    law_presentation_shape(bytes, spans);
    if sel.len() > 0 {
        lemma_selected_spans(bytes, spans);
        let (p, c) = present_prefix(bytes, spans, sel);
        assert(refers_to_valid(bytes, spans, sel[sel.len() - 1]));
        assert(c == spans[sel.last().index as int].range.end);
        let r = push_source(p, bytes, c, len);
        assert(r.text.len() == p.text.len() + len - c);
        lemma_prefix_round_trip(bytes, spans, sel, 0);
        lemma_prefix_spans(bytes, spans, sel);
        lemma_prefix_pills(bytes, spans, sel);
        lemma_push_source_frames(p, bytes, c, len, len);
        assert(l.spans == p.spans);
        assert(pill_maps_to_ends(p, k));
        let shown = p.spans[k];
        assert(shown.display_range.end < p.text.len());
        assert(l.display_to_source[d] == p.display_to_source[d]);
    }
}

} // verus!

verus! {

/// The display text of a pill: two no-break spaces, the icon slot (two
/// no-break spaces and a separating one) when the span has an icon, the
/// label, the editable value between single no-break spaces when it has one,
/// and two closing no-break spaces.
pub open spec fn pill_text(bytes: Seq<u8>, s: InputSpan) -> Seq<u8> {
    let icon = if s.icon_path is Some {
        nbsp() + nbsp() + nbsp()
    } else {
        Seq::<u8>::empty()
    };
    let value = match s.editable {
        None => Seq::<u8>::empty(),
        Some(ed) => nbsp() + bytes.subrange(ed.range.start as int, ed.range.end as int) + nbsp(),
    };
    nbsp() + nbsp() + icon + encode_utf8(s.label@) + value + nbsp() + nbsp()
}

/// The display text from source offset `cursor` on, for the spans `sel` still
/// to show: the source up to the next span, its pill and one separating
/// no-break space, and so on; after the last span, the rest of the source.
pub open spec fn text_from(bytes: Seq<u8>, spans: Seq<InputSpan>, sel: Seq<SpanRef>, cursor: int) -> Seq<
    u8,
>
    decreases sel.len(),
{
    if sel.len() == 0 {
        bytes.subrange(cursor, bytes.len() as int)
    } else {
        let s = spans[sel[0].index as int];
        bytes.subrange(cursor, s.range.start as int) + pill_text(bytes, s) + nbsp() + text_from(
            bytes,
            spans,
            sel.drop_first(),
            s.range.end as int,
        )
    }
}

#[verifier::spinoff_prover]
proof fn lemma_present_span_text(l: Layout, bytes: Seq<u8>, c: int, s: InputSpan)
    requires
        is_valid_span(bytes, s),
        0 <= c <= s.range.start,
    ensures
        present_span(l, bytes, c, s).text == l.text + bytes.subrange(c, s.range.start as int)
            + pill_text(bytes, s) + nbsp(),
{
    let a = s.range.start as int;
    let e = s.range.end as int;
    let l1 = push_source(l, bytes, c, a);
    let lf = fill_source(l1, a, e, l1.text.len() as int);
    let l2 = push_display(lf, nbsp() + nbsp(), a);
    let l3 = if s.icon_path is Some {
        push_display(push_display(l2, nbsp() + nbsp(), a), nbsp(), a)
    } else {
        l2
    };
    let head = push_display(l3, encode_utf8(s.label@), a);
    assert(head == span_head(l, bytes, c, s));
    let icon = if s.icon_path is Some {
        nbsp() + nbsp() + nbsp()
    } else {
        Seq::<u8>::empty()
    };
    assert(head.text =~= l.text + bytes.subrange(c, a) + nbsp() + nbsp() + icon + encode_utf8(
        s.label@,
    ));
    let body = span_editable(head, bytes, s);
    let value = match s.editable {
        None => Seq::<u8>::empty(),
        Some(ed) => nbsp() + bytes.subrange(ed.range.start as int, ed.range.end as int) + nbsp(),
    };
    assert(body.text =~= head.text + value);
    let p = present_span(l, bytes, c, s);
    assert(p.text =~= body.text + nbsp() + nbsp() + nbsp());
    assert(p.text =~= l.text + bytes.subrange(c, a) + pill_text(bytes, s) + nbsp());
}

#[verifier::spinoff_prover]
#[verifier::rlimit(40)]
proof fn lemma_prefix_text(bytes: Seq<u8>, spans: Seq<InputSpan>, sel: Seq<SpanRef>, k: int)
    requires
        valid_utf8(bytes),
        well_selected(bytes, spans, sel),
        0 <= k <= sel.len(),
    ensures
        ({
            let (l, c) = present_prefix(bytes, spans, sel.take(k));
            &&& 0 <= c <= bytes.len()
            &&& (k > 0 ==> c == sel[k - 1].end)
            &&& l.text + text_from(bytes, spans, sel.skip(k), c) == text_from(bytes, spans, sel, 0)
        }),
    decreases k,
{
    if k == 0 {
        assert(sel.take(0) =~= Seq::<SpanRef>::empty());
        assert(sel.skip(0) =~= sel);
        let l = initial_layout(bytes);
        assert(l.text + text_from(bytes, spans, sel, 0) =~= text_from(bytes, spans, sel, 0));
    } else {
        lemma_prefix_text(bytes, spans, sel, k - 1);
        let (l0, c0) = present_prefix(bytes, spans, sel.take(k - 1));
        let r = sel[k - 1];
        assert(refers_to_valid(bytes, spans, r));
        let s = spans[r.index as int];
        assert(sel.take(k).drop_last() =~= sel.take(k - 1));
        assert(sel.take(k).last() == r);
        assert(present_prefix(bytes, spans, sel.take(k)) == (present_span(l0, bytes, c0, s), s.range.end as int));
        if k > 1 {
            assert(sel[k - 2].end <= sel[k - 1].start);
        }
        lemma_present_span_text(l0, bytes, c0, s);
        let rest = sel.skip(k - 1);
        assert(rest[0] == r);
        assert(rest.drop_first() =~= sel.skip(k));
        assert(text_from(bytes, spans, rest, c0) == bytes.subrange(c0, s.range.start as int)
            + pill_text(bytes, s) + nbsp() + text_from(bytes, spans, sel.skip(k), s.range.end as int));
        let p = present_span(l0, bytes, c0, s);
        assert(p.text + text_from(bytes, spans, sel.skip(k), s.range.end as int) =~= l0.text
            + text_from(bytes, spans, rest, c0));
    }
}

/// Law: the display text is the source with each presented span's source
/// replaced by its pill and one separating no-break space; the text between
/// pills is the source, byte for byte.
#[verifier::spinoff_prover]
pub proof fn law_display_text(bytes: Seq<u8>, spans: Seq<InputSpan>)
    requires
        valid_utf8(bytes),
        bytes.len() <= usize::MAX,
        spans.len() <= usize::MAX,
    ensures
        presentation(bytes, spans).text == text_from(bytes, spans, selected_spans(bytes, spans), 0),
{
    let len = bytes.len() as int;
    let sel = selected_spans(bytes, spans);
    lemma_selected_spans(bytes, spans);
    if sel.len() == 0 {
        assert(bytes.subrange(0, len) =~= bytes);
    } else {
        lemma_prefix_text(bytes, spans, sel, sel.len() as int);
        assert(sel.take(sel.len() as int) =~= sel);
        assert(sel.skip(sel.len() as int) =~= Seq::<SpanRef>::empty());
        let (p, c) = present_prefix(bytes, spans, sel);
        assert(presentation(bytes, spans).text =~= p.text + bytes.subrange(c, len));
    }
}

} // verus!
