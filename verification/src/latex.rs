//! Scanning Markdown source for LaTeX-style math delimiters: `\(...\)` and
//! `\[...\]`.
use vstd::prelude::*;
use vstd::utf8::*;
use vstd::string::*;
use std::ops::Range;
use crate::sort::StartKey;
use crate::text::{
    is_blank_bytes, lemma_after_ascii_is_boundary, lemma_boundary_le_len, lemma_encode_take_le,
    lemma_ws_counts_le,
    leading_ws, str_get, str_get_ok, str_is_blank, string_from_utf8, substr, trailing_ws, trim_end_len,
    trim_start_len,
};

verus! {

broadcast use {encode_utf8_valid_utf8, is_char_boundary_start_end_of_seq};

/// ASCII backslash.
pub open spec fn is_backslash(b: u8) -> bool {
    b == 92u8
}

/// Number of consecutive backslash bytes that end right before `index`.
pub open spec fn preceding_backslashes(bytes: Seq<u8>, index: int) -> nat
    decreases index,
{
    if index <= 0 || index > bytes.len() {
        0
    } else if is_backslash(bytes[index - 1]) {
        1 + preceding_backslashes(bytes, index - 1)
    } else {
        0
    }
}

/// Whether the byte at `index` is not escaped, i.e. it is preceded by an even
/// number of backslashes.
pub fn is_unescaped_backslash(bytes: &[u8], index: usize) -> (r: bool)
    requires
        index <= bytes@.len(),
    ensures
        r == (preceding_backslashes(bytes@, index as int) % 2 == 0),
{
    let mut i: usize = index;
    while i > 0 && bytes[i - 1] == 92u8
        invariant
            i <= index <= bytes@.len(),
            preceding_backslashes(bytes@, index as int) == (index - i) + preceding_backslashes(
                bytes@,
                i as int,
            ),
        decreases i,
    {
        i = i - 1;
    }
    let count: usize = index - i;
    count % 2 == 0
}

} // verus!

verus! {

/// ASCII `$`.
pub open spec fn is_dollar(b: u8) -> bool {
    b == 36u8
}

/// ASCII line feed.
pub open spec fn is_newline(b: u8) -> bool {
    b == 10u8
}

/// Math contents that cannot be confused with a `$`/`$$` fence once the
/// delimiters are rewritten: non-empty, not starting or ending with `$`, and
/// without `$$` inside.
pub open spec fn is_safe_dollar_fence(c: Seq<u8>) -> bool {
    &&& c.len() > 0
    &&& !is_dollar(c[0])
    &&& !is_dollar(c[c.len() - 1])
    &&& !(exists|i: int| 0 <= i < c.len() - 1 && is_dollar(c[i]) && #[trigger] is_dollar(c[i + 1]))
}

/// Whether `contents` may become the body of a `$$...$$` math node.
pub fn safe_dollar_fence_contents(contents: &str) -> (r: bool)
    ensures
        r == is_safe_dollar_fence(contents.spec_bytes()),
{
    let bytes = contents.as_bytes();
    let n = bytes.len();
    if n == 0 || bytes[0] == 36u8 || bytes[n - 1] == 36u8 {
        return false;
    }
    let mut i: usize = 0;
    while i + 1 < n
        invariant
            n == bytes@.len(),
            bytes@ == contents.spec_bytes(),
            0 <= i < n,
            forall|j: int| 0 <= j < i ==> !(is_dollar(bytes@[j]) && #[trigger] is_dollar(bytes@[j + 1])),
        decreases n - i,
    {
        if bytes[i] == 36u8 && bytes[i + 1] == 36u8 {
            assert(is_dollar(bytes@[i as int]) && is_dollar(bytes@[i + 1]));
            return false;
        }
        i = i + 1;
    }
    assert forall|j: int| 0 <= j < n - 1 && is_dollar(bytes@[j]) implies !#[trigger] is_dollar(
        bytes@[j + 1],
    ) by {}
    true
}

/// Start of the line that contains `index`: just past the previous newline.
pub open spec fn line_start_of(bytes: Seq<u8>, index: int) -> int
    decreases index,
{
    if index <= 0 {
        0
    } else if is_newline(bytes[index - 1]) {
        index
    } else {
        line_start_of(bytes, index - 1)
    }
}

/// End of the line that contains `index`: the next newline, or the end.
pub open spec fn line_end_of(bytes: Seq<u8>, index: int) -> int
    decreases bytes.len() - index,
{
    if index >= bytes.len() {
        bytes.len() as int
    } else if is_newline(bytes[index]) {
        index
    } else {
        line_end_of(bytes, index + 1)
    }
}

pub proof fn lemma_line_end_bounds(bytes: Seq<u8>, index: int)
    requires
        0 <= index <= bytes.len(),
    ensures
        index <= line_end_of(bytes, index) <= bytes.len(),
        line_end_of(bytes, index) < bytes.len() ==> is_newline(bytes[line_end_of(bytes, index)]),
        forall|k: int| index <= k < line_end_of(bytes, index) ==> !is_newline(#[trigger] bytes[k]),
    decreases bytes.len() - index,
{
    if index < bytes.len() && !is_newline(bytes[index]) {
        lemma_line_end_bounds(bytes, index + 1);
    }
}

/// Byte offset of the end of the line containing `index` (the next `\n`, or
/// the end of `source`).
pub fn line_end(source: &str, index: usize) -> (r: usize)
    requires
        index <= source.spec_bytes().len(),
    ensures
        r == line_end_of(source.spec_bytes(), index as int),
{
    let bytes = source.as_bytes();
    let mut i: usize = index;
    while i < bytes.len() && bytes[i] != 10u8
        invariant
            bytes@ == source.spec_bytes(),
            index <= i <= bytes@.len(),
            line_end_of(bytes@, index as int) == line_end_of(bytes@, i as int),
        decreases bytes@.len() - i,
    {
        i = i + 1;
    }
    i
}

/// Whether everything between the start of the line and `index` is whitespace.
pub fn line_prefix_is_whitespace(source: &str, index: usize) -> (r: bool)
    requires
        is_char_boundary(source.spec_bytes(), index as int),
    ensures
        r == is_blank_bytes(
            source.spec_bytes(),
            line_start_of(source.spec_bytes(), index as int),
            index as int,
        ),
{
    let bytes = source.as_bytes();
    proof {
        lemma_boundary_le_len(bytes@, index as int);
    }
    let mut start: usize = index;
    while start > 0 && bytes[start - 1] != 10u8
        invariant
            bytes@ == source.spec_bytes(),
            start <= index <= bytes@.len(),
            line_start_of(bytes@, index as int) == line_start_of(bytes@, start as int),
        decreases start,
    {
        start = start - 1;
    }
    proof {
        if start > 0 {
            lemma_after_ascii_is_boundary(bytes@, start - 1);
        }
    }
    str_is_blank(substr(source, start, index))
}

} // verus!

verus! {

/// How a LaTeX math candidate is rendered.
#[derive(Clone, Copy, Debug, PartialEq, Eq)]
pub enum LatexMathMode {
    Inline,
    Display,
}

/// A source range delimited by `\(...\)` or `\[...\]` that may be rewritten
/// to `$$...$$` for parsing.
#[derive(Debug, PartialEq, Eq)]
pub struct LatexMathCandidate {
    pub range: Range<usize>,
    pub mode: LatexMathMode,
}

impl Clone for LatexMathCandidate {
    fn clone(&self) -> (r: Self)
        ensures
            r == *self,
    {
        LatexMathCandidate { range: self.range.start..self.range.end, mode: self.mode }
    }
}

pub open spec fn candidate(start: int, end: int, mode: LatexMathMode) -> LatexMathCandidate {
    LatexMathCandidate { range: Range { start: start as usize, end: end as usize }, mode }
}

/// `bytes[i..i + 2]` is an unescaped two-byte delimiter `\` followed by `second`.
pub open spec fn is_delimiter_at(bytes: Seq<u8>, i: int, second: u8) -> bool {
    &&& 0 <= i
    &&& i + 1 < bytes.len()
    &&& is_backslash(bytes[i])
    &&& bytes[i + 1] == second
    &&& preceding_backslashes(bytes, i) % 2 == 0
}

/// First unescaped `\)` that starts at or after `close` and ends before `end`.
pub open spec fn find_inline_close(bytes: Seq<u8>, close: int, end: int) -> Option<int>
    decreases end - close,
{
    if close + 1 >= end {
        None
    } else if is_delimiter_at(bytes, close, 41u8) {
        Some(close)
    } else {
        find_inline_close(bytes, close + 1, end)
    }
}

pub proof fn lemma_find_inline_close(bytes: Seq<u8>, close: int, end: int)
    ensures
        find_inline_close(bytes, close, end) matches Some(c) ==> close <= c && c + 1 < end
            && is_delimiter_at(bytes, c, 41u8),
    decreases end - close,
{
    if close + 1 < end && !is_delimiter_at(bytes, close, 41u8) {
        lemma_find_inline_close(bytes, close + 1, end);
    }
}

/// The inline candidates `\(...\)` found by scanning `bytes[cursor..end]`
/// left to right; scanning stops at the first opener without a closer.
pub open spec fn inline_candidates(bytes: Seq<u8>, cursor: int, end: int) -> Seq<
    LatexMathCandidate,
>
    decreases end - cursor,
{
    if cursor + 1 >= end {
        seq![]
    } else if !is_delimiter_at(bytes, cursor, 40u8) {
        inline_candidates(bytes, cursor + 1, end)
    } else {
        match find_inline_close(bytes, cursor + 2, end) {
            None => seq![],
            Some(close) => {
                proof {
                    lemma_find_inline_close(bytes, cursor + 2, end);
                }
                let found = if is_safe_dollar_fence(bytes.subrange(cursor + 2, close)) {
                    seq![candidate(cursor, close + 2, LatexMathMode::Inline)]
                } else {
                    seq![]
                };
                found + inline_candidates(bytes, close + 2, end)
            },
        }
    }
}

/// Position of the first unescaped `\\)` in `bytes[from..end]`.
fn find_inline_closer(bytes: &[u8], from: usize, end: usize) -> (r: Option<usize>)
    requires
        end <= bytes@.len(),
    ensures
        r == (match find_inline_close(bytes@, from as int, end as int) {
            Some(c) => Some(c as usize),
            None => None::<usize>,
        }),
{
    let mut close = from;
    while close < end && close + 1 < end
        invariant
            end <= bytes@.len(),
            from <= close,
            find_inline_close(bytes@, from as int, end as int) == find_inline_close(
                bytes@,
                close as int,
                end as int,
            ),
        decreases end - close,
    {
        if bytes[close] == 92u8 && bytes[close + 1] == 41u8 && is_unescaped_backslash(bytes, close) {
            return Some(close);
        }
        close = close + 1;
    }
    None
}

/// Append to `candidates` the inline math candidates of `source[range]`.
pub fn collect_inline_candidates(
    source: &str,
    range: Range<usize>,
    candidates: &mut Vec<LatexMathCandidate>,
)
    requires
        range.end <= source.spec_bytes().len(),
    ensures
        final(candidates)@ == old(candidates)@ + inline_candidates(
            source.spec_bytes(),
            range.start as int,
            range.end as int,
        ),
{
    let bytes = source.as_bytes();
    let end = range.end;
    let mut cursor = range.start;
    while cursor < end && cursor + 1 < end
        invariant
            bytes@ == source.spec_bytes(),
            end <= bytes@.len(),
            cursor <= range.start || cursor <= end,
            candidates@ + inline_candidates(bytes@, cursor as int, end as int) == old(
                candidates,
            )@ + inline_candidates(bytes@, range.start as int, end as int),
        ensures
            candidates@ == old(candidates)@ + inline_candidates(
                bytes@,
                range.start as int,
                end as int,
            ),
        decreases end - cursor,
    {
        assert(candidates@ + inline_candidates(bytes@, cursor as int, end as int) == old(
            candidates,
        )@ + inline_candidates(bytes@, range.start as int, end as int));
        if bytes[cursor] != 92u8 || bytes[cursor + 1] != 40u8 || !is_unescaped_backslash(
            bytes,
            cursor,
        ) {
            cursor = cursor + 1;
            continue;
        }
        let close = match find_inline_closer(bytes, cursor + 2, end) {
            Some(c) => c,
            None => {
                assert(candidates@ + inline_candidates(bytes@, cursor as int, end as int)
                    =~= candidates@);
                break;
            },
        };
        proof {
            lemma_find_inline_close(bytes@, cursor + 2, end as int);
        }
        proof {
            lemma_after_ascii_is_boundary(bytes@, cursor + 1);
            lemma_after_ascii_is_boundary(bytes@, close as int);
        }
        let ghost before = candidates@;
        if safe_dollar_fence_contents(substr(source, cursor + 2, close)) {
            candidates.push(
                LatexMathCandidate { range: cursor..close + 2, mode: LatexMathMode::Inline },
            );
        }
        assert(candidates@ + inline_candidates(bytes@, close + 2, end as int) =~= before
            + inline_candidates(bytes@, cursor as int, end as int));
        cursor = close + 2;
    }
}

} // verus!

verus! {

/// Some protected range contains offset `i`.
pub open spec fn covers(protected: Seq<Range<usize>>, i: int) -> bool {
    exists|k: int|
        0 <= k < protected.len() && (#[trigger] protected[k]).start <= i && i < protected[k].end
}

/// Some protected range intersects `start..end`.
pub open spec fn overlaps(protected: Seq<Range<usize>>, start: int, end: int) -> bool {
    exists|k: int|
        0 <= k < protected.len() && (#[trigger] protected[k]).start < end && protected[k].end
            > start
}

/// Whether any range of `protected` contains `offset`.
pub fn covers_offset(protected: &[Range<usize>], offset: usize) -> (r: bool)
    ensures
        r == covers(protected@, offset as int),
{
    let mut k: usize = 0;
    while k < protected.len()
        invariant
            k <= protected@.len(),
            forall|j: int|
                0 <= j < k ==> !((#[trigger] protected@[j]).start <= offset && offset
                    < protected@[j].end),
        decreases protected@.len() - k,
    {
        if protected[k].start <= offset && offset < protected[k].end {
            return true;
        }
        k = k + 1;
    }
    false
}

/// Whether any range of `protected` intersects `start..end`.
pub fn overlaps_range(protected: &[Range<usize>], start: usize, end: usize) -> (r: bool)
    ensures
        r == overlaps(protected@, start as int, end as int),
{
    let mut k: usize = 0;
    while k < protected.len()
        invariant
            k <= protected@.len(),
            forall|j: int|
                0 <= j < k ==> !((#[trigger] protected@[j]).start < end && protected@[j].end
                    > start),
        decreases protected@.len() - k,
    {
        if protected[k].start < end && protected[k].end > start {
            return true;
        }
        k = k + 1;
    }
    false
}

/// `\]` at `close` ends the display block opened by `\[` at `open`: either on
/// the opener's line with nothing after it, or on a later line that holds
/// nothing else while the opener also stands alone on its line.
pub open spec fn closes_display(bytes: Seq<u8>, open: int, close: int) -> bool {
    let open_line_end = line_end_of(bytes, open);
    &&& is_delimiter_at(bytes, close, 93u8)
    &&& if close < open_line_end {
        is_blank_bytes(bytes, close + 2, open_line_end)
    } else {
        &&& is_blank_bytes(bytes, open + 2, open_line_end)
        &&& is_blank_bytes(bytes, line_start_of(bytes, close), close)
        &&& is_blank_bytes(bytes, close + 2, line_end_of(bytes, close))
    }
}

/// First position at or after `close` where `\]` closes the block opened at `open`.
pub open spec fn find_display_close(bytes: Seq<u8>, open: int, close: int) -> Option<int>
    decreases bytes.len() - close,
{
    if close + 1 >= bytes.len() {
        None
    } else if closes_display(bytes, open, close) {
        Some(close)
    } else {
        find_display_close(bytes, open, close + 1)
    }
}

pub proof fn lemma_find_display_close(bytes: Seq<u8>, open: int, close: int)
    ensures
        find_display_close(bytes, open, close) matches Some(c) ==> close <= c && c + 1
            < bytes.len() && closes_display(bytes, open, c),
    decreases bytes.len() - close,
{
    if close + 1 < bytes.len() && !closes_display(bytes, open, close) {
        lemma_find_display_close(bytes, open, close + 1);
    }
}

/// `\[` at `i` may open a display block: unescaped, only whitespace before it
/// on its line, and outside every protected range.
pub open spec fn opens_display(bytes: Seq<u8>, protected: Seq<Range<usize>>, i: int) -> bool {
    &&& is_delimiter_at(bytes, i, 91u8)
    &&& is_blank_bytes(bytes, line_start_of(bytes, i), i)
    &&& !covers(protected, i)
}

/// The display candidates `\[...\]` found by scanning `bytes` from `cursor`.
pub open spec fn display_candidates(
    bytes: Seq<u8>,
    protected: Seq<Range<usize>>,
    cursor: int,
) -> Seq<LatexMathCandidate>
    decreases bytes.len() - cursor,
{
    if cursor < 0 || cursor + 1 >= bytes.len() {
        seq![]
    } else if !opens_display(bytes, protected, cursor) {
        display_candidates(bytes, protected, cursor + 1)
    } else {
        match find_display_close(bytes, cursor, cursor + 2) {
            None => display_candidates(bytes, protected, cursor + 2),
            Some(close) => {
                proof {
                    lemma_find_display_close(bytes, cursor, cursor + 2);
                }
                let found = if !overlaps(protected, cursor, close + 2) && is_safe_dollar_fence(
                    bytes.subrange(cursor + 2, close),
                ) {
                    seq![candidate(cursor, close + 2, LatexMathMode::Display)]
                } else {
                    seq![]
                };
                found + display_candidates(bytes, protected, close + 2)
            },
        }
    }
}

/// Whether the `\]` at `close` closes the block opened at `open`.
fn is_display_closer(
    source: &str,
    open: usize,
    open_line_end: usize,
    opener_occupies_line: bool,
    close: usize,
) -> (r: bool)
    requires
        open + 2 <= open_line_end,
        open_line_end == line_end_of(source.spec_bytes(), open as int),
        opener_occupies_line == is_blank_bytes(
            source.spec_bytes(),
            open as int + 2,
            open_line_end as int,
        ),
        close + 1 < source.spec_bytes().len(),
    ensures
        r == closes_display(source.spec_bytes(), open as int, close as int),
{
    let bytes = source.as_bytes();
    if !(bytes[close] == 92u8 && bytes[close + 1] == 93u8 && is_unescaped_backslash(bytes, close)) {
        return false;
    }
    proof {
        lemma_after_ascii_is_boundary(bytes@, close as int);
        lemma_after_ascii_is_boundary(bytes@, close + 1);
        lemma_line_end_bounds(bytes@, close + 2);
        lemma_line_end_bounds(bytes@, open as int);
        assert(line_end_of(bytes@, close + 1) == line_end_of(bytes@, close + 2));
        assert(line_end_of(bytes@, close as int) == line_end_of(bytes@, close + 2));
    }
    let close_line_end = line_end(source, close);
    let same_line = close < open_line_end;
    let standalone_close = line_prefix_is_whitespace(source, close) && {
        proof {
            lemma_line_end_is_boundary(bytes@, close as int);
        }
        str_is_blank(substr(source, close + 2, close_line_end))
    };
    let standalone_same_line = same_line && {
        proof {
            lemma_line_end_is_boundary(bytes@, open as int);
            assert(close + 2 <= open_line_end) by {
                if close + 2 > open_line_end {
                    assert(close + 1 == open_line_end);
                    assert(is_newline(bytes@[close + 1]));
                }
            }
        }
        str_is_blank(substr(source, close + 2, open_line_end))
    };
    standalone_same_line || (!same_line && opener_occupies_line && standalone_close)
}

/// Line ends are character boundaries.
pub proof fn lemma_line_end_is_boundary(bytes: Seq<u8>, index: int)
    requires
        valid_utf8(bytes),
        0 <= index <= bytes.len(),
    ensures
        is_char_boundary(bytes, line_end_of(bytes, index)),
    decreases bytes.len() - index,
{
    if index < bytes.len() {
        if is_newline(bytes[index]) {
            lemma_after_ascii_is_boundary(bytes, index);
        } else {
            lemma_line_end_is_boundary(bytes, index + 1);
        }
    }
}

} // verus!

verus! {

/// First `\]` at or after `from` that closes the block opened at `open`.
fn find_display_closer(
    source: &str,
    open: usize,
    open_line_end: usize,
    opener_occupies_line: bool,
    from: usize,
) -> (r: Option<usize>)
    requires
        open + 2 <= open_line_end,
        open_line_end == line_end_of(source.spec_bytes(), open as int),
        opener_occupies_line == is_blank_bytes(
            source.spec_bytes(),
            open as int + 2,
            open_line_end as int,
        ),
        from <= source.spec_bytes().len(),
    ensures
        r == (match find_display_close(source.spec_bytes(), open as int, from as int) {
            Some(c) => Some(c as usize),
            None => None::<usize>,
        }),
{
    let n = source.as_bytes().len();
    let mut close = from;
    while close < n && close + 1 < n
        invariant
            n == source.spec_bytes().len(),
            from <= close <= n,
            open + 2 <= open_line_end,
            open_line_end == line_end_of(source.spec_bytes(), open as int),
            opener_occupies_line == is_blank_bytes(
                source.spec_bytes(),
                open as int + 2,
                open_line_end as int,
            ),
            find_display_close(source.spec_bytes(), open as int, from as int)
                == find_display_close(source.spec_bytes(), open as int, close as int),
        decreases n - close,
    {
        if is_display_closer(source, open, open_line_end, opener_occupies_line, close) {
            return Some(close);
        }
        close = close + 1;
    }
    None
}

/// Append to `candidates` every `\[...\]` display block of `source` whose
/// opener is not inside a `protected` range.
pub fn collect_display_candidates(
    source: &str,
    protected: &[Range<usize>],
    candidates: &mut Vec<LatexMathCandidate>,
)
    ensures
        final(candidates)@ == old(candidates)@ + display_candidates(
            source.spec_bytes(),
            protected@,
            0,
        ),
{
    let bytes = source.as_bytes();
    let n = bytes.len();
    let mut cursor: usize = 0;
    while cursor < n && cursor + 1 < n
        invariant
            bytes@ == source.spec_bytes(),
            n == bytes@.len(),
            cursor <= n,
            candidates@ + display_candidates(bytes@, protected@, cursor as int) == old(
                candidates,
            )@ + display_candidates(bytes@, protected@, 0),
        decreases n - cursor,
    {
        let ghost before = candidates@;
        if bytes[cursor] != 92u8 || bytes[cursor + 1] != 91u8 || !is_unescaped_backslash(
            bytes,
            cursor,
        ) || !{
            proof {
                lemma_after_ascii_is_boundary(bytes@, cursor as int);
            }
            line_prefix_is_whitespace(source, cursor)
        } || covers_offset(protected, cursor) {
            cursor = cursor + 1;
            continue;
        }
        let open = cursor;
        proof {
            lemma_after_ascii_is_boundary(bytes@, open + 1);
            lemma_line_end_bounds(bytes@, open + 2);
            assert(line_end_of(bytes@, open + 1) == line_end_of(bytes@, open + 2));
            assert(line_end_of(bytes@, open as int) == line_end_of(bytes@, open + 2));
        }
        let open_line_end = line_end(source, open);
        let opener_occupies_line = {
            proof {
                lemma_line_end_is_boundary(bytes@, open as int);
            }
            str_is_blank(substr(source, open + 2, open_line_end))
        };
        let matched = find_display_closer(
            source,
            open,
            open_line_end,
            opener_occupies_line,
            open + 2,
        );
        let close = match matched {
            Some(c) => c,
            None => {
                cursor = open + 2;
                continue;
            },
        };
        proof {
            lemma_find_display_close(bytes@, open as int, open + 2);
            lemma_after_ascii_is_boundary(bytes@, close as int);
        }
        if !overlaps_range(protected, open, close + 2) && safe_dollar_fence_contents(
            substr(source, open + 2, close),
        ) {
            candidates.push(
                LatexMathCandidate { range: open..close + 2, mode: LatexMathMode::Display },
            );
        }
        assert(candidates@ + display_candidates(bytes@, protected@, close + 2) =~= before
            + display_candidates(bytes@, protected@, cursor as int));
        cursor = close + 2;
    }
    assert(display_candidates(bytes@, protected@, cursor as int) =~= seq![]);
    assert(candidates@ =~= candidates@ + display_candidates(bytes@, protected@, cursor as int));
}

} // verus!

verus! {

/// The display candidate made by a container whose trimmed source is a
/// single `\[...\]` block, if there is one.
pub open spec fn standalone_display(
    bytes: Seq<u8>,
    container: Range<usize>,
    protected: Seq<Range<usize>>,
) -> Option<LatexMathCandidate> {
    let a = container.start as int;
    let c = container.end as int;
    if !str_get_ok(bytes, a, c) {
        None
    } else {
        let chars = decode_utf8(bytes.subrange(a, c));
        let start = a + encode_utf8(chars.take(leading_ws(chars) as int)).len();
        let end = a + encode_utf8(chars.take(chars.len() - trailing_ws(chars))).len();
        if str_get_ok(bytes, start, end) && end - start > 4 && is_backslash(bytes[start])
            && bytes[start + 1] == 91u8 && is_backslash(bytes[end - 2]) && bytes[end - 1] == 93u8
            && preceding_backslashes(bytes, start) % 2 == 0 && preceding_backslashes(bytes, end - 2)
            % 2 == 0 && !overlaps(protected, start, end) && str_get_ok(bytes, start + 2, end - 2)
            && is_safe_dollar_fence(bytes.subrange(start + 2, end - 2)) {
            Some(candidate(start, end, LatexMathMode::Display))
        } else {
            None
        }
    }
}

/// The display candidate for `container` when its whole trimmed text is one
/// `\[...\]` block outside the protected ranges.
pub fn standalone_display_candidate(
    source: &str,
    container: &Range<usize>,
    protected: &[Range<usize>],
) -> (r: Option<LatexMathCandidate>)
    ensures
        r == standalone_display(source.spec_bytes(), *container, protected@),
{
    let bytes = source.as_bytes();
    let container_source = match str_get(source, container.start, container.end) {
        Some(t) => t,
        None => return None,
    };
    let ghost chars = container_source@;
    proof {
        lemma_ws_counts_le(chars);
        lemma_encode_take_le(chars, leading_ws(chars) as int);
        lemma_encode_take_le(chars, chars.len() - trailing_ws(chars));
        lemma_boundary_le_len(bytes@, container.end as int);
    }
    let trimmed_start = trim_start_len(container_source);
    let trimmed_end = trim_end_len(container_source);
    let start = container.start + trimmed_start;
    let end = container.start + trimmed_end;
    let candidate_source = match str_get(source, start, end) {
        Some(t) => t,
        None => return None,
    };
    let cbytes = candidate_source.as_bytes();
    let n = cbytes.len();
    if !(n >= 2 && cbytes[0] == 92u8 && cbytes[1] == 91u8) || !(n >= 2 && cbytes[n - 2] == 92u8
        && cbytes[n - 1] == 93u8) || n <= 4 || !is_unescaped_backslash(bytes, start)
        || !is_unescaped_backslash(bytes, end - 2) || overlaps_range(protected, start, end) {
        return None;
    }
    let inner = match str_get(source, start + 2, end - 2) {
        Some(t) => t,
        None => return None,
    };
    if !safe_dollar_fence_contents(inner) {
        return None;
    }
    Some(LatexMathCandidate { range: start..end, mode: LatexMathMode::Display })
}

} // verus!

verus! {

/// One of the two delimiter bytes at either end of a candidate.
pub open spec fn is_delimiter_byte(candidates: Seq<LatexMathCandidate>, i: int) -> bool {
    exists|k: int|
        0 <= k < candidates.len() && {
            let r = (#[trigger] candidates[k]).range;
            ||| i == r.start as int
            ||| i == r.start + 1
            ||| i == r.end - 2
            ||| i == r.end - 1
        }
}

/// `bytes` with every candidate's opening and closing delimiter replaced by `$$`.
pub open spec fn normalized_bytes(bytes: Seq<u8>, candidates: Seq<LatexMathCandidate>) -> Seq<
    u8,
> {
    Seq::new(
        bytes.len(),
        |i: int|
            if is_delimiter_byte(candidates, i) {
                36u8
            } else {
                bytes[i]
            },
    )
}

/// The delimiters of every candidate lie inside `len` bytes.
pub open spec fn candidates_in_bounds(candidates: Seq<LatexMathCandidate>, len: int) -> bool {
    forall|k: int|
        0 <= k < candidates.len() ==> (#[trigger] candidates[k]).range.start + 2 <= len && 2
            <= candidates[k].range.end <= len
}

/// A parsing copy of `source` in which every candidate's `\(`/`\[` and
/// `\)`/`\]` become `$$`, so that byte offsets are unchanged.
pub fn normalize_latex_math_candidates(
    source: &str,
    candidates: &[LatexMathCandidate],
) -> (r: String)
    requires
        candidates_in_bounds(candidates@, source.spec_bytes().len() as int),
        valid_utf8(normalized_bytes(source.spec_bytes(), candidates@)),
    ensures
        r@ == decode_utf8(normalized_bytes(source.spec_bytes(), candidates@)),
{
    let mut normalized = vstd::slice::slice_to_vec(source.as_bytes());
    let ghost bytes = source.spec_bytes();
    let mut k: usize = 0;
    while k < candidates.len()
        invariant
            k <= candidates@.len(),
            candidates_in_bounds(candidates@, bytes.len() as int),
            normalized@.len() == bytes.len(),
            forall|i: int|
                0 <= i < bytes.len() ==> #[trigger] normalized@[i] == if is_delimiter_byte(
                    candidates@.take(k as int),
                    i,
                ) {
                    36u8
                } else {
                    bytes[i]
                },
        decreases candidates@.len() - k,
    {
        let r = &candidates[k].range;
        assert(normalized.len() == bytes.len());
        assert(candidates@[k as int].range.start + 2 <= bytes.len());
        assert(2 <= candidates@[k as int].range.end <= bytes.len());
        let ghost before = normalized@;
        normalized.set(r.start, 36u8);
        normalized.set(r.start + 1, 36u8);
        normalized.set(r.end - 2, 36u8);
        normalized.set(r.end - 1, 36u8);
        proof {
            let prev = candidates@.take(k as int);
            let next = candidates@.take(k + 1);
            assert forall|i: int| 0 <= i < bytes.len() implies #[trigger] normalized@[i] == if is_delimiter_byte(next, i) {
                36u8
            } else {
                bytes[i]
            } by {
                let q = next[k as int].range;
                if i == q.start as int || i == q.start + 1 || i == q.end - 2 || i == q.end - 1 {
                    assert(is_delimiter_byte(next, i));
                } else {
                    assert(normalized@[i] == before[i]);
                }
                if is_delimiter_byte(prev, i) {
                    let j = choose|j: int|
                        0 <= j < prev.len() && {
                            let q = (#[trigger] prev[j]).range;
                            ||| i == q.start as int
                            ||| i == q.start + 1
                            ||| i == q.end - 2
                            ||| i == q.end - 1
                        };
                    assert(next[j] == prev[j]);
                }
                if is_delimiter_byte(next, i) {
                    let j = choose|j: int|
                        0 <= j < next.len() && {
                            let q = (#[trigger] next[j]).range;
                            ||| i == q.start as int
                            ||| i == q.start + 1
                            ||| i == q.end - 2
                            ||| i == q.end - 1
                        };
                    if j < k {
                        assert(prev[j] == next[j]);
                    }
                }
            }
        }
        k = k + 1;
    }
    assert(candidates@.take(candidates@.len() as int) =~= candidates@);
    assert(normalized@ =~= normalized_bytes(bytes, candidates@));
    match string_from_utf8(normalized) {
        Some(s) => s,
        None => {
            assert(false);
            String::new()
        },
    }
}

} // verus!

verus! {

impl StartKey for LatexMathCandidate {
    open spec fn start_key(&self) -> int {
        self.range.start as int
    }

    fn start(&self) -> (r: usize) {
        self.range.start
    }

    fn copy_value(&self) -> (r: Self) {
        self.clone()
    }
}

/// Drop each candidate whose range equals that of the candidate kept just
/// before it (`dedup_by` on equal ranges).
pub open spec fn dedup_ranges(s: Seq<LatexMathCandidate>) -> Seq<LatexMathCandidate>
    decreases s.len(),
{
    if s.len() <= 1 {
        s
    } else {
        let kept = dedup_ranges(s.drop_last());
        if kept.last().range == s.last().range {
            kept
        } else {
            kept.push(s.last())
        }
    }
}

pub proof fn lemma_dedup_nonempty(s: Seq<LatexMathCandidate>)
    ensures
        s.len() > 0 ==> dedup_ranges(s).len() > 0,
    decreases s.len(),
{
    if s.len() > 1 {
        lemma_dedup_nonempty(s.drop_last());
    }
}

/// Remove consecutive candidates with equal ranges, keeping the first.
pub fn dedup_candidates(v: Vec<LatexMathCandidate>) -> (r: Vec<LatexMathCandidate>)
    ensures
        r@ == dedup_ranges(v@),
{
    let mut out: Vec<LatexMathCandidate> = Vec::new();
    let n = v.len();
    let mut i: usize = 0;
    while i < n
        invariant
            n == v@.len(),
            i <= n,
            out@ == dedup_ranges(v@.take(i as int)),
        decreases n - i,
    {
        let ghost next = v@.take(i + 1);
        proof {
            assert(next.drop_last() =~= v@.take(i as int));
            assert(next.last() == v@[i as int]);
            lemma_dedup_nonempty(v@.take(i as int));
        }
        let c = v[i].clone();
        if i == 0 {
            assert(v@.take(0) =~= Seq::<LatexMathCandidate>::empty());
            assert(next =~= seq![c]);
            out.push(c);
            assert(out@ =~= next);
        } else {
            let last = out.len() - 1;
            if out[last].range.start == c.range.start && out[last].range.end == c.range.end {
                assert(out@.last().range == c.range);
            } else {
                assert(out@.last().range != c.range);
                out.push(c);
            }
        }
        i = i + 1;
    }
    assert(v@.take(n as int) =~= v@);
    out
}

} // verus!

verus! {

/// Dropping repeated ranges keeps every property all candidates have.
pub proof fn lemma_dedup_preserves(s: Seq<LatexMathCandidate>, p: spec_fn(LatexMathCandidate) -> bool)
    requires
        forall|k: int| 0 <= k < s.len() ==> p(#[trigger] s[k]),
    ensures
        forall|k: int| 0 <= k < dedup_ranges(s).len() ==> p(#[trigger] dedup_ranges(s)[k]),
    decreases s.len(),
{
    if s.len() > 1 {
        let init = s.drop_last();
        assert forall|k: int| 0 <= k < init.len() implies p(#[trigger] init[k]) by {
            assert(init[k] == s[k]);
        }
        lemma_dedup_preserves(init, p);
        assert(p(s[s.len() - 1]));
        let kept = dedup_ranges(init);
        assert forall|k: int| 0 <= k < kept.push(s.last()).len() implies p(
            #[trigger] kept.push(s.last())[k],
        ) by {
            if k < kept.len() {
                assert(kept.push(s.last())[k] == kept[k]);
            }
        }
    }
}

proof fn lemma_push_distinct(kept: Seq<LatexMathCandidate>, last: LatexMathCandidate)
    requires
        kept.len() > 0,
        kept.last().range != last.range,
        forall|k: int| 0 < k < kept.len() ==> kept[k - 1].range != (#[trigger] kept[k]).range,
    ensures
        forall|k: int|
            0 < k < kept.push(last).len() ==> kept.push(last)[k - 1].range != (
            #[trigger] kept.push(last)[k]).range,
{
    let r = kept.push(last);
    assert forall|k: int| 0 < k < r.len() implies r[k - 1].range != (#[trigger] r[k]).range by {
        if k < kept.len() {
            assert(r[k] == kept[k]);
            assert(r[k - 1] == kept[k - 1]);
        } else {
            assert(r[k - 1] == kept.last());
        }
    }
}

/// Deduplicating leaves no two neighbours with equal ranges.
#[verifier::spinoff_prover]
pub proof fn lemma_dedup_distinct(s: Seq<LatexMathCandidate>)
    ensures
        forall|k: int|
            0 < k < dedup_ranges(s).len() ==> dedup_ranges(s)[k - 1].range
                != (#[trigger] dedup_ranges(s)[k]).range,
    decreases s.len(),
{
    if s.len() > 1 {
        let init = s.drop_last();
        let last = s.last();
        lemma_dedup_distinct(init);
        lemma_dedup_nonempty(init);
        let kept = dedup_ranges(init);
        if kept.last().range != last.range {
            assert(dedup_ranges(s) == kept.push(last));
            lemma_push_distinct(kept, last);
        } else {
            assert(dedup_ranges(s) == kept);
        }
    }
}

/// Deduplicating a sorted sequence keeps it sorted.
pub proof fn lemma_dedup_sorted(s: Seq<LatexMathCandidate>)
    requires
        crate::sort::is_sorted_by_start(s),
    ensures
        crate::sort::is_sorted_by_start(dedup_ranges(s)),
    decreases s.len(),
{
    if s.len() > 1 {
        let init = s.drop_last();
        let last = s.last();
        crate::sort::lemma_sorted_init(s);
        lemma_dedup_sorted(init);
        let p = |c: LatexMathCandidate| c.start_key() <= last.start_key();
        assert forall|k: int| 0 <= k < init.len() implies p(#[trigger] init[k]) by {
            assert(init[k] == s[k]);
            assert(s[k].start_key() <= s[s.len() - 1].start_key());
        }
        lemma_dedup_preserves(init, p);
        let kept = dedup_ranges(init);
        if kept.last().range != last.range {
            assert forall|k: int| 0 <= k < kept.len() implies (#[trigger] kept[k]).start_key()
                <= last.start_key() by {
                assert(p(kept[k]));
            }
            crate::sort::lemma_push_sorted(kept, last);
        }
    }
}

} // verus!
