//! UTF-8 helpers shared by the span and Markdown modules: byte views of
//! strings, sub-slicing at character boundaries and Unicode whitespace.
use vstd::prelude::*;
use vstd::utf8::*;
use vstd::string::*;

verus! {

broadcast use {
    encode_utf8_valid_utf8,
    encode_utf8_decode_utf8,
    decode_utf8_encode_utf8,
    is_char_boundary_start_end_of_seq,
};

/// The Unicode `White_Space` property, as `char::is_whitespace` uses it.
pub open spec fn is_whitespace_char(c: char) -> bool {
    ||| ('\u{9}' <= c && c <= '\u{d}')
    ||| c == ' '
    ||| c == '\u{85}'
    ||| c == '\u{a0}'
    ||| c == '\u{1680}'
    ||| ('\u{2000}' <= c && c <= '\u{200a}')
    ||| c == '\u{2028}'
    ||| c == '\u{2029}'
    ||| c == '\u{202f}'
    ||| c == '\u{205f}'
    ||| c == '\u{3000}'
}

/// Every character of `s` is whitespace (so `s.trim()` is empty).
pub open spec fn is_blank_chars(s: Seq<char>) -> bool {
    forall|i: int| 0 <= i < s.len() ==> is_whitespace_char(#[trigger] s[i])
}

/// The bytes `bytes[start..end]` decode to whitespace only.
pub open spec fn is_blank_bytes(bytes: Seq<u8>, start: int, end: int) -> bool {
    is_blank_chars(decode_utf8(bytes.subrange(start, end)))
}

/// `char::is_whitespace`.
pub fn char_is_whitespace(c: char) -> (r: bool)
    ensures
        r == is_whitespace_char(c),
{
    ('\u{9}' <= c && c <= '\u{d}') || c == ' ' || c == '\u{85}' || c == '\u{a0}' || c
        == '\u{1680}' || ('\u{2000}' <= c && c <= '\u{200a}') || c == '\u{2028}' || c
        == '\u{2029}' || c == '\u{202f}' || c == '\u{205f}' || c == '\u{3000}'
}

/// Whether `s.trim()` is empty.
pub fn str_is_blank(s: &str) -> (r: bool)
    ensures
        r == is_blank_chars(s@),
{
    let mut all: bool = true;
    for c in it: s.chars()
        invariant
            it.seq() == s@,
            all == is_blank_chars(s@.take(it.index() as int)),
    {
        let ghost prefix = s@.take(it.index() as int);
        assert(s@.take(it.index() + 1) =~= prefix.push(c));
        assert(prefix.push(c)[prefix.len() as int] == c);
        assert forall|i: int| 0 <= i < prefix.len() implies prefix.push(c)[i] == prefix[i] by {}
        all = all && char_is_whitespace(c);
    }
    assert(s@.take(s@.len() as int) =~= s@);
    all
}

/// Boundaries of a valid encoding inside a suffix are the boundaries of the whole.
pub proof fn lemma_boundary_in_suffix(bytes: Seq<u8>, start: int, index: int)
    requires
        valid_utf8(bytes),
        is_char_boundary(bytes, start),
        is_char_boundary(bytes, index),
        start <= index,
    ensures
        valid_utf8(bytes.subrange(start, bytes.len() as int)),
        is_char_boundary(bytes.subrange(start, bytes.len() as int), index - start),
{
    let suffix = bytes.subrange(start, bytes.len() as int);
    valid_utf8_split(bytes, start);
    if index - start < suffix.len() {
        is_char_boundary_iff_not_is_continuation_byte(bytes, index);
        is_char_boundary_iff_not_is_continuation_byte(suffix, index - start);
    } else {
        assert(index == bytes.len()) by {
            if index > bytes.len() {
                reveal_with_fuel(is_char_boundary, 1);
                lemma_boundary_le_len(bytes, index);
            }
        }
    }
}

/// A boundary never lies past the end.
pub proof fn lemma_boundary_le_len(bytes: Seq<u8>, index: int)
    requires
        valid_utf8(bytes),
        is_char_boundary(bytes, index),
    ensures
        0 <= index <= bytes.len(),
    decreases bytes.len(),
{
    if index != 0 {
        if index < 0 || bytes.len() < index {
        } else {
        }
    }
}

/// The bytes between two boundaries of a valid encoding are a valid encoding.
pub proof fn lemma_valid_subrange(bytes: Seq<u8>, start: int, end: int)
    requires
        valid_utf8(bytes),
        is_char_boundary(bytes, start),
        is_char_boundary(bytes, end),
        start <= end,
    ensures
        valid_utf8(bytes.subrange(start, end)),
{
    lemma_boundary_le_len(bytes, end);
    lemma_boundary_in_suffix(bytes, start, end);
    let suffix = bytes.subrange(start, bytes.len() as int);
    valid_utf8_split(suffix, end - start);
    assert(suffix.subrange(0, end - start) =~= bytes.subrange(start, end));
}

/// `&s[start..end]`, for boundaries `start <= end`.
pub fn substr(s: &str, start: usize, end: usize) -> (r: &str)
    requires
        is_char_boundary(s.spec_bytes(), start as int),
        is_char_boundary(s.spec_bytes(), end as int),
        start <= end,
    ensures
        r.spec_bytes() == s.spec_bytes().subrange(start as int, end as int),
        r@ == decode_utf8(s.spec_bytes().subrange(start as int, end as int)),
{
    let ghost bytes = s.spec_bytes();
    proof {
        lemma_boundary_le_len(bytes, end as int);
        lemma_boundary_in_suffix(bytes, start as int, end as int);
    }
    let (_, rest) = s.split_at(start);
    let (mid, _) = rest.split_at(end - start);
    assert(mid.spec_bytes() =~= bytes.subrange(start as int, end as int));
    assert(decode_utf8(encode_utf8(mid@)) == mid@);
    mid
}

} // verus!

verus! {

/// The byte after an ASCII byte of a valid encoding starts a character.
pub proof fn lemma_after_ascii_is_boundary(bytes: Seq<u8>, i: int)
    requires
        valid_utf8(bytes),
        0 <= i < bytes.len(),
        bytes[i] < 128,
    ensures
        is_char_boundary(bytes, i),
        is_char_boundary(bytes, i + 1),
{
    is_char_boundary_iff_not_is_continuation_byte(bytes, i);
    if i + 1 < bytes.len() {
        is_char_boundary_iff_not_is_continuation_byte(bytes, i + 1);
        let suffix = bytes.subrange(i, bytes.len() as int);
        valid_utf8_split(bytes, i);
        reveal_with_fuel(is_char_boundary, 2);
        assert(length_of_first_scalar(suffix) == 1);
        assert(pop_first_scalar(suffix) =~= suffix.subrange(1, suffix.len() as int));
        assert(is_char_boundary(suffix, 1));
        is_char_boundary_iff_not_is_continuation_byte(suffix, 1);
    }
}

} // verus!

verus! {

/// Encoding distributes over concatenation.
pub proof fn lemma_encode_concat(a: Seq<char>, b: Seq<char>)
    ensures
        encode_utf8(a + b) == encode_utf8(a) + encode_utf8(b),
    decreases a.len(),
{
    if a.len() == 0 {
        assert(a + b =~= b);
        assert(encode_utf8(a) =~= Seq::<u8>::empty());
        assert(encode_utf8(a) + encode_utf8(b) =~= encode_utf8(b));
    } else {
        lemma_encode_concat(a.drop_first(), b);
        assert((a + b).drop_first() =~= a.drop_first() + b);
        assert((a + b)[0] == a[0]);
        assert(encode_utf8(a + b) =~= encode_scalar(a[0] as u32) + encode_utf8(a.drop_first() + b));
        assert(encode_utf8(a) =~= encode_scalar(a[0] as u32) + encode_utf8(a.drop_first()));
    }
}

/// Encoding of a single character.
pub proof fn lemma_encode_single(c: char)
    ensures
        encode_utf8(seq![c]) == encode_scalar(c as u32),
{
    let one = seq![c];
    assert(one.drop_first() =~= Seq::<char>::empty());
    assert(encode_utf8(one.drop_first()) =~= Seq::<u8>::empty());
    assert(one[0] == c);
    assert(encode_utf8(one) =~= encode_scalar(c as u32));
}

/// Number of leading whitespace characters.
pub open spec fn leading_ws(s: Seq<char>) -> nat
    decreases s.len(),
{
    if s.len() > 0 && is_whitespace_char(s[0]) {
        1 + leading_ws(s.drop_first())
    } else {
        0
    }
}

/// Number of trailing whitespace characters.
pub open spec fn trailing_ws(s: Seq<char>) -> nat
    decreases s.len(),
{
    if s.len() > 0 && is_whitespace_char(s.last()) {
        1 + trailing_ws(s.drop_last())
    } else {
        0
    }
}

/// Byte length of the UTF-8 encoding of `c` (`char::len_utf8`).
pub fn char_len_utf8(c: char) -> (r: usize)
    ensures
        r == encode_scalar(c as u32).len(),
        1 <= r <= 4,
{
    let v = c as u32;
    if v < 0x80 {
        1
    } else if v < 0x800 {
        2
    } else if v < 0x10000 {
        3
    } else {
        4
    }
}

} // verus!

verus! {

pub proof fn lemma_leading_ws_is(s: Seq<char>, k: int)
    requires
        0 <= k <= s.len(),
        forall|i: int| 0 <= i < k ==> is_whitespace_char(#[trigger] s[i]),
        k == s.len() || !is_whitespace_char(s[k]),
    ensures
        leading_ws(s) == k,
    decreases k,
{
    if k > 0 {
        let rest = s.drop_first();
        assert forall|i: int| 0 <= i < k - 1 implies is_whitespace_char(#[trigger] rest[i]) by {
            assert(rest[i] == s[i + 1]);
        }
        if k < s.len() {
            assert(rest[k - 1] == s[k]);
        }
        lemma_leading_ws_is(rest, k - 1);
    }
}

pub proof fn lemma_trailing_ws_is(s: Seq<char>, m: int)
    requires
        0 <= m <= s.len(),
        forall|i: int| m <= i < s.len() ==> is_whitespace_char(#[trigger] s[i]),
        m == 0 || !is_whitespace_char(s[m - 1]),
    ensures
        trailing_ws(s) == s.len() - m,
    decreases s.len() - m,
{
    if m < s.len() {
        let rest = s.drop_last();
        assert forall|i: int| m <= i < rest.len() implies is_whitespace_char(#[trigger] rest[i]) by {
            assert(rest[i] == s[i]);
        }
        if m > 0 {
            assert(rest[m - 1] == s[m - 1]);
        }
        assert(is_whitespace_char(s[s.len() - 1]));
        lemma_trailing_ws_is(rest, m);
    }
}

/// Appending one character to a prefix adds its encoding.
pub proof fn lemma_encode_take_step(s: Seq<char>, i: int)
    requires
        0 <= i < s.len(),
    ensures
        encode_utf8(s.take(i + 1)).len() == encode_utf8(s.take(i)).len() + encode_scalar(
            s[i] as u32,
        ).len(),
        encode_utf8(s.take(i + 1)).len() <= encode_utf8(s).len(),
{
    assert(s.take(i + 1) =~= s.take(i) + seq![s[i]]);
    lemma_encode_concat(s.take(i), seq![s[i]]);
    lemma_encode_single(s[i]);
    assert(s =~= s.take(i + 1) + s.skip(i + 1));
    lemma_encode_concat(s.take(i + 1), s.skip(i + 1));
}

/// Byte length of the leading whitespace of `s` (`s.len() - s.trim_start().len()`).
pub fn trim_start_len(s: &str) -> (r: usize)
    ensures
        r == encode_utf8(s@.take(leading_ws(s@) as int)).len(),
{
    let total_len: usize = s.as_bytes().len();
    let ghost total = total_len as int;
    let mut pos: usize = 0;
    let mut done = false;
    let ghost mut k: int = 0;
    assert(s@.take(0) =~= Seq::<char>::empty());
    assert(encode_utf8(Seq::<char>::empty()) =~= Seq::<u8>::empty());
    for c in it: s.chars()
        invariant
            it.seq() == s@,
            total == encode_utf8(s@).len(),
            total <= usize::MAX,
            !done ==> k == it.index() && pos == encode_utf8(s@.take(it.index() as int)).len(),
            done ==> k < it.index() && !is_whitespace_char(s@[k]),
            0 <= k <= it.index(),
            pos == encode_utf8(s@.take(k)).len(),
            forall|i: int| 0 <= i < k ==> is_whitespace_char(#[trigger] s@[i]),
    {
        proof {
            lemma_encode_take_step(s@, it.index() as int);
        }
        if !done {
            if char_is_whitespace(c) {
                pos = pos + char_len_utf8(c);
                proof {
                    k = k + 1;
                }
            } else {
                done = true;
            }
        }
    }
    proof {
        lemma_leading_ws_is(s@, k);
    }
    pos
}

/// Byte length of `s.trim_end()`.
pub fn trim_end_len(s: &str) -> (r: usize)
    ensures
        r == encode_utf8(s@.take(s@.len() - trailing_ws(s@))).len(),
{
    let total_len: usize = s.as_bytes().len();
    let ghost total = total_len as int;
    let mut pos: usize = 0;
    let mut end: usize = 0;
    let ghost mut m: int = 0;
    assert(s@.take(0) =~= Seq::<char>::empty());
    assert(encode_utf8(Seq::<char>::empty()) =~= Seq::<u8>::empty());
    for c in it: s.chars()
        invariant
            it.seq() == s@,
            total == encode_utf8(s@).len(),
            total <= usize::MAX,
            pos == encode_utf8(s@.take(it.index() as int)).len(),
            0 <= m <= it.index(),
            end == encode_utf8(s@.take(m)).len(),
            m == 0 || !is_whitespace_char(s@[m - 1]),
            forall|i: int| m <= i < it.index() ==> is_whitespace_char(#[trigger] s@[i]),
    {
        proof {
            lemma_encode_take_step(s@, it.index() as int);
        }
        pos = pos + char_len_utf8(c);
        if !char_is_whitespace(c) {
            end = pos;
            proof {
                m = it.index() + 1;
            }
        }
    }
    proof {
        lemma_trailing_ws_is(s@, m);
    }
    end
}

} // verus!

verus! {

/// `s.get(start..end)` is `Some` exactly for boundaries `start <= end`.
pub open spec fn str_get_ok(bytes: Seq<u8>, start: int, end: int) -> bool {
    start <= end && is_char_boundary(bytes, start) && is_char_boundary(bytes, end)
}

/// `s.get(start..end)`.
pub fn str_get(s: &str, start: usize, end: usize) -> (r: Option<&str>)
    ensures
        r is Some <==> str_get_ok(s.spec_bytes(), start as int, end as int),
        r matches Some(t) ==> t.spec_bytes() == s.spec_bytes().subrange(start as int, end as int)
            && t@ == decode_utf8(s.spec_bytes().subrange(start as int, end as int)),
{
    if start <= end && s.is_char_boundary(start) && s.is_char_boundary(end) {
        Some(substr(s, start, end))
    } else {
        None
    }
}

/// A character prefix never encodes longer than the whole.
pub proof fn lemma_encode_take_le(s: Seq<char>, k: int)
    requires
        0 <= k <= s.len(),
    ensures
        encode_utf8(s.take(k)).len() <= encode_utf8(s).len(),
{
    assert(s =~= s.take(k) + s.skip(k));
    lemma_encode_concat(s.take(k), s.skip(k));
}

} // verus!

verus! {

pub proof fn lemma_ws_counts_le(s: Seq<char>)
    ensures
        leading_ws(s) <= s.len(),
        trailing_ws(s) <= s.len(),
    decreases s.len(),
{
    if s.len() > 0 {
        lemma_ws_counts_le(s.drop_first());
        lemma_ws_counts_le(s.drop_last());
    }
}

} // verus!

verus! {

/// `String::from_utf8`: std documents that it fails exactly when the bytes
/// are not valid UTF-8, and otherwise returns the string whose bytes they are.
#[verifier::external_body]
pub(crate) fn string_from_utf8(bytes: Vec<u8>) -> (r: Option<String>)
    ensures
        r is Some <==> valid_utf8(bytes@),
        r matches Some(s) ==> s@ == decode_utf8(bytes@),
{
    match String::from_utf8(bytes) {
        Ok(s) => Some(s),
        Err(_) => None,
    }
}

} // verus!
