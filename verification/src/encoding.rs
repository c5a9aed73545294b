//! Text encoding detection, validation and conversion to UTF-8.
//!
//! | Function | Purpose |
//! |----------|---------|
//! | [`detect_encoding`] | detect the encoding from a BOM, else ASCII / UTF-8 |
//! | [`check_text_ascii`] | find the first non-ASCII byte |
//! | [`check_whole_text_utf8`] | full UTF-8 validity check |
//! | [`check_extract_text_utf8`] | UTF-8 check of a fragment cut out of a stream |
//! | [`get_utf8_char_count`] | number of valid UTF-8 characters |
//! | [`get_utf8_char_count_with_offset`] | characters and bytes consumed |
//! | [`is_ascii_char`] | is one byte ASCII |
//! | [`check_utf8_char`] | is one UTF-8 character well formed |
//! | [`convert_to_utf8`] | UTF-16 / UTF-32 to UTF-8 |
use vstd::prelude::*;

verus! {

// ---------------------------------------------------------------------------
// Byte classes
// ---------------------------------------------------------------------------

/// Width in bytes of the UTF-8 character introduced by `b`, or 0 when `b`
/// cannot start a character.
pub open spec fn lead_width(b: u8) -> int {
    if b < 0x80 {
        1
    } else if 0xC0 <= b && b < 0xE0 {
        2
    } else if 0xE0 <= b && b < 0xF0 {
        3
    } else if 0xF0 <= b && b < 0xF8 {
        4
    } else {
        0
    }
}

/// `b` is a UTF-8 continuation byte (`10xxxxxx`).
pub open spec fn is_continuation(b: u8) -> bool {
    0x80 <= b && b < 0xC0
}

/// The first `w` bytes of `t` form one well-formed UTF-8 character of width
/// `w`: enough bytes, continuation bytes in place, no overlong encoding, no
/// UTF-16 surrogate half, no code point above U+10FFFF.
pub open spec fn char_ok(t: Seq<u8>, w: int) -> bool {
    &&& t.len() >= w
    &&& forall|i: int| 1 <= i < w ==> is_continuation(#[trigger] t[i])
    &&& !(w == 2 && t[0] < 0xC2)
    &&& !(w == 3 && t[0] == 0xE0 && t[1] < 0xA0)
    &&& !(w == 4 && t[0] == 0xF0 && t[1] < 0x90)
    &&& !(w == 3 && t[0] == 0xED && t[1] >= 0xA0)
    &&& !(w == 4 && (t[0] > 0xF4 || (t[0] == 0xF4 && t[1] > 0x8F)))
}

/// Greedy UTF-8 decoding of `t` from its start: the number of characters
/// decoded and the number of bytes they take, stopping at the first byte
/// that does not begin a well-formed character.
pub open spec fn utf8_prefix(t: Seq<u8>) -> (nat, nat)
    decreases t.len(),
{
    if t.len() == 0 {
        (0, 0)
    } else {
        let w = lead_width(t[0]);
        if w == 0 || !char_ok(t, w) {
            (0, 0)
        } else {
            let r = utf8_prefix(t.skip(w));
            (r.0 + 1, (r.1 + w) as nat)
        }
    }
}

/// `t` is entirely well-formed UTF-8.
pub open spec fn utf8_valid(t: Seq<u8>) -> bool {
    utf8_prefix(t).1 == t.len()
}

/// Every byte of `t` is ASCII.
pub open spec fn all_ascii(t: Seq<u8>) -> bool {
    forall|i: int| 0 <= i < t.len() ==> #[trigger] t[i] < 0x80
}

/// Distance from the end of `t` to its first non-ASCII byte, 0 when there is
/// none.
pub open spec fn ascii_check_result(t: Seq<u8>) -> int {
    if all_ascii(t) {
        0
    } else {
        t.len() - choose|i: int|
            0 <= i < t.len() && t[i] >= 0x80 && forall|j: int| 0 <= j < i ==> #[trigger] t[j] < 0x80
    }
}

pub proof fn lemma_utf8_prefix_bounds(t: Seq<u8>)
    ensures
        utf8_prefix(t).1 <= t.len(),
        utf8_prefix(t).0 <= utf8_prefix(t).1,
    decreases t.len(),
{
    if t.len() > 0 {
        let w = lead_width(t[0]);
        if w != 0 && char_ok(t, w) {
            lemma_utf8_prefix_bounds(t.skip(w));
        }
    }
}

proof fn lemma_first_non_ascii_unique(t: Seq<u8>, k: int)
    requires
        0 <= k < t.len(),
        t[k] >= 0x80,
        forall|j: int| 0 <= j < k ==> #[trigger] t[j] < 0x80,
    ensures
        ascii_check_result(t) == t.len() - k,
{
    assert(!all_ascii(t));
    let c = choose|i: int|
        0 <= i < t.len() && t[i] >= 0x80 && forall|j: int| 0 <= j < i ==> #[trigger] t[j] < 0x80;
    assert(0 <= c < t.len() && t[c] >= 0x80 && forall|j: int| 0 <= j < c ==> #[trigger] t[j] < 0x80);
    if c < k {
        assert(t[c] < 0x80);
    } else if k < c {
        assert(t[k] < 0x80);
    }
}

// ---------------------------------------------------------------------------
// Single bytes and single characters
// ---------------------------------------------------------------------------

/// Whether one byte is ASCII.
pub fn is_ascii_char(byte: u8) -> (r: bool)
    ensures
        r == (byte < 0x80),
{
    assert((byte & 0x80) == 0 <==> byte < 0x80) by (bit_vector);
    (byte & 0x80) == 0
}

/// Width of the UTF-8 character introduced by `first_byte`.
fn get_utf8_char_width(first_byte: u8) -> (r: Option<usize>)
    ensures
        lead_width(first_byte) == 0 ==> r is None,
        lead_width(first_byte) != 0 ==> r == Some(lead_width(first_byte) as usize),
{
    assert((first_byte & 0x80) == 0 <==> first_byte < 0x80) by (bit_vector);
    assert((first_byte & 0xE0) == 0xC0 <==> 0xC0 <= first_byte && first_byte < 0xE0)
        by (bit_vector);
    assert((first_byte & 0xF0) == 0xE0 <==> 0xE0 <= first_byte && first_byte < 0xF0)
        by (bit_vector);
    assert((first_byte & 0xF8) == 0xF0 <==> 0xF0 <= first_byte && first_byte < 0xF8)
        by (bit_vector);
    if (first_byte & 0x80) == 0 {
        Some(1)
    } else if (first_byte & 0xE0) == 0xC0 {
        Some(2)
    } else if (first_byte & 0xF0) == 0xE0 {
        Some(3)
    } else if (first_byte & 0xF8) == 0xF0 {
        Some(4)
    } else {
        None
    }
}

/// Whether `byte` is a UTF-8 continuation byte.
fn is_valid_utf8_continuation(byte: u8) -> (r: bool)
    ensures
        r == is_continuation(byte),
{
    assert((byte & 0xC0) == 0x80 <==> 0x80 <= byte && byte < 0xC0) by (bit_vector);
    (byte & 0xC0) == 0x80
}

/// Checks the character of width `width` that starts at `pos` in `text`,
/// looking at no byte at or after `end`.
fn check_utf8_char_in(text: &[u8], pos: usize, end: usize, width: usize) -> (r: bool)
    requires
        pos <= end <= text.len(),
    ensures
        r == char_ok(text@.subrange(pos as int, end as int), width as int),
{
    let ghost t = text@.subrange(pos as int, end as int);
    if end - pos < width {
        return false;
    }
    let mut i: usize = 1;
    while i < width
        invariant
            1 <= i,
            pos + width <= end <= text.len(),
            t == text@.subrange(pos as int, end as int),
            forall|k: int| 1 <= k < i ==> is_continuation(#[trigger] t[k]),
        decreases width - i,
    {
        if !is_valid_utf8_continuation(text[pos + i]) {
            assert(t[i as int] == text@[pos + i]);
            return false;
        }
        i += 1;
    }
    assert(forall|k: int| 1 <= k < width ==> is_continuation(#[trigger] t[k]));
    if width == 2 && text[pos] < 0xC2 {
        return false;
    }
    if width == 3 && text[pos] == 0xE0 && text[pos + 1] < 0xA0 {
        return false;
    }
    if width == 4 && text[pos] == 0xF0 && text[pos + 1] < 0x90 {
        return false;
    }
    if width == 3 && text[pos] == 0xED && text[pos + 1] >= 0xA0 {
        return false;
    }
    if width == 4 && (text[pos] > 0xF4 || (text[pos] == 0xF4 && text[pos + 1] > 0x8F)) {
        return false;
    }
    true
}

/// Checks one UTF-8 character of width `width` at the start of `text`:
/// continuation bytes, overlong encodings, UTF-16 surrogate halves and code
/// points above U+10FFFF.
pub fn check_utf8_char(text: &[u8], width: usize) -> (r: bool)
    ensures
        r == char_ok(text@, width as int),
{
    assert(text@.subrange(0, text@.len() as int) == text@);
    check_utf8_char_in(text, 0, text.len(), width)
}

// ---------------------------------------------------------------------------
// Whole texts
// ---------------------------------------------------------------------------

/// Greedy UTF-8 decoding of `text[start..end]`: characters decoded and bytes
/// consumed.
fn utf8_scan_range(text: &[u8], start: usize, end: usize) -> (r: (usize, usize))
    requires
        start <= end <= text.len(),
    ensures
        r.0 == utf8_prefix(text@.subrange(start as int, end as int)).0,
        r.1 == utf8_prefix(text@.subrange(start as int, end as int)).1,
{
    let ghost whole = text@.subrange(start as int, end as int);
    let mut count: usize = 0;
    let mut pos: usize = start;
    while pos < end
        invariant_except_break
            start <= pos <= end <= text.len(),
            whole == text@.subrange(start as int, end as int),
            count <= pos - start,
            utf8_prefix(whole).0 == count + utf8_prefix(text@.subrange(pos as int, end as int)).0,
            utf8_prefix(whole).1 == (pos - start) + utf8_prefix(
                text@.subrange(pos as int, end as int),
            ).1,
        ensures
            start <= pos <= end,
            utf8_prefix(whole).0 == count,
            utf8_prefix(whole).1 == pos - start,
        decreases end - pos,
    {
        let ghost rest = text@.subrange(pos as int, end as int);
        assert(rest[0] == text@[pos as int]);
        let width = match get_utf8_char_width(text[pos]) {
            Some(w) => w,
            None => {
                break;
            },
        };
        if width > end - pos || !check_utf8_char_in(text, pos, end, width) {
            break;
        }
        assert(rest.skip(width as int) == text@.subrange(pos + width, end as int));
        proof {
            lemma_utf8_prefix_bounds(rest.skip(width as int));
        }
        count += 1;
        pos += width;
    }
    if pos >= end {
        assert(text@.subrange(pos as int, end as int).len() == 0);
    }
    (count, pos - start)
}

/// Full UTF-8 validity check.
///
/// Returns 0 when the whole text is valid UTF-8, otherwise the distance from
/// the end of the text to the first byte that does not begin a well-formed
/// character.
pub fn check_whole_text_utf8(text: &[u8]) -> (r: usize)
    ensures
        r == text@.len() - utf8_prefix(text@).1,
        r == 0 <==> utf8_valid(text@),
{
    assert(text@.subrange(0, text@.len() as int) == text@);
    proof {
        lemma_utf8_prefix_bounds(text@);
    }
    let (_, consumed) = utf8_scan_range(text, 0, text.len());
    text.len() - consumed
}

/// Number of valid UTF-8 characters at the start of `text`.
pub fn get_utf8_char_count(text: &[u8]) -> (r: usize)
    ensures
        r == utf8_prefix(text@).0,
{
    get_utf8_char_count_with_offset(text).0
}

/// Number of valid UTF-8 characters at the start of `text` and the number of
/// bytes they take.
///
/// Counting stops at the first byte that does not begin a well-formed,
/// complete character; the second value is the index of that byte.
pub fn get_utf8_char_count_with_offset(text: &[u8]) -> (r: (usize, usize))
    ensures
        r.0 == utf8_prefix(text@).0,
        r.1 == utf8_prefix(text@).1,
{
    assert(text@.subrange(0, text@.len() as int) == text@);
    utf8_scan_range(text, 0, text.len())
}

/// Finds the first non-ASCII byte of `text`.
///
/// Returns 0 when the whole text is ASCII, otherwise the distance from the
/// end of the text to the first non-ASCII byte. Eight bytes are tested at a
/// time.
pub fn check_text_ascii(text: &[u8]) -> (r: usize)
    ensures
        r == ascii_check_result(text@),
        r == 0 <==> all_ascii(text@),
        r > 0 ==> r <= text@.len() && text@[text@.len() - r] >= 0x80,
{
    let len = text.len();
    let mut pos: usize = 0;
    while pos < len
        invariant
            pos <= len == text@.len(),
            forall|j: int| 0 <= j < pos ==> #[trigger] text@[j] < 0x80,
        decreases len - pos,
    {
        if len - pos >= 8 {
            let acc: u8 = text[pos] | text[pos + 1] | text[pos + 2] | text[pos + 3] | text[pos
                + 4] | text[pos + 5] | text[pos + 6] | text[pos + 7];
            if (acc & 0x80) == 0 {
                let b0 = text[pos];
                let b1 = text[pos + 1];
                let b2 = text[pos + 2];
                let b3 = text[pos + 3];
                let b4 = text[pos + 4];
                let b5 = text[pos + 5];
                let b6 = text[pos + 6];
                let b7 = text[pos + 7];
                assert(((b0 | b1 | b2 | b3 | b4 | b5 | b6 | b7) & 0x80) == 0 ==> (b0 < 0x80 && b1
                    < 0x80 && b2 < 0x80 && b3 < 0x80 && b4 < 0x80 && b5 < 0x80 && b6 < 0x80 && b7
                    < 0x80)) by (bit_vector);
                assert(forall|j: int| 0 <= j < pos + 8 ==> #[trigger] text@[j] < 0x80) by {
                    assert forall|j: int| 0 <= j < pos + 8 implies #[trigger] text@[j] < 0x80 by {
                        if j >= pos {
                            assert(j == pos || j == pos + 1 || j == pos + 2 || j == pos + 3 || j
                                == pos + 4 || j == pos + 5 || j == pos + 6 || j == pos + 7);
                        }
                    }
                }
                pos += 8;
                continue;
            }
        }
        if !is_ascii_char(text[pos]) {
            proof {
                lemma_first_non_ascii_unique(text@, pos as int);
            }
            return len - pos;
        }
        pos += 1;
    }
    assert(all_ascii(text@));
    0
}

// ---------------------------------------------------------------------------
// Fragments cut out of a stream
// ---------------------------------------------------------------------------

/// Number of continuation bytes at the start of `t`, at most 3.
pub open spec fn leading_continuations(t: Seq<u8>) -> int {
    if t.len() > 0 && is_continuation(t[0]) {
        if t.len() > 1 && is_continuation(t[1]) {
            if t.len() > 2 && is_continuation(t[2]) {
                3
            } else {
                2
            }
        } else {
            1
        }
    } else {
        0
    }
}

/// One more than the number of continuation bytes at the end of `u` (at most
/// 3 of them, never the whole of `u`): the width the last character would
/// have if it were complete.
pub open spec fn trailing_slice(u: Seq<u8>) -> int {
    if 1 < u.len() && is_continuation(u[u.len() - 1]) {
        if 2 < u.len() && is_continuation(u[u.len() - 2]) {
            if 3 < u.len() && is_continuation(u[u.len() - 3]) {
                4
            } else {
                3
            }
        } else {
            2
        }
    } else {
        1
    }
}

/// The value [`check_whole_text_utf8`] computes for `t`.
pub open spec fn whole_check(t: Seq<u8>) -> int {
    t.len() - utf8_prefix(t).1
}

/// The value [`check_extract_text_utf8`] computes for `t`.
///
/// Texts shorter than 10 bytes are checked whole. Otherwise up to three
/// leading continuation bytes are dropped (they belong to a character cut
/// off at the start); if what is left does not start a character the result
/// is 0. The last character is then dropped: when its lead byte announces at
/// least as many bytes as are present the part before it is checked and the
/// result, if not 0, is shifted by the dropped length; when the tail holds
/// more continuation bytes than its lead announces, the whole remainder is
/// checked.
pub open spec fn extract_check(t: Seq<u8>) -> int {
    if t.len() == 0 {
        0
    } else if t.len() < 10 {
        whole_check(t)
    } else {
        let u = t.skip(leading_continuations(t));
        if lead_width(u[0]) == 0 {
            0
        } else {
            let tr = trailing_slice(u);
            let tail_start = u.len() - tr;
            let tail_width = lead_width(u[tail_start]);
            if tail_width < tr {
                whole_check(u)
            } else {
                let r = whole_check(u.take(tail_start));
                if r != 0 {
                    r + tr
                } else {
                    0
                }
            }
        }
    }
}

/// Whole-text check of `text[start..end]`.
fn check_whole_range(text: &[u8], start: usize, end: usize) -> (r: usize)
    requires
        start <= end <= text.len(),
    ensures
        r == whole_check(text@.subrange(start as int, end as int)),
        r <= end - start,
{
    proof {
        lemma_utf8_prefix_bounds(text@.subrange(start as int, end as int));
    }
    let (_, consumed) = utf8_scan_range(text, start, end);
    (end - start) - consumed
}

/// UTF-8 check of a fragment taken from the middle of a stream.
///
/// Characters that may be cut off at either end of the fragment are ignored
/// and only the middle part is checked. Returns 0 when that part is valid
/// UTF-8, otherwise an error position counted from the end.
pub fn check_extract_text_utf8(text: &[u8]) -> (r: usize)
    ensures
        r == extract_check(text@),
{
    let len = text.len();
    if len == 0 {
        return 0;
    }
    if len < 10 {
        assert(text@.subrange(0, len as int) == text@);
        return check_whole_range(text, 0, len);
    }
    let mut start_offset: usize = 0;
    while start_offset < 3 && start_offset < len && is_valid_utf8_continuation(text[start_offset])
        invariant
            start_offset <= 3,
            len == text@.len(),
            len >= 10,
            forall|k: int| 0 <= k < start_offset ==> is_continuation(#[trigger] text@[k]),
        decreases 3 - start_offset,
    {
        start_offset += 1;
    }
    assert(start_offset == leading_continuations(text@));
    let ghost u = text@.skip(start_offset as int);
    assert(u.len() == len - start_offset);
    assert(u[0] == text@[start_offset as int]);
    if get_utf8_char_width(text[start_offset]).is_none() {
        return 0;
    }
    let ulen = len - start_offset;
    let mut trailing: usize = 1;
    while trailing < 4 && trailing < ulen && is_valid_utf8_continuation(text[len - trailing])
        invariant
            1 <= trailing <= 4,
            ulen == u.len(),
            ulen >= 7,
            u == text@.skip(start_offset as int),
            start_offset + ulen == len == text@.len(),
            forall|k: int| 1 <= k < trailing ==> is_continuation(#[trigger] u[u.len() - k]),
        decreases 4 - trailing,
    {
        assert(u[u.len() - trailing as int] == text@[len - trailing]);
        trailing += 1;
    }
    assert(trailing < ulen ==> trailing >= 4 || !is_continuation(u[u.len() - trailing as int])) by {
        if trailing < ulen && trailing < 4 {
            assert(u[u.len() - trailing as int] == text@[len - trailing]);
        }
    }
    assert(trailing == trailing_slice(u));
    if ulen < trailing {
        return 0;
    }
    let tail_start = len - trailing;
    assert(u[ulen - trailing] == text@[tail_start as int]);
    let tail_width: usize = match get_utf8_char_width(text[tail_start]) {
        Some(w) => w,
        None => 0,
    };
    assert(u.take(ulen - trailing) == text@.subrange(start_offset as int, tail_start as int));
    assert(u == text@.subrange(start_offset as int, len as int));
    if tail_width > trailing {
        let remaining = check_whole_range(text, start_offset, tail_start);
        return if remaining != 0 {
            remaining + trailing
        } else {
            0
        };
    }
    if tail_width < trailing {
        return check_whole_range(text, start_offset, len);
    }
    let remaining = check_whole_range(text, start_offset, tail_start);
    if remaining != 0 {
        remaining + trailing
    } else {
        0
    }
}

// ---------------------------------------------------------------------------
// Encoding detection
// ---------------------------------------------------------------------------

/// Text encodings that can be detected.
#[derive(Debug, Clone, Copy, PartialEq, Eq, Structural)]
pub enum TextEncoding {
    /// ASCII
    Ascii,
    /// UTF-8
    Utf8,
    /// UTF-16 little endian
    Utf16Le,
    /// UTF-16 big endian
    Utf16Be,
    /// UTF-32 little endian
    Utf32Le,
    /// UTF-32 big endian
    Utf32Be,
    /// none of the above
    Unknown,
}

/// The encoding [`detect_encoding`] reports for `d`: a byte-order mark wins
/// (UTF-32 before UTF-8 before UTF-16), then ASCII, then UTF-8.
pub open spec fn detected_encoding(d: Seq<u8>) -> TextEncoding {
    if d.len() >= 4 && d[0] == 0xFF && d[1] == 0xFE && d[2] == 0x00 && d[3] == 0x00 {
        TextEncoding::Utf32Le
    } else if d.len() >= 4 && d[0] == 0x00 && d[1] == 0x00 && d[2] == 0xFE && d[3] == 0xFF {
        TextEncoding::Utf32Be
    } else if d.len() >= 3 && d[0] == 0xEF && d[1] == 0xBB && d[2] == 0xBF {
        TextEncoding::Utf8
    } else if d.len() >= 2 && d[0] == 0xFF && d[1] == 0xFE {
        TextEncoding::Utf16Le
    } else if d.len() >= 2 && d[0] == 0xFE && d[1] == 0xFF {
        TextEncoding::Utf16Be
    } else if all_ascii(d) {
        TextEncoding::Ascii
    } else if utf8_valid(d) {
        TextEncoding::Utf8
    } else {
        TextEncoding::Unknown
    }
}

/// Detects the encoding of `data`.
///
/// Priority: byte-order mark, then ASCII (a subset of UTF-8), then UTF-8,
/// then unknown. Recognised marks: UTF-8 `EF BB BF`, UTF-16LE `FF FE`,
/// UTF-16BE `FE FF`, UTF-32LE `FF FE 00 00`, UTF-32BE `00 00 FE FF`.
pub fn detect_encoding(data: &[u8]) -> (r: TextEncoding)
    ensures
        r == detected_encoding(data@),
{
    if data.len() >= 4 {
        if data[0] == 0xFF && data[1] == 0xFE && data[2] == 0x00 && data[3] == 0x00 {
            return TextEncoding::Utf32Le;
        }
        if data[0] == 0x00 && data[1] == 0x00 && data[2] == 0xFE && data[3] == 0xFF {
            return TextEncoding::Utf32Be;
        }
    }
    if data.len() >= 3 && data[0] == 0xEF && data[1] == 0xBB && data[2] == 0xBF {
        return TextEncoding::Utf8;
    }
    if data.len() >= 2 {
        if data[0] == 0xFF && data[1] == 0xFE {
            return TextEncoding::Utf16Le;
        }
        if data[0] == 0xFE && data[1] == 0xFF {
            return TextEncoding::Utf16Be;
        }
    }
    if check_text_ascii(data) == 0 {
        TextEncoding::Ascii
    } else if check_whole_text_utf8(data) == 0 {
        TextEncoding::Utf8
    } else {
        TextEncoding::Unknown
    }
}

// ---------------------------------------------------------------------------
// Conversion to UTF-8
// ---------------------------------------------------------------------------

/// `c` is a Unicode scalar value (a code point that is not a surrogate).
pub open spec fn is_scalar_value(c: u32) -> bool {
    c < 0xD800 || (0xE000 <= c && c <= 0x10FFFF)
}

/// The UTF-8 encoding of the code point `c`.
pub open spec fn utf8_encode(c: u32) -> Seq<u8> {
    if c < 0x80 {
        seq![c as u8]
    } else if c < 0x800 {
        seq![(0xC0 + c / 64) as u8, (0x80 + c % 64) as u8]
    } else if c < 0x10000 {
        seq![(0xE0 + c / 4096) as u8, (0x80 + (c / 64) % 64) as u8, (0x80 + c % 64) as u8]
    } else {
        seq![
            (0xF0 + c / 262144) as u8,
            (0x80 + (c / 4096) % 64) as u8,
            (0x80 + (c / 64) % 64) as u8,
            (0x80 + c % 64) as u8,
        ]
    }
}

/// The UTF-8 encodings of `cs`, one after the other.
pub open spec fn utf8_encode_all(cs: Seq<u32>) -> Seq<u8>
    decreases cs.len(),
{
    if cs.len() == 0 {
        Seq::empty()
    } else {
        utf8_encode_all(cs.drop_last()) + utf8_encode(cs.last())
    }
}

/// The 32-bit code unit stored at bytes `4 * i .. 4 * i + 4` of `d`.
pub open spec fn utf32_unit(d: Seq<u8>, i: int, little_endian: bool) -> u32 {
    if little_endian {
        (d[4 * i] + d[4 * i + 1] * 256 + d[4 * i + 2] * 65536 + d[4 * i + 3] * 16777216) as u32
    } else {
        (d[4 * i + 3] + d[4 * i + 2] * 256 + d[4 * i + 1] * 65536 + d[4 * i] * 16777216) as u32
    }
}

/// The complete 32-bit code units of `d`.
pub open spec fn utf32_units(d: Seq<u8>, little_endian: bool) -> Seq<u32> {
    Seq::new((d.len() / 4) as nat, |i: int| utf32_unit(d, i, little_endian))
}

/// The characters a UTF-32 text carries: its code units without a leading
/// byte-order mark (U+FEFF).
pub open spec fn utf32_chars(units: Seq<u32>) -> Seq<u32> {
    if units.len() > 0 && units[0] == 0xFEFF {
        units.skip(1)
    } else {
        units
    }
}

/// UTF-32 to UTF-8: defined when the text is made of whole code units that
/// are all Unicode scalar values.
pub open spec fn utf32_to_utf8(d: Seq<u8>, little_endian: bool) -> Result<Seq<u8>, ()> {
    let units = utf32_units(d, little_endian);
    if d.len() % 4 == 0 && forall|i: int| 0 <= i < units.len() ==> is_scalar_value(#[trigger] units[i]) {
        Ok(utf8_encode_all(utf32_chars(units)))
    } else {
        Err(())
    }
}

/// The UTF-16 code units of the scalar value `c`: one unit below U+10000, a
/// surrogate pair from there on.
pub open spec fn utf16_code_units(c: u32) -> Seq<u16> {
    if c < 0x10000 {
        seq![c as u16]
    } else {
        seq![(0xD800 + (c - 0x10000) / 1024) as u16, (0xDC00 + (c - 0x10000) % 1024) as u16]
    }
}

/// The code units of the scalar values `cs`, one after the other.
pub open spec fn utf16_code_units_all(cs: Seq<u32>) -> Seq<u16>
    decreases cs.len(),
{
    if cs.len() == 0 {
        Seq::empty()
    } else {
        utf16_code_units_all(cs.drop_last()) + utf16_code_units(cs.last())
    }
}

/// The two bytes of the code unit `u`, the high one first when `big_endian`.
pub open spec fn utf16_unit_bytes(u: u16, big_endian: bool) -> Seq<u8> {
    if big_endian {
        seq![(u / 256) as u8, (u % 256) as u8]
    } else {
        seq![(u % 256) as u8, (u / 256) as u8]
    }
}

/// The scalar values `cs` written as UTF-16 bytes.
pub open spec fn utf16_bytes(cs: Seq<u32>, big_endian: bool) -> Seq<u8> {
    let us = utf16_code_units_all(cs);
    Seq::new(2 * us.len(), |j: int| utf16_unit_bytes(us[j / 2], big_endian)[j % 2])
}

/// `d` starts with none of the byte-order marks that decoding looks for:
/// UTF-8 (`EF BB BF`), UTF-16 little endian (`FF FE`) or big endian
/// (`FE FF`).
pub open spec fn starts_without_bom(d: Seq<u8>) -> bool {
    &&& !(d.len() >= 3 && d[0] == 0xEF && d[1] == 0xBB && d[2] == 0xBF)
    &&& !(d.len() >= 2 && d[0] == 0xFF && d[1] == 0xFE)
    &&& !(d.len() >= 2 && d[0] == 0xFE && d[1] == 0xFF)
}

/// `cs` are Unicode scalar values whose UTF-16 bytes start without a
/// byte-order mark.
pub open spec fn plain_utf16_text(cs: Seq<u32>, big_endian: bool) -> bool {
    &&& forall|i: int| 0 <= i < cs.len() ==> is_scalar_value(#[trigger] cs[i])
    &&& starts_without_bom(utf16_bytes(cs, big_endian))
}

/// What `encoding_rs` produces when it decodes `bytes` as UTF-16 (big endian
/// when `big_endian`), as UTF-8 bytes.
pub uninterp spec fn utf16_decoded(bytes: Seq<u8>, big_endian: bool) -> Seq<u8>;

/// `d` without a leading two-byte mark `b0 b1`.
pub open spec fn strip_bom2(d: Seq<u8>, b0: u8, b1: u8) -> Seq<u8> {
    if d.len() >= 2 && d[0] == b0 && d[1] == b1 {
        d.skip(2)
    } else {
        d
    }
}

/// The value [`convert_to_utf8`] returns for `d` in `encoding`.
pub open spec fn converted_to_utf8(d: Seq<u8>, encoding: TextEncoding) -> Result<Seq<u8>, ()> {
    match encoding {
        TextEncoding::Utf16Le => Ok(utf16_decoded(strip_bom2(d, 0xFF, 0xFE), false)),
        TextEncoding::Utf16Be => Ok(utf16_decoded(strip_bom2(d, 0xFE, 0xFF), true)),
        TextEncoding::Utf32Le => utf32_to_utf8(d, true),
        TextEncoding::Utf32Be => utf32_to_utf8(d, false),
        _ => Ok(d),
    }
}

/// Decodes UTF-16 with `encoding_rs::Encoding::decode` (on `UTF_16BE` when
/// `big_endian`, else `UTF_16LE`) and returns the UTF-8 bytes of the
/// resulting string.
///
/// Trusted: the result is named `utf16_decoded` of the input; it is valid
/// UTF-8 because it is the content of a Rust `str`. Well-formed UTF-16 that
/// starts with no byte-order mark (so that `decode`'s mark sniffing finds
/// none) decodes to the characters it encodes, as the Encoding Standard's
/// UTF-16 decoder that `decode` implements does. `decode` panics when the
/// size of its output buffer overflows `usize`, which the bound on the input
/// length rules out. What `decode` does with malformed input (replacement
/// characters) and with a leading byte-order mark is not stated.
#[verifier::external_body]
fn decode_utf16(data: &[u8], big_endian: bool) -> (out: Vec<u8>)
    requires
        data@.len() <= usize::MAX / 4,
    ensures
        out@ == utf16_decoded(data@, big_endian),
        utf8_valid(out@),
        forall|cs: Seq<u32>|
            #![trigger utf16_bytes(cs, big_endian)]
            plain_utf16_text(cs, big_endian) && data@ == utf16_bytes(cs, big_endian) ==> out@
                == utf8_encode_all(cs),
{
    let encoding = if big_endian { encoding_rs::UTF_16BE } else { encoding_rs::UTF_16LE };
    let (decoded, _, _) = encoding.decode(data);
    decoded.into_owned().into_bytes()
}

/// The UTF-16 byte-order mark in the given byte order.
pub open spec fn utf16_bom(big_endian: bool) -> Seq<u8> {
    if big_endian {
        seq![0xFEu8, 0xFFu8]
    } else {
        seq![0xFFu8, 0xFEu8]
    }
}

/// UTF-16 to UTF-8: the text's own byte-order mark is removed and the rest
/// decoded.
fn convert_utf16_to_utf8(data: &[u8], big_endian: bool) -> (out: Vec<u8>)
    requires
        data@.len() <= usize::MAX / 4,
    ensures
        out@ == utf16_decoded(strip_bom2(data@, utf16_bom(big_endian)[0], utf16_bom(big_endian)[1]), big_endian),
        utf8_valid(out@),
        forall|cs: Seq<u32>|
            #![trigger utf16_bytes(cs, big_endian)]
            plain_utf16_text(cs, big_endian) && (data@ == utf16_bytes(cs, big_endian) || data@
                == utf16_bom(big_endian) + utf16_bytes(cs, big_endian)) ==> out@ == utf8_encode_all(cs),
{
    let (b0, b1): (u8, u8) = if big_endian {
        (0xFE, 0xFF)
    } else {
        (0xFF, 0xFE)
    };
    let ghost bom = utf16_bom(big_endian);
    if data.len() >= 2 && data[0] == b0 && data[1] == b1 {
        let stripped = vstd::slice::slice_subrange(data, 2, data.len());
        let out = decode_utf16(stripped, big_endian);
        proof {
            assert(stripped@ =~= data@.skip(2));
            assert forall|cs: Seq<u32>|
                #![trigger utf16_bytes(cs, big_endian)]
                plain_utf16_text(cs, big_endian) && (data@ == utf16_bytes(cs, big_endian) || data@
                    == bom + utf16_bytes(cs, big_endian)) implies out@ == utf8_encode_all(cs) by {
                if data@ == bom + utf16_bytes(cs, big_endian) {
                    assert(stripped@ =~= utf16_bytes(cs, big_endian));
                } else {
                    assert(starts_without_bom(utf16_bytes(cs, big_endian)));
                }
            }
        }
        out
    } else {
        let out = decode_utf16(data, big_endian);
        proof {
            assert forall|cs: Seq<u32>|
                #![trigger utf16_bytes(cs, big_endian)]
                plain_utf16_text(cs, big_endian) && (data@ == utf16_bytes(cs, big_endian) || data@
                    == bom + utf16_bytes(cs, big_endian)) implies out@ == utf8_encode_all(cs) by {
                if data@ == bom + utf16_bytes(cs, big_endian) {
                    assert(data@[0] == bom[0] && data@[1] == bom[1]);
                }
            }
        }
        out
    }
}

/// Appends the UTF-8 encoding of the scalar value `c` to `out`.
fn push_utf8(out: &mut Vec<u8>, c: u32)
    requires
        is_scalar_value(c),
    ensures
        final(out)@ == old(out)@ + utf8_encode(c),
{
    if c < 0x80 {
        out.push(c as u8);
    } else if c < 0x800 {
        out.push((0xC0 + c / 64) as u8);
        out.push((0x80 + c % 64) as u8);
    } else if c < 0x10000 {
        out.push((0xE0 + c / 4096) as u8);
        out.push((0x80 + (c / 64) % 64) as u8);
        out.push((0x80 + c % 64) as u8);
    } else {
        out.push((0xF0 + c / 262144) as u8);
        out.push((0x80 + (c / 4096) % 64) as u8);
        out.push((0x80 + (c / 64) % 64) as u8);
        out.push((0x80 + c % 64) as u8);
    }
}

proof fn lemma_encode_all_step(cs: Seq<u32>, a: int, i: int)
    requires
        0 <= a <= i < cs.len(),
    ensures
        utf8_encode_all(cs.subrange(a, i + 1)) == utf8_encode_all(cs.subrange(a, i)) + utf8_encode(
            cs[i],
        ),
{
    assert(cs.subrange(a, i + 1).drop_last() == cs.subrange(a, i));
}

/// Converts UTF-32 text to UTF-8, skipping a leading byte-order mark.
fn convert_utf32_to_utf8(data: &[u8], little_endian: bool) -> (r: Result<Vec<u8>, ()>)
    ensures
        r matches Ok(v) ==> utf32_to_utf8(data@, little_endian) == Ok::<Seq<u8>, ()>(v@),
        r is Err ==> utf32_to_utf8(data@, little_endian) is Err,
{
    let ghost units = utf32_units(data@, little_endian);
    let ghost first: int = if units.len() > 0 && units[0] == 0xFEFF { 1 } else { 0 };
    let mut output: Vec<u8> = Vec::new();
    let len = data.len();
    let count = len / 4;
    let mut index: usize = 0;
    while index < count
        invariant
            len == data@.len(),
            count == len / 4 == units.len(),
            units == utf32_units(data@, little_endian),
            first == (if units.len() > 0 && units[0] == 0xFEFF { 1int } else { 0int }),
            index <= count,
            forall|k: int| 0 <= k < index ==> is_scalar_value(#[trigger] units[k]),
            index == 0 ==> output@.len() == 0,
            index >= 1 ==> output@ == utf8_encode_all(units.subrange(first, index as int)),
        decreases count - index,
    {
        assert(4 * index + 3 < data@.len()) by (nonlinear_arith)
            requires
                index < count,
                count == data@.len() / 4,
        ;
        let b0 = data[4 * index];
        let b1 = data[4 * index + 1];
        let b2 = data[4 * index + 2];
        let b3 = data[4 * index + 3];
        let value: u32 = if little_endian {
            b0 as u32 + (b1 as u32) * 256 + (b2 as u32) * 65536 + (b3 as u32) * 16777216
        } else {
            b3 as u32 + (b2 as u32) * 256 + (b1 as u32) * 65536 + (b0 as u32) * 16777216
        };
        assert(value == units[index as int]);
        if index == 0 && value == 0xFEFF {
            index += 1;
            assert(units.subrange(first, 1) =~= Seq::<u32>::empty());
            continue;
        }
        if !(value < 0xD800 || (0xE000 <= value && value <= 0x10FFFF)) {
            proof {
                assert(!is_scalar_value(units[index as int]));
            }
            return Err(());
        }
        proof {
            if index == 0 {
                assert(first == 0);
                lemma_encode_all_step(units, 0, 0);
                assert(units.subrange(0, 0) =~= Seq::<u32>::empty());
            } else {
                lemma_encode_all_step(units, first, index as int);
            }
        }
        push_utf8(&mut output, value);
        index += 1;
    }
    if data.len() % 4 != 0 {
        return Err(());
    }
    proof {
        if units.len() == 0 {
            assert(utf32_chars(units) =~= Seq::<u32>::empty());
        } else {
            assert(utf32_chars(units) =~= units.subrange(first, units.len() as int));
        }
        assert(forall|i: int| 0 <= i < units.len() ==> is_scalar_value(#[trigger] units[i]));
        assert(output@ == utf8_encode_all(utf32_chars(units)));
    }
    Ok(output)
}

/// Converts text to UTF-8.
///
/// UTF-16 text is decoded with `encoding_rs` after its own byte-order mark
/// is removed; UTF-32 text is converted here, a leading byte-order mark
/// skipped, and fails on incomplete code units or values that are not
/// Unicode scalar values. Text in any other encoding is returned unchanged.
pub fn convert_to_utf8(data: &[u8], encoding: &TextEncoding) -> (r: Result<Vec<u8>, ()>)
    requires
        (*encoding == TextEncoding::Utf16Le || *encoding == TextEncoding::Utf16Be) ==> data@.len()
            <= usize::MAX / 4,
    ensures
        r matches Ok(v) ==> converted_to_utf8(data@, *encoding) == Ok::<Seq<u8>, ()>(v@),
        r is Err ==> converted_to_utf8(data@, *encoding) is Err,
        (*encoding == TextEncoding::Utf16Le || *encoding == TextEncoding::Utf16Be || *encoding
            == TextEncoding::Utf32Le || *encoding == TextEncoding::Utf32Be) ==> (r matches Ok(v)
            ==> utf8_valid(v@)),
        *encoding == TextEncoding::Utf16Le ==> forall|cs: Seq<u32>|
            #![trigger utf16_bytes(cs, false)]
            plain_utf16_text(cs, false) && (data@ == utf16_bytes(cs, false) || data@ == seq![
                0xFFu8,
                0xFEu8,
            ] + utf16_bytes(cs, false)) ==> (r matches Ok(v) && v@ == utf8_encode_all(cs)),
        *encoding == TextEncoding::Utf16Be ==> forall|cs: Seq<u32>|
            #![trigger utf16_bytes(cs, true)]
            plain_utf16_text(cs, true) && (data@ == utf16_bytes(cs, true) || data@ == seq![
                0xFEu8,
                0xFFu8,
            ] + utf16_bytes(cs, true)) ==> (r matches Ok(v) && v@ == utf8_encode_all(cs)),
{
    proof {
        if utf32_to_utf8(data@, true) is Ok {
            lemma_utf32_conversion_is_utf8(data@, true);
        }
        if utf32_to_utf8(data@, false) is Ok {
            lemma_utf32_conversion_is_utf8(data@, false);
        }
    }
    match encoding {
        TextEncoding::Utf16Le => Ok(convert_utf16_to_utf8(data, false)),
        TextEncoding::Utf16Be => Ok(convert_utf16_to_utf8(data, true)),
        TextEncoding::Utf32Le => convert_utf32_to_utf8(data, true),
        TextEncoding::Utf32Be => convert_utf32_to_utf8(data, false),
        _ => Ok(vstd::slice::slice_to_vec(data)),
    }
}

// ---------------------------------------------------------------------------
// Laws of UTF-8
// ---------------------------------------------------------------------------

/// Decoding a text that starts with a whole valid text `a` decodes `a`
/// first and then goes on in what follows: character and byte counts add.
pub proof fn lemma_utf8_prefix_concat(a: Seq<u8>, b: Seq<u8>)
    requires
        utf8_valid(a),
    ensures
        utf8_prefix(a + b).0 == utf8_prefix(a).0 + utf8_prefix(b).0,
        utf8_prefix(a + b).1 == a.len() + utf8_prefix(b).1,
    decreases a.len(),
{
    if a.len() == 0 {
        assert(a + b =~= b);
    } else {
        let w = lead_width(a[0]);
        let ab = a + b;
        lemma_utf8_prefix_bounds(a.skip(w));
        assert(w != 0 && char_ok(a, w));
        assert(ab[0] == a[0]);
        assert forall|i: int| 0 <= i < w implies #[trigger] ab[i] == a[i] by {}
        assert(char_ok(ab, w));
        assert(ab.skip(w) =~= a.skip(w) + b);
        lemma_utf8_prefix_concat(a.skip(w), b);
    }
}

/// Valid UTF-8 that is not empty starts with a whole character, after
/// which the rest is valid UTF-8.
proof fn lemma_valid_first_char(x: Seq<u8>)
    requires
        utf8_valid(x),
        x.len() > 0,
    ensures
        lead_width(x[0]) != 0,
        !is_continuation(x[0]),
        char_ok(x, lead_width(x[0])),
        utf8_valid(x.skip(lead_width(x[0]))),
{
}

/// Valid UTF-8 cut where no continuation byte follows gives two valid
/// texts.
proof fn lemma_valid_split(v: Seq<u8>, a: int)
    requires
        utf8_valid(v),
        0 <= a <= v.len(),
        a == v.len() || !is_continuation(v[a]),
    ensures
        utf8_valid(v.take(a)),
        utf8_valid(v.skip(a)),
    decreases v.len(),
{
    if a == 0 {
        assert(v.take(0) =~= Seq::<u8>::empty());
        assert(v.skip(0) =~= v);
    } else {
        lemma_valid_first_char(v);
        let w = lead_width(v[0]);
        let rest = v.skip(w);
        if a < w {
            assert(is_continuation(v[a]));
        }
        assert(a >= w);
        if a < v.len() {
            assert(rest[a - w] == v[a]);
        }
        lemma_valid_split(rest, a - w);
        assert(v.skip(a) =~= rest.skip(a - w));
        let t = v.take(a);
        assert(t[0] == v[0]);
        assert forall|i: int| 0 <= i < w implies #[trigger] t[i] == v[i] by {}
        assert(char_ok(t, w));
        assert(t.skip(w) =~= rest.take(a - w));
    }
}

/// In valid UTF-8 a byte that is not a continuation byte starts a whole
/// character, which is followed by the end of the text or by another
/// character.
proof fn lemma_valid_char_at(v: Seq<u8>, i: int)
    requires
        utf8_valid(v),
        0 <= i < v.len(),
        !is_continuation(v[i]),
    ensures
        lead_width(v[i]) != 0,
        i + lead_width(v[i]) <= v.len(),
        forall|k: int| 1 <= k < lead_width(v[i]) ==> is_continuation(#[trigger] v[i + k]),
        i + lead_width(v[i]) == v.len() || !is_continuation(v[i + lead_width(v[i])]),
{
    lemma_valid_split(v, i);
    let x = v.skip(i);
    lemma_valid_first_char(x);
    let w = lead_width(x[0]);
    assert forall|k: int| 1 <= k < w implies is_continuation(#[trigger] v[i + k]) by {
        assert(x[k] == v[i + k]);
    }
    if i + w < v.len() {
        lemma_valid_first_char(x.skip(w));
        assert(x.skip(w)[0] == v[i + w]);
    }
}

/// Valid UTF-8 never holds four continuation bytes in a row.
proof fn lemma_valid_continuation_run(v: Seq<u8>, i: int)
    requires
        utf8_valid(v),
        0 <= i,
        i + 3 < v.len(),
        is_continuation(v[i]),
        is_continuation(v[i + 1]),
        is_continuation(v[i + 2]),
    ensures
        !is_continuation(v[i + 3]),
    decreases v.len(),
{
    lemma_valid_first_char(v);
    let w = lead_width(v[0]);
    let rest = v.skip(w);
    if i >= w {
        assert(rest[i - w] == v[i]);
        assert(rest[i - w + 1] == v[i + 1]);
        assert(rest[i - w + 2] == v[i + 2]);
        assert(rest[i - w + 3] == v[i + 3]);
        lemma_valid_continuation_run(rest, i - w);
    } else {
        lemma_valid_first_char(rest);
        assert(rest[0] == v[w]);
    }
}

/// A fragment of at least 10 bytes cut anywhere out of valid UTF-8 passes
/// [`check_extract_text_utf8`]: the characters cut at either end are
/// ignored and the rest is valid.
pub proof fn lemma_cut_of_valid_text_passes(v: Seq<u8>, a: int, b: int)
    requires
        utf8_valid(v),
        0 <= a <= b <= v.len(),
        b - a >= 10,
    ensures
        extract_check(v.subrange(a, b)) == 0,
{
    let t = v.subrange(a, b);
    let lc = leading_continuations(t);
    let s = a + lc;
    assert(t[0] == v[a] && t[1] == v[a + 1] && t[2] == v[a + 2] && t[3] == v[a + 3]);
    if lc == 3 {
        lemma_valid_continuation_run(v, a);
    }
    assert(!is_continuation(v[s]));
    let u = t.skip(lc);
    assert(u[0] == v[s]);
    lemma_valid_char_at(v, s);
    let tr = trailing_slice(u);
    let n = u.len() as int;
    let e = s + n - tr;
    assert(s + n == b);
    assert(u[n - 1] == v[b - 1] && u[n - 2] == v[b - 2] && u[n - 3] == v[b - 3] && u[n - 4]
        == v[b - 4]);
    if tr == 4 && is_continuation(v[b - 4]) {
        lemma_valid_continuation_run(v, b - 4);
    }
    assert(!is_continuation(v[e]));
    assert(u[n - tr] == v[e]);
    lemma_valid_char_at(v, e);
    let w = lead_width(v[e]);
    if w < tr {
        assert(u[n - tr + w] == v[e + w]);
        assert(is_continuation(v[e + w]));
    }
    lemma_valid_split(v, s);
    let x = v.skip(s);
    assert(x[e - s] == v[e]);
    lemma_valid_split(x, e - s);
    assert(u.take(n - tr) =~= x.take(e - s));
}

/// A fragment of at least 10 bytes passes [`check_extract_text_utf8`] only
/// when its middle is valid UTF-8. The fragment starts with `a` (at most 3)
/// continuation bytes, cut off a character before it, followed by a byte
/// that can start a character; it ends with `c` (at most 3) continuation
/// bytes after a byte that is not one, which starts its last, possibly cut,
/// character. A result of 0 means that the bytes between, from `a` up to
/// that last character, are valid UTF-8; where they are not, the check
/// reports an error.
pub proof fn lemma_fragment_pass_needs_valid_middle(t: Seq<u8>, a: int, c: int)
    requires
        t.len() >= 10,
        0 <= a <= 3,
        forall|k: int| 0 <= k < a ==> is_continuation(#[trigger] t[k]),
        !is_continuation(t[a]),
        lead_width(t[a]) != 0,
        0 <= c <= 3,
        forall|k: int| 1 <= k <= c ==> is_continuation(#[trigger] t[t.len() - k]),
        !is_continuation(t[t.len() - c - 1]),
        extract_check(t) == 0,
    ensures
        utf8_valid(t.subrange(a, t.len() - c - 1)),
{
    let n = t.len() as int;
    assert(leading_continuations(t) == a) by {
        if a >= 1 {
            assert(is_continuation(t[0]));
        }
        if a >= 2 {
            assert(is_continuation(t[1]));
        }
        if a >= 3 {
            assert(is_continuation(t[2]));
        }
    }
    let u = t.skip(a);
    let m = u.len() as int;
    assert(u[0] == t[a]);
    assert forall|k: int| 1 <= k <= c implies is_continuation(#[trigger] u[m - k]) by {
        assert(u[m - k] == t[n - k]);
        assert(is_continuation(t[n - k]));
    }
    assert(u[m - c - 1] == t[n - c - 1]);
    assert(trailing_slice(u) == c + 1) by {
        if c >= 1 {
            assert(is_continuation(u[m - 1]));
        }
        if c >= 2 {
            assert(is_continuation(u[m - 2]));
        }
        if c >= 3 {
            assert(is_continuation(u[m - 3]));
        }
    }
    let tail_start = m - c - 1;
    let middle = u.take(tail_start);
    assert(middle =~= t.subrange(a, n - c - 1));
    lemma_utf8_prefix_bounds(middle);
    lemma_utf8_prefix_bounds(u);
    if lead_width(u[tail_start]) < c + 1 {
        assert(whole_check(u) == 0);
        lemma_valid_split(u, tail_start);
    } else {
        assert(whole_check(middle) == 0);
    }
}

/// How a text without a byte-order mark is classified: ASCII exactly when
/// every byte is ASCII, UTF-8 exactly when it is valid UTF-8 with a byte
/// that is not ASCII, unknown exactly when it is neither. Whatever the text,
/// it is reported as UTF-8 only when it starts with the UTF-8 mark or is
/// valid UTF-8, and as ASCII only when every byte is ASCII.
pub proof fn lemma_detection_by_content(d: Seq<u8>)
    ensures
        detected_encoding(d) == TextEncoding::Utf8 ==> (d.len() >= 3 && d[0] == 0xEF && d[1] == 0xBB
            && d[2] == 0xBF) || utf8_valid(d),
        detected_encoding(d) == TextEncoding::Ascii ==> all_ascii(d),
        !has_byte_order_mark(d) ==> (detected_encoding(d) == TextEncoding::Ascii <==> all_ascii(d)),
        !has_byte_order_mark(d) ==> (detected_encoding(d) == TextEncoding::Utf8 <==> !all_ascii(d)
            && utf8_valid(d)),
        !has_byte_order_mark(d) ==> (detected_encoding(d) == TextEncoding::Unknown <==> !all_ascii(
            d,
        ) && !utf8_valid(d)),
{
}

/// `d` starts with one of the byte-order marks [`detect_encoding`]
/// recognises: UTF-32 (`FF FE 00 00`, `00 00 FE FF`), UTF-8 (`EF BB BF`) or
/// UTF-16 (`FF FE`, `FE FF`).
pub open spec fn has_byte_order_mark(d: Seq<u8>) -> bool {
    ||| d.len() >= 4 && d[0] == 0x00 && d[1] == 0x00 && d[2] == 0xFE && d[3] == 0xFF
    ||| d.len() >= 3 && d[0] == 0xEF && d[1] == 0xBB && d[2] == 0xBF
    ||| d.len() >= 2 && d[0] == 0xFF && d[1] == 0xFE
    ||| d.len() >= 2 && d[0] == 0xFE && d[1] == 0xFF
}

/// ASCII text is valid UTF-8, one character per byte.
pub proof fn lemma_ascii_text_is_utf8(t: Seq<u8>)
    requires
        all_ascii(t),
    ensures
        utf8_valid(t),
        utf8_prefix(t).0 == t.len(),
    decreases t.len(),
{
    if t.len() > 0 {
        assert(t[0] < 0x80);
        assert(char_ok(t, 1));
        assert(all_ascii(t.skip(1))) by {
            assert forall|i: int| 0 <= i < t.skip(1).len() implies #[trigger] t.skip(1)[i] < 0x80 by {
                assert(t.skip(1)[i] == t[i + 1]);
            }
        }
        lemma_ascii_text_is_utf8(t.skip(1));
    }
}

/// The UTF-8 encoding of a scalar value is one well-formed character.
proof fn lemma_utf8_encode_one(c: u32)
    requires
        is_scalar_value(c),
    ensures
        utf8_prefix(utf8_encode(c)).0 == 1,
        utf8_valid(utf8_encode(c)),
{
    let e = utf8_encode(c);
    let w = e.len() as int;
    if c < 0x80 {
        assert(lead_width(e[0]) == 1);
    } else if c < 0x800 {
        assert(0xC2 <= 0xC0 + c / 64 < 0xE0) by (nonlinear_arith)
            requires
                0x80 <= c < 0x800,
        ;
        assert(0x80 <= 0x80 + c % 64 < 0xC0) by (nonlinear_arith);
        assert(lead_width(e[0]) == 2);
        assert(is_continuation(e[1]));
    } else if c < 0x10000 {
        assert(0xE0 <= 0xE0 + c / 4096 < 0xF0) by (nonlinear_arith)
            requires
                0x800 <= c < 0x10000,
        ;
        assert(0x80 <= 0x80 + (c / 64) % 64 < 0xC0) by (nonlinear_arith);
        assert(0x80 <= 0x80 + c % 64 < 0xC0) by (nonlinear_arith);
        assert(c / 4096 == 0 ==> (c / 64) % 64 >= 32) by (nonlinear_arith)
            requires
                0x800 <= c < 0x10000,
        ;
        assert(c / 4096 == 13 ==> (c / 64) % 64 < 32) by (nonlinear_arith)
            requires
                0x800 <= c < 0x10000,
                c < 0xD800 || 0xE000 <= c,
        ;
        assert(lead_width(e[0]) == 3);
        assert(is_continuation(e[1]) && is_continuation(e[2]));
        assert(forall|i: int| 1 <= i < 3 ==> is_continuation(#[trigger] e[i]));
    } else {
        assert(0xF0 <= 0xF0 + c / 262144 <= 0xF4) by (nonlinear_arith)
            requires
                0x10000 <= c <= 0x10FFFF,
        ;
        assert(0x80 <= 0x80 + (c / 4096) % 64 < 0xC0) by (nonlinear_arith);
        assert(0x80 <= 0x80 + (c / 64) % 64 < 0xC0) by (nonlinear_arith);
        assert(0x80 <= 0x80 + c % 64 < 0xC0) by (nonlinear_arith);
        assert(c / 262144 == 0 ==> (c / 4096) % 64 >= 16) by (nonlinear_arith)
            requires
                0x10000 <= c <= 0x10FFFF,
        ;
        assert(c / 262144 == 4 ==> (c / 4096) % 64 < 16) by (nonlinear_arith)
            requires
                0x10000 <= c <= 0x10FFFF,
        ;
        assert(lead_width(e[0]) == 4);
        assert(is_continuation(e[1]) && is_continuation(e[2]) && is_continuation(e[3]));
        assert(forall|i: int| 1 <= i < 4 ==> is_continuation(#[trigger] e[i]));
    }
    assert(char_ok(e, w));
    assert(e.skip(w) =~= Seq::<u8>::empty());
    assert(utf8_prefix(e.skip(w)) == (0nat, 0nat));
    assert(lead_width(e[0]) == w);
}

/// Encoding scalar values gives valid UTF-8 with one character per value.
pub proof fn lemma_utf8_encode_all_valid(cs: Seq<u32>)
    requires
        forall|i: int| 0 <= i < cs.len() ==> is_scalar_value(#[trigger] cs[i]),
    ensures
        utf8_valid(utf8_encode_all(cs)),
        utf8_prefix(utf8_encode_all(cs)).0 == cs.len(),
    decreases cs.len(),
{
    if cs.len() > 0 {
        let init = cs.drop_last();
        assert forall|i: int| 0 <= i < init.len() implies is_scalar_value(#[trigger] init[i]) by {
            assert(init[i] == cs[i]);
        }
        lemma_utf8_encode_all_valid(init);
        lemma_utf8_encode_one(cs.last());
        lemma_utf8_prefix_concat(utf8_encode_all(init), utf8_encode(cs.last()));
    }
}

/// Converting UTF-32 text gives valid UTF-8 with one character per
/// character of the text (its byte-order mark not counted).
pub proof fn lemma_utf32_conversion_is_utf8(d: Seq<u8>, little_endian: bool)
    requires
        utf32_to_utf8(d, little_endian) is Ok,
    ensures
        utf8_valid(utf32_to_utf8(d, little_endian)->Ok_0),
        utf8_prefix(utf32_to_utf8(d, little_endian)->Ok_0).0 == utf32_chars(
            utf32_units(d, little_endian),
        ).len(),
{
    let units = utf32_units(d, little_endian);
    let cs = utf32_chars(units);
    assert forall|i: int| 0 <= i < cs.len() implies is_scalar_value(#[trigger] cs[i]) by {
        if units.len() > 0 && units[0] == 0xFEFF {
            assert(cs[i] == units[i + 1]);
        }
    }
    lemma_utf8_encode_all_valid(cs);
}


// ---------------------------------------------------------------------------
// Laws of conversion
// ---------------------------------------------------------------------------

/// The four bytes of the code unit `c`, lowest first when `little_endian`.
pub open spec fn utf32_unit_bytes(c: u32, little_endian: bool) -> Seq<u8> {
    let b0 = (c % 256) as u8;
    let b1 = ((c / 256) % 256) as u8;
    let b2 = ((c / 65536) % 256) as u8;
    let b3 = (c / 16777216) as u8;
    if little_endian {
        seq![b0, b1, b2, b3]
    } else {
        seq![b3, b2, b1, b0]
    }
}

/// The code units `cs` written as UTF-32 bytes.
pub open spec fn utf32_bytes(cs: Seq<u32>, little_endian: bool) -> Seq<u8> {
    Seq::new(4 * cs.len(), |j: int| utf32_unit_bytes(cs[j / 4], little_endian)[j % 4])
}

/// The UTF-32 encoding of the two byte orders.
pub open spec fn utf32_encoding(little_endian: bool) -> TextEncoding {
    if little_endian {
        TextEncoding::Utf32Le
    } else {
        TextEncoding::Utf32Be
    }
}

/// Reading back the four bytes of a code unit gives the unit.
proof fn lemma_unit_bytes_read_back(c: u32)
    ensures
        (c % 256) as int + ((c / 256) % 256) as int * 256 + ((c / 65536) % 256) as int * 65536 + (c
            / 16777216) as int * 16777216 == c as int,
        c / 16777216 < 256,
{
    let x = c as int;
    vstd::arithmetic::div_mod::lemma_fundamental_div_mod(x, 256);
    vstd::arithmetic::div_mod::lemma_fundamental_div_mod(x / 256, 256);
    vstd::arithmetic::div_mod::lemma_fundamental_div_mod(x / 65536, 256);
    vstd::arithmetic::div_mod::lemma_div_denominator(x, 256, 256);
    vstd::arithmetic::div_mod::lemma_div_denominator(x, 65536, 256);
}

/// The code units stored in UTF-32 bytes are the units written.
proof fn lemma_utf32_units_of_bytes(cs: Seq<u32>, little_endian: bool)
    ensures
        utf32_bytes(cs, little_endian).len() % 4 == 0,
        utf32_units(utf32_bytes(cs, little_endian), little_endian) == cs,
{
    let d = utf32_bytes(cs, little_endian);
    let n = cs.len() as int;
    assert((4 * n) % 4 == 0 && (4 * n) / 4 == n) by (nonlinear_arith);
    let units = utf32_units(d, little_endian);
    assert forall|i: int| 0 <= i < n implies #[trigger] units[i] == cs[i] by {
        assert((4 * i) / 4 == i && (4 * i) % 4 == 0) by (nonlinear_arith)
            requires
                0 <= i,
        ;
        assert((4 * i + 1) / 4 == i && (4 * i + 1) % 4 == 1) by (nonlinear_arith)
            requires
                0 <= i,
        ;
        assert((4 * i + 2) / 4 == i && (4 * i + 2) % 4 == 2) by (nonlinear_arith)
            requires
                0 <= i,
        ;
        assert((4 * i + 3) / 4 == i && (4 * i + 3) % 4 == 3) by (nonlinear_arith)
            requires
                0 <= i,
        ;
        assert(4 * i + 3 < 4 * n);
        let c = cs[i];
        let b = utf32_unit_bytes(c, little_endian);
        assert(d[4 * i] == b[0]);
        assert(d[4 * i + 1] == b[1]);
        assert(d[4 * i + 2] == b[2]);
        assert(d[4 * i + 3] == b[3]);
        lemma_unit_bytes_read_back(c);
    }
    assert(units =~= cs);
}

/// UTF-32 text made of Unicode scalar values converts to their UTF-8
/// encoding; a leading byte-order mark is stripped and never emitted.
pub proof fn lemma_utf32_round_trip(cs: Seq<u32>, little_endian: bool)
    requires
        forall|i: int| 0 <= i < cs.len() ==> is_scalar_value(#[trigger] cs[i]),
        cs.len() == 0 || cs[0] != 0xFEFF,
    ensures
        converted_to_utf8(utf32_bytes(cs, little_endian), utf32_encoding(little_endian)) == Ok::<
            Seq<u8>,
            (),
        >(utf8_encode_all(cs)),
        converted_to_utf8(
            utf32_bytes(seq![0xFEFFu32] + cs, little_endian),
            utf32_encoding(little_endian),
        ) == Ok::<Seq<u8>, ()>(utf8_encode_all(cs)),
{
    let with_bom = seq![0xFEFFu32] + cs;
    lemma_utf32_units_of_bytes(cs, little_endian);
    lemma_utf32_units_of_bytes(with_bom, little_endian);
    assert(utf32_chars(cs) == cs);
    assert(with_bom[0] == 0xFEFF);
    assert(utf32_chars(with_bom) =~= cs);
    assert forall|i: int| 0 <= i < with_bom.len() implies is_scalar_value(#[trigger] with_bom[i]) by {
        if i > 0 {
            assert(with_bom[i] == cs[i - 1]);
        }
    }
}

/// A UTF-16 byte-order mark in front of the text is stripped before the text
/// is decoded: the result is that of the text without it.
pub proof fn lemma_utf16_bom_stripped(u: Seq<u8>)
    requires
        !(u.len() >= 2 && u[0] == 0xFF && u[1] == 0xFE),
        !(u.len() >= 2 && u[0] == 0xFE && u[1] == 0xFF),
    ensures
        converted_to_utf8(seq![0xFFu8, 0xFEu8] + u, TextEncoding::Utf16Le) == converted_to_utf8(
            u,
            TextEncoding::Utf16Le,
        ),
        converted_to_utf8(seq![0xFEu8, 0xFFu8] + u, TextEncoding::Utf16Be) == converted_to_utf8(
            u,
            TextEncoding::Utf16Be,
        ),
{
    assert((seq![0xFFu8, 0xFEu8] + u).skip(2) =~= u);
    assert((seq![0xFEu8, 0xFFu8] + u).skip(2) =~= u);
}

/// Text in an encoding other than UTF-16 or UTF-32 is returned unchanged.
pub proof fn lemma_other_encodings_unchanged(d: Seq<u8>, encoding: TextEncoding)
    requires
        encoding == TextEncoding::Ascii || encoding == TextEncoding::Utf8 || encoding
            == TextEncoding::Unknown,
    ensures
        converted_to_utf8(d, encoding) == Ok::<Seq<u8>, ()>(d),
{
}

} // verus!
