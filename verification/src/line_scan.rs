//! The model of line scanning.
//!
//! A text is scanned from its first byte in steps of one code unit (one byte
//! in the byte-oriented modes, two or four bytes in the UTF-16 / UTF-32
//! modes). At each step the scanner asks whether a line ending starts there:
//! LF, CR LF or a lone CR, each written as code units of the mode. A line
//! ending is skipped whole; otherwise the scanner moves one code unit on (or
//! to the end of the text, when less than one unit is left).
//!
//! The breaks found this way determine the lines: the first line starts at
//! the beginning of the text, every later line right after a line ending,
//! and a line's length counts its bytes without the ending.
use vstd::prelude::*;
use crate::error::{unit_width, UtfMode};

verus! {

/// The code unit of mode `mode` at byte `pos` of `d` is the character `ch`
/// (for the byte modes: the byte at `pos` is `ch`; for little-endian modes:
/// `ch` followed by zero bytes; for big-endian modes: zero bytes followed by
/// `ch`).
pub open spec fn unit_is(d: Seq<u8>, pos: int, mode: UtfMode, ch: u8) -> bool {
    &&& 0 <= pos
    &&& pos + unit_width(mode) <= d.len()
    &&& match mode {
        UtfMode::Default | UtfMode::AutoDetect => d[pos] == ch,
        UtfMode::Utf16Le => d[pos] == ch && d[pos + 1] == 0,
        UtfMode::Utf16Be => d[pos] == 0 && d[pos + 1] == ch,
        UtfMode::Utf32Le => d[pos] == ch && d[pos + 1] == 0 && d[pos + 2] == 0 && d[pos + 3] == 0,
        UtfMode::Utf32Be => d[pos] == 0 && d[pos + 1] == 0 && d[pos + 2] == 0 && d[pos + 3] == ch,
    }
}

/// The line ending that starts at byte `pos` of `d`, as its length in bytes:
/// one unit for LF, two units for CR LF, one unit for a lone CR.
pub open spec fn newline_at(d: Seq<u8>, pos: int, mode: UtfMode) -> Option<int> {
    let w = unit_width(mode);
    if unit_is(d, pos, mode, 10) {
        Some(w)
    } else if unit_is(d, pos, mode, 13) {
        if unit_is(d, pos + w, mode, 10) {
            Some(2 * w)
        } else {
            Some(w)
        }
    } else {
        None
    }
}

/// How far the scanner moves at `pos` when no line ending starts there: one
/// code unit, or the rest of the text when less than a unit is left.
pub open spec fn scan_step(d: Seq<u8>, pos: int, mode: UtfMode) -> int {
    let w = unit_width(mode);
    if w <= d.len() - pos {
        w
    } else {
        d.len() - pos
    }
}

/// Scanning `d` from `pos` while the position is below `stop`: the line
/// endings found, as (position, length) pairs, and the position where the
/// scanner stops.
pub open spec fn scan_until(d: Seq<u8>, pos: int, stop: int, mode: UtfMode) -> (
    Seq<(int, int)>,
    int,
)
    decreases d.len() - pos,
{
    if pos < 0 || pos >= stop || pos >= d.len() {
        (Seq::empty(), pos)
    } else {
        match newline_at(d, pos, mode) {
            Some(n) => {
                let r = scan_until(d, pos + n, stop, mode);
                (seq![(pos, n)] + r.0, r.1)
            },
            None => scan_until(d, pos + scan_step(d, pos, mode), stop, mode),
        }
    }
}

/// All line endings of `d`, scanning from its start.
pub open spec fn breaks(d: Seq<u8>, mode: UtfMode) -> Seq<(int, int)> {
    scan_until(d, 0, d.len() as int, mode).0
}

/// Where the lines of `d` start, relative to its first byte. A text without
/// bytes has no lines.
pub open spec fn line_starts(d: Seq<u8>, mode: UtfMode) -> Seq<int> {
    if d.len() == 0 {
        Seq::empty()
    } else {
        let bs = breaks(d, mode);
        Seq::new(bs.len() + 1, |i: int| if i == 0 { 0 } else { bs[i - 1].0 + bs[i - 1].1 })
    }
}

/// The length of every line of `d`, without its line ending.
pub open spec fn line_lengths(d: Seq<u8>, mode: UtfMode) -> Seq<int> {
    if d.len() == 0 {
        Seq::empty()
    } else {
        let bs = breaks(d, mode);
        let st = line_starts(d, mode);
        Seq::new(
            bs.len() + 1,
            |i: int|
                if i < bs.len() {
                    bs[i].0 - st[i]
                } else {
                    d.len() - st[i]
                },
        )
    }
}

/// The line starts of `d` as file positions, when `d` begins at file
/// position `base`.
pub open spec fn line_positions(d: Seq<u8>, base: int, mode: UtfMode) -> Seq<int> {
    line_starts(d, mode).map_values(|s: int| s + base)
}

// ---------------------------------------------------------------------------
// Basic facts
// ---------------------------------------------------------------------------

pub proof fn lemma_newline_len(d: Seq<u8>, pos: int, mode: UtfMode)
    ensures
        newline_at(d, pos, mode) matches Some(n) ==> (n == unit_width(mode) || n == 2
            * unit_width(mode)) && 0 <= pos && pos + n <= d.len(),
{
}

pub proof fn lemma_step_positive(d: Seq<u8>, pos: int, mode: UtfMode)
    requires
        0 <= pos < d.len(),
    ensures
        1 <= scan_step(d, pos, mode) <= d.len() - pos,
{
}

/// The scan result: the endings found lie at increasing positions from
/// `pos`, each within the text, and the scanner stops at or after `stop`
/// (or at the end of the text), no later than the end of the text.
pub proof fn lemma_scan_until_shape(d: Seq<u8>, pos: int, stop: int, mode: UtfMode)
    requires
        0 <= pos <= d.len(),
    ensures
        ({
            let r = scan_until(d, pos, stop, mode);
            &&& pos <= r.1 <= d.len()
            &&& (r.1 >= stop || r.1 == d.len())
            &&& forall|i: int|
                0 <= i < r.0.len() ==> pos <= (#[trigger] r.0[i]).0 && r.0[i].1 >= 1 && r.0[i].0
                    + r.0[i].1 <= r.1
            &&& forall|i: int, j: int|
                0 <= i < j < r.0.len() ==> (#[trigger] r.0[i]).0 + r.0[i].1 <= (#[trigger] r.0[j]).0
            &&& forall|i: int|
                0 <= i < r.0.len() ==> newline_at(d, (#[trigger] r.0[i]).0, mode) == Some(r.0[i].1)
        }),
    decreases d.len() - pos,
{
    if pos >= stop || pos >= d.len() {
    } else {
        match newline_at(d, pos, mode) {
            Some(n) => {
                lemma_newline_len(d, pos, mode);
                lemma_scan_until_shape(d, pos + n, stop, mode);
                let r = scan_until(d, pos + n, stop, mode);
                let s = seq![(pos, n)] + r.0;
                assert forall|i: int| 0 <= i < s.len() implies newline_at(d, (#[trigger] s[i]).0, mode)
                    == Some(s[i].1) by {
                    if i > 0 {
                        assert(s[i] == r.0[i - 1]);
                    }
                }
                assert forall|i: int, j: int| 0 <= i < j < s.len() implies (#[trigger] s[i]).0
                    + s[i].1 <= (#[trigger] s[j]).0 by {
                    if i > 0 {
                        assert(s[i] == r.0[i - 1]);
                    }
                    assert(s[j] == r.0[j - 1]);
                }
                assert forall|i: int| 0 <= i < s.len() implies pos <= (#[trigger] s[i]).0
                    && s[i].1 >= 1 && s[i].0 + s[i].1 <= r.1 by {
                    if i > 0 {
                        assert(s[i] == r.0[i - 1]);
                    }
                }
            },
            None => {
                lemma_step_positive(d, pos, mode);
                lemma_scan_until_shape(d, pos + scan_step(d, pos, mode), stop, mode);
            },
        }
    }
}

/// Scanning in two legs: stopping at `stop1` and resuming from there gives
/// the same endings as scanning straight on to `stop2`.
pub proof fn lemma_scan_until_split(d: Seq<u8>, pos: int, stop1: int, stop2: int, mode: UtfMode)
    requires
        0 <= pos <= d.len(),
        stop1 <= stop2,
    ensures
        ({
            let a = scan_until(d, pos, stop1, mode);
            let b = scan_until(d, a.1, stop2, mode);
            let c = scan_until(d, pos, stop2, mode);
            a.0 + b.0 == c.0 && b.1 == c.1
        }),
    decreases d.len() - pos,
{
    if pos >= stop1 || pos >= d.len() {
        assert(Seq::<(int, int)>::empty() + scan_until(d, pos, stop2, mode).0 == scan_until(
            d,
            pos,
            stop2,
            mode,
        ).0);
    } else {
        match newline_at(d, pos, mode) {
            Some(n) => {
                lemma_newline_len(d, pos, mode);
                lemma_scan_until_split(d, pos + n, stop1, stop2, mode);
                let a = scan_until(d, pos + n, stop1, mode);
                let b = scan_until(d, a.1, stop2, mode);
                assert(seq![(pos, n)] + a.0 + b.0 == seq![(pos, n)] + (a.0 + b.0));
            },
            None => {
                lemma_step_positive(d, pos, mode);
                lemma_scan_until_split(d, pos + scan_step(d, pos, mode), stop1, stop2, mode);
            },
        }
    }
}

/// The line endings `bs` moved `a` bytes further into the text.
pub open spec fn shift_breaks(bs: Seq<(int, int)>, a: int) -> Seq<(int, int)> {
    bs.map_values(|b: (int, int)| (b.0 + a, b.1))
}

/// A scan finds at most one line ending per byte it passes.
pub proof fn lemma_scan_until_count(d: Seq<u8>, pos: int, stop: int, mode: UtfMode)
    requires
        0 <= pos <= d.len(),
    ensures
        scan_until(d, pos, stop, mode).0.len() <= scan_until(d, pos, stop, mode).1 - pos,
    decreases d.len() - pos,
{
    if pos >= stop || pos >= d.len() {
    } else {
        match newline_at(d, pos, mode) {
            Some(n) => {
                lemma_newline_len(d, pos, mode);
                lemma_scan_until_count(d, pos + n, stop, mode);
            },
            None => {
                lemma_step_positive(d, pos, mode);
                lemma_scan_until_count(d, pos + scan_step(d, pos, mode), stop, mode);
            },
        }
    }
}

/// A code unit read inside the part `s` of `d` that starts at `a` is the
/// code unit read in `d`, provided the unit lies within `s`, or `s` runs to
/// the end of `d`.
proof fn lemma_unit_in_part(d: Seq<u8>, a: int, b: int, q: int, mode: UtfMode, ch: u8)
    requires
        0 <= a <= b <= d.len(),
        0 <= q,
        b == d.len() || q + unit_width(mode) <= b - a,
    ensures
        unit_is(d.subrange(a, b), q, mode, ch) == unit_is(d, a + q, mode, ch),
{
    let s = d.subrange(a, b);
    let w = unit_width(mode);
    if q + w <= b - a {
        assert(s[q] == d[a + q]);
        assert(w >= 2 ==> s[q + 1] == d[a + q + 1]);
        assert(w >= 4 ==> s[q + 2] == d[a + q + 2] && s[q + 3] == d[a + q + 3]);
    }
}

/// Scanning the part `d[a..b]` of a text gives the line endings that
/// scanning the whole text finds there, provided every ending is decided
/// within the part: the part runs to the end of the text, or the scan stops
/// at least `2 * unit - 1` bytes before the part's end (a line ending spans
/// at most two code units).
pub proof fn lemma_scan_window(d: Seq<u8>, a: int, b: int, q: int, stop: int, mode: UtfMode)
    requires
        0 <= a <= b <= d.len(),
        0 <= q,
        stop <= b - a,
        b == d.len() || stop + 2 * unit_width(mode) - 1 <= b - a,
    ensures
        ({
            let s = scan_until(d.subrange(a, b), q, stop, mode);
            let t = scan_until(d, a + q, a + stop, mode);
            &&& s.1 + a == t.1
            &&& shift_breaks(s.0, a) == t.0
        }),
    decreases b - a - q,
{
    let p = d.subrange(a, b);
    let w = unit_width(mode);
    if q >= stop || q >= p.len() {
        assert(shift_breaks(Seq::<(int, int)>::empty(), a) =~= Seq::<(int, int)>::empty());
    } else {
        lemma_unit_in_part(d, a, b, q, mode, 10);
        lemma_unit_in_part(d, a, b, q, mode, 13);
        lemma_unit_in_part(d, a, b, q + w, mode, 10);
        assert(newline_at(p, q, mode) == newline_at(d, a + q, mode));
        assert(scan_step(p, q, mode) == scan_step(d, a + q, mode));
        match newline_at(p, q, mode) {
            Some(n) => {
                lemma_newline_len(p, q, mode);
                lemma_scan_window(d, a, b, q + n, stop, mode);
                let s1 = scan_until(p, q + n, stop, mode);
                assert(shift_breaks(seq![(q, n)] + s1.0, a) =~= seq![(a + q, n)] + shift_breaks(
                    s1.0,
                    a,
                ));
            },
            None => {
                lemma_step_positive(p, q, mode);
                lemma_scan_window(d, a, b, q + scan_step(p, q, mode), stop, mode);
            },
        }
    }
}

/// The lines of a text tile it: the first starts at 0, each ends where a
/// line ending starts and the next line starts right after that ending, and
/// the last ends at the end of the text.
pub proof fn lemma_lines_tile(d: Seq<u8>, mode: UtfMode)
    requires
        d.len() > 0,
    ensures
        ({
            let s = line_starts(d, mode);
            let l = line_lengths(d, mode);
            &&& s.len() == l.len()
            &&& s.len() >= 1
            &&& s[0] == 0
            &&& forall|i: int| 0 <= i < l.len() ==> 0 <= #[trigger] l[i]
            &&& forall|i: int|
                0 <= i < s.len() - 1 ==> s[i] + l[i] < s[i + 1] && newline_at(
                    d,
                    #[trigger] (s[i] + l[i]),
                    mode,
                ) == Some(s[i + 1] - (s[i] + l[i]))
            &&& s[s.len() - 1] + l[s.len() - 1] == d.len()
        }),
{
    let bs = breaks(d, mode);
    let s = line_starts(d, mode);
    let l = line_lengths(d, mode);
    lemma_scan_until_shape(d, 0, d.len() as int, mode);
    assert forall|i: int| 0 <= i < bs.len() implies s[i] <= (#[trigger] bs[i]).0 by {
        if i > 0 {
            assert(bs[i - 1].0 + bs[i - 1].1 <= bs[i].0);
        }
    }
    assert forall|i: int| 0 <= i < l.len() implies 0 <= #[trigger] l[i] by {
        if i < bs.len() {
            assert(s[i] <= bs[i].0);
        } else if i > 0 {
            assert(bs[i - 1].0 + bs[i - 1].1 <= d.len());
        }
    }
    assert forall|i: int| 0 <= i < s.len() - 1 implies s[i] + l[i] < s[i + 1] && newline_at(
        d,
        #[trigger] (s[i] + l[i]),
        mode,
    ) == Some(s[i + 1] - (s[i] + l[i])) by {
        assert(s[i] + l[i] == bs[i].0);
        assert(s[i + 1] == bs[i].0 + bs[i].1);
    }
}

/// In byte mode the scan looks at every byte it passes: a line ending that
/// starts at a byte passed lies within one of the endings found.
proof fn lemma_byte_scan_finds_all(d: Seq<u8>, pos: int, stop: int, q: int)
    requires
        0 <= pos <= q,
        q < scan_until(d, pos, stop, UtfMode::Default).1,
        newline_at(d, q, UtfMode::Default) is Some,
    ensures
        ({
            let r = scan_until(d, pos, stop, UtfMode::Default);
            exists|k: int| 0 <= k < r.0.len() && (#[trigger] r.0[k]).0 <= q < r.0[k].0 + r.0[k].1
        }),
    decreases d.len() - pos,
{
    let m = UtfMode::Default;
    if pos >= stop || pos >= d.len() {
    } else {
        match newline_at(d, pos, m) {
            Some(n) => {
                let rest = scan_until(d, pos + n, stop, m);
                let r = scan_until(d, pos, stop, m);
                assert(r.0 == seq![(pos, n)] + rest.0);
                if q < pos + n {
                    assert(r.0[0] == (pos, n));
                } else {
                    lemma_byte_scan_finds_all(d, pos + n, stop, q);
                    let k = choose|k: int|
                        0 <= k < rest.0.len() && (#[trigger] rest.0[k]).0 <= q < rest.0[k].0
                            + rest.0[k].1;
                    assert(r.0[k + 1] == rest.0[k]);
                }
            },
            None => {
                lemma_byte_scan_finds_all(d, pos + 1, stop, q);
            },
        }
    }
}

/// In byte mode no line contains a CR or LF byte: every byte between a
/// line's start and its end is neither.
pub proof fn lemma_byte_lines_hold_no_newline(d: Seq<u8>, i: int, p: int)
    requires
        d.len() > 0,
        0 <= i < line_starts(d, UtfMode::Default).len(),
        line_starts(d, UtfMode::Default)[i] <= p < line_starts(d, UtfMode::Default)[i]
            + line_lengths(d, UtfMode::Default)[i],
    ensures
        d[p] != 10u8,
        d[p] != 13u8,
{
    let m = UtfMode::Default;
    let bs = breaks(d, m);
    let s = line_starts(d, m);
    let l = line_lengths(d, m);
    let r = scan_until(d, 0, d.len() as int, m);
    lemma_scan_until_shape(d, 0, d.len() as int, m);
    lemma_lines_tile(d, m);
    assert(0 <= p < d.len());
    if newline_at(d, p, m) is Some {
        lemma_byte_scan_finds_all(d, 0, d.len() as int, p);
        let k = choose|k: int| 0 <= k < bs.len() && (#[trigger] bs[k]).0 <= p < bs[k].0 + bs[k].1;
        if k < i {
            assert(bs[k].0 + bs[k].1 <= bs[i - 1].0 + bs[i - 1].1) by {
                if k < i - 1 {
                    assert(bs[k].0 + bs[k].1 <= bs[i - 1].0);
                }
            }
        } else if i < bs.len() {
            assert(s[i] + l[i] == bs[i].0);
            if k > i {
                assert(bs[i].0 + bs[i].1 <= bs[k].0);
            }
        }
    }
}

} // verus!
