//! Building a line index from consecutive windows of a file.
//!
//! The file is read window by window through a reader supplied by the
//! caller. Bytes are scanned as soon as every line ending that can start at
//! them is fully visible: a few bytes at the end of each window are kept
//! back until the next window arrives, so that a CR LF pair, or a line
//! ending written in two- or four-byte code units, is recognised even when a
//! window boundary falls inside it. The result is the index of the text that
//! the windows make up.
use vstd::prelude::*;
use std::sync::atomic::AtomicBool;
use crate::error::{unit_width, UtfMode};
use crate::line_index::{
    cancel_flag_set, lengths_before, lemma_full_scan_lines, ls_old_value, max_lines, starts_after,
    LineIndex,
};
use crate::line_scan::{
    breaks, lemma_scan_until_count, line_lengths, line_positions, line_starts, lemma_scan_until_shape, lemma_scan_until_split,
    lemma_scan_window, scan_until, shift_breaks,
};

verus! {

/// The reader, asked for `w.len()` bytes at file position `off`, can hand
/// out `w`.
pub open spec fn reads_window<F: Fn(u64, u64) -> Option<Vec<u8>>>(
    f: F,
    off: int,
    w: Seq<u8>,
) -> bool {
    exists|v: Vec<u8>| #[trigger] f.ensures((off as u64, w.len() as u64), Some(v)) && v@ == w
}

/// `d`, a text that starts at file position `off`, is what the reader hands
/// out when asked for consecutive windows of `cs` bytes (the last one
/// shorter).
#[verifier::opaque]
pub open spec fn read_in_windows<F: Fn(u64, u64) -> Option<Vec<u8>>>(
    f: F,
    d: Seq<u8>,
    off: int,
    cs: int,
) -> bool
    decreases d.len(),
{
    if d.len() == 0 {
        true
    } else if cs <= 0 {
        false
    } else {
        let l = if cs < d.len() {
            cs
        } else {
            d.len() as int
        };
        reads_window(f, off, d.subrange(0, l)) && read_in_windows(
            f,
            d.subrange(l, d.len() as int),
            off + l,
            cs,
        )
    }
}

/// The window size used for a requested chunk size: at least one byte.
pub open spec fn window_size(chunk_size: u64) -> int {
    if chunk_size == 0 {
        1
    } else {
        chunk_size as int
    }
}

/// Bytes kept back at the end of a window: one less than the longest line
/// ending (two code units).
pub open spec fn retain_len(mode: UtfMode) -> int {
    2 * unit_width(mode) - 1
}

/// [`retain_len`] for `mode`.
fn boundary_retain_len(mode: UtfMode) -> (r: usize)
    ensures
        r == retain_len(mode),
{
    match mode {
        UtfMode::Default | UtfMode::AutoDetect => 1,
        UtfMode::Utf16Le | UtfMode::Utf16Be => 3,
        UtfMode::Utf32Le | UtfMode::Utf32Be => 7,
    }
}

/// Appending a full-sized window's successor to a text read in full windows.
proof fn lemma_read_in_windows_push<F: Fn(u64, u64) -> Option<Vec<u8>>>(
    f: F,
    r: Seq<u8>,
    w: Seq<u8>,
    off: int,
    cs: int,
    k: nat,
)
    requires
        cs >= 1,
        r.len() == k * cs,
        read_in_windows(f, r, off, cs),
        reads_window(f, off + r.len(), w),
        1 <= w.len() <= cs,
    ensures
        read_in_windows(f, r + w, off, cs),
    decreases k,
{
    reveal(read_in_windows);
    let rw = r + w;
    if k == 0 {
        assert(r.len() == 0) by (nonlinear_arith)
            requires
                r.len() == k * cs,
                k == 0,
        ;
        assert(rw =~= w);
        assert(rw.subrange(0, w.len() as int) =~= w);
        assert(rw.subrange(w.len() as int, rw.len() as int) =~= Seq::<u8>::empty());
        assert(read_in_windows(f, Seq::<u8>::empty(), off + w.len(), cs));
    } else {
        assert(k * cs >= cs) by (nonlinear_arith)
            requires
                k >= 1,
                cs >= 1,
        ;
        assert((k - 1) * cs == k * cs - cs) by (nonlinear_arith);
        let rest = r.subrange(cs, r.len() as int);
        assert(r.subrange(0, cs) == rw.subrange(0, cs));
        lemma_read_in_windows_push(f, rest, w, off + cs, cs, (k - 1) as nat);
        assert(rw.subrange(cs, rw.len() as int) =~= rest + w);
    }
}

/// What the windowed scan has done so far: scanning the text read up to
/// `stop` found the line endings the index holds and reached `scan`.
#[verifier::opaque]
spec fn scan_state_ok(
    index: &LineIndex,
    read: Seq<u8>,
    start: int,
    stop: int,
    scan: int,
    line_start: int,
    mode: UtfMode,
) -> bool {
    let sc = scan_until(read, 0, stop, mode);
    &&& index.well_formed()
    &&& !index.scanned()
    &&& 0 <= stop <= read.len()
    &&& sc.1 == scan - start
    &&& index.offsets() == seq![start] + starts_after(sc.0, start)
    &&& index.lengths() == lengths_before(sc.0, start, start)
    &&& line_start == ls_old_value(sc.0, start, start)
    &&& line_start <= scan
}

/// The plain facts a scan state gives.
proof fn lemma_state_facts(
    index: &LineIndex,
    read: Seq<u8>,
    start: int,
    stop: int,
    scan: int,
    ls: int,
    mode: UtfMode,
)
    requires
        scan_state_ok(index, read, start, stop, scan, ls, mode),
    ensures
        index.well_formed(),
        !index.scanned(),
        index.offsets().len() > 0,
        index.offsets().last() == ls,
        index.lengths().len() + 1 == index.offsets().len(),
        index.offsets().len() <= 1 + (scan - start),
        ls <= scan,
        0 <= stop <= read.len(),
        scan - start <= read.len(),
        scan - start == scan_until(read, 0, stop, mode).1,
        stop < read.len() ==> stop <= scan - start,
{
    reveal(scan_state_ok);
    let sc = scan_until(read, 0, stop, mode);
    lemma_scan_until_count(read, 0, stop, mode);
    lemma_scan_until_shape(read, 0, stop, mode);
    if sc.0.len() > 0 {
        assert(index.offsets().last() == starts_after(sc.0, start).last());
    }
}

/// More text read after a scan state that stopped far enough before the end
/// of what was read leaves the state as it is.
proof fn lemma_state_extend(
    index: &LineIndex,
    read: Seq<u8>,
    more: Seq<u8>,
    start: int,
    stop: int,
    scan: int,
    ls: int,
    mode: UtfMode,
)
    requires
        scan_state_ok(index, read, start, stop, scan, ls, mode),
        stop == 0 || stop + retain_len(mode) <= read.len(),
    ensures
        scan_state_ok(index, read + more, start, stop, scan, ls, mode),
{
    reveal(scan_state_ok);
    let all = read + more;
    if stop > 0 {
        lemma_scan_window(all, 0, read.len() as int, 0, stop, mode);
        assert(all.subrange(0, read.len() as int) =~= read);
        let sc = scan_until(read, 0, stop, mode);
        assert(shift_breaks(sc.0, 0) =~= sc.0);
    }
}

/// A round of the windowed scan moves the scan state on.
proof fn lemma_state_advance(
    before: &LineIndex,
    after: &LineIndex,
    read: Seq<u8>,
    start: int,
    stop: int,
    scan: int,
    ls: int,
    p: int,
    pl: int,
    last: bool,
    new_pos: int,
    new_ls: int,
    mode: UtfMode,
) -> (new_stop: int)
    requires
        scan_state_ok(before, read, start, stop, scan, ls, mode),
        0 <= start,
        0 <= p <= scan - start,
        stop < read.len(),
        stop == 0 || stop + retain_len(mode) <= read.len(),
        0 <= pl <= read.len() - p,
        last ==> pl == read.len() - p,
        !last ==> (pl == 0 || p + pl + retain_len(mode) <= read.len()),
        after.well_formed(),
        !after.scanned(),
        ({
            let sc_new = scan_until(read.subrange(p, read.len() as int), scan - start - p, pl, mode);
            &&& new_pos == sc_new.1
            &&& after.offsets() == before.offsets() + starts_after(sc_new.0, start + p)
            &&& after.lengths() == before.lengths() + lengths_before(sc_new.0, start + p, ls)
        }),
        after.offsets().last() == new_ls,
        new_ls <= start + p + new_pos,
    ensures
        scan_state_ok(after, read, start, new_stop, start + p + new_pos, new_ls, mode),
        !last ==> (new_stop == 0 || new_stop + retain_len(mode) <= read.len()),
        last ==> new_stop == read.len(),
{
    lemma_state_facts(before, read, start, stop, scan, ls, mode);
    reveal(scan_state_ok);
    let q0 = scan - start - p;
    let sc_read = scan_until(read, 0, stop, mode);
    let sc_new = scan_until(read.subrange(p, read.len() as int), q0, pl, mode);
    let ns = lemma_window_scanned(read, start, stop, p, q0, pl, last, mode);
    lemma_append_breaks(sc_read.0, sc_new.0, start, start + p, ls);
    let whole = scan_until(read, 0, ns, mode);
    assert(whole.0 == sc_read.0 + shift_breaks(sc_new.0, p));
    assert(after.offsets() == seq![start] + starts_after(whole.0, start));
    let o = after.offsets();
    if whole.0.len() > 0 {
        assert(o.last() == starts_after(whole.0, start).last());
    } else {
        assert(o =~= seq![start]);
    }
    ns
}

/// Recording the endings `b` found in a part that starts at file position
/// `base` after the endings `a` found before it gives the lines of all
/// endings together.
proof fn lemma_append_breaks(a: Seq<(int, int)>, b: Seq<(int, int)>, start: int, base: int, ls: int)
    requires
        ls == ls_old_value(a, start, start),
    ensures
        ({
            let all = a + shift_breaks(b, base - start);
            &&& seq![start] + starts_after(all, start) == seq![start] + starts_after(a, start)
                + starts_after(b, base)
            &&& lengths_before(all, start, start) == lengths_before(a, start, start)
                + lengths_before(b, base, ls)
            &&& ls_old_value(all, start, start) == ls_old_value(b, base, ls)
        }),
{
    let all = a + shift_breaks(b, base - start);
    assert(starts_after(all, start) =~= starts_after(a, start) + starts_after(b, base));
    assert(seq![start] + starts_after(all, start) =~= seq![start] + starts_after(a, start)
        + starts_after(b, base));
    assert(lengths_before(all, start, start) =~= lengths_before(a, start, start) + lengths_before(
        b,
        base,
        ls,
    ));
    if b.len() > 0 {
        assert(all.last() == shift_breaks(b, base - start).last());
    } else {
        assert(all =~= a);
    }
}

/// One round of the windowed scan: scanning the pending part of the text
/// read so far, which starts `p` bytes in, from where the scan stood to
/// `pl`, continues the scan of the whole text read so far; the round's stop
/// is again far enough before the end of what was read, or is its end once
/// the last window has come.
proof fn lemma_window_scanned(
    read: Seq<u8>,
    start: int,
    stop: int,
    p: int,
    q0: int,
    pl: int,
    last: bool,
    mode: UtfMode,
) -> (new_stop: int)
    requires
        0 <= p,
        0 <= q0,
        p + q0 <= read.len(),
        0 <= stop < read.len(),
        stop == 0 || stop + retain_len(mode) <= read.len(),
        p + q0 == scan_until(read, 0, stop, mode).1,
        0 <= pl <= read.len() - p,
        last ==> pl == read.len() - p,
        !last ==> (pl == 0 || p + pl + retain_len(mode) <= read.len()),
    ensures
        ({
            let sc_new = scan_until(read.subrange(p, read.len() as int), q0, pl, mode);
            let n = scan_until(read, 0, new_stop, mode);
            &&& n.0 == scan_until(read, 0, stop, mode).0 + shift_breaks(sc_new.0, p)
            &&& n.1 == p + sc_new.1
            &&& 0 <= new_stop <= read.len()
            &&& !last ==> (new_stop == 0 || new_stop + retain_len(mode) <= read.len())
            &&& last ==> new_stop == read.len()
        }),
{
    let part = read.subrange(p, read.len() as int);
    let sc_new = scan_until(part, q0, pl, mode);
    lemma_scan_window(read, p, read.len() as int, q0, pl, mode);
    let t = scan_until(read, p + q0, p + pl, mode);
    lemma_scan_until_shape(read, 0, stop, mode);
    lemma_scan_until_shape(part, q0, pl, mode);
    if p + pl > stop && (last || pl > 0) {
        lemma_scan_until_split(read, 0, stop, p + pl, mode);
        p + pl
    } else {
        // the scan already stands at or beyond the new stop
        assert(t.0.len() == 0);
        assert(shift_breaks(sc_new.0, p).len() == sc_new.0.len());
        assert(sc_new.0.len() == 0);
        assert(shift_breaks(sc_new.0, p) =~= Seq::<(int, int)>::empty());
        assert(scan_until(read, 0, stop, mode).0 + shift_breaks(sc_new.0, p) =~= scan_until(
            read,
            0,
            stop,
            mode,
        ).0);
        stop
    }
}

/// A scan of the file bytes from `start` to `file_size`, fed one window at
/// a time. The index being built holds, between windows, the lines found so
/// far: every line before the current one with its length, and the start of
/// the current one.
pub struct WindowScan {
    start: u64,
    file_size: u64,
    window: u64,
    retain: usize,
    mode: UtfMode,
    line_start: u64,
    scan_abs: u64,
    cursor: u64,
    pending_base: u64,
    pending: Vec<u8>,
    read: Ghost<Seq<u8>>,
    stop: Ghost<int>,
}

impl WindowScan {
    /// The bytes fed so far.
    pub closed spec fn text(&self) -> Seq<u8> {
        self.read@
    }

    /// Where the scanned text starts in the file.
    pub closed spec fn start_pos(&self) -> int {
        self.start as int
    }

    /// Where the scanned text ends in the file.
    pub closed spec fn end_pos(&self) -> int {
        self.file_size as int
    }

    /// The file position of the next window.
    pub closed spec fn at(&self) -> int {
        self.cursor as int
    }

    /// The size of a full window.
    pub closed spec fn window_len(&self) -> int {
        self.window as int
    }

    /// The text mode of the scan.
    pub closed spec fn scan_mode(&self) -> UtfMode {
        self.mode
    }

    /// The window asked for next: `window_len` bytes at `at`, fewer at the
    /// end of the text; none once the text is complete.
    pub open spec fn next_request(&self) -> Option<(int, int)> {
        if self.at() < self.end_pos() {
            Some(
                (
                    self.at(),
                    if self.window_len() < self.end_pos() - self.at() {
                        self.window_len()
                    } else {
                        self.end_pos() - self.at()
                    },
                ),
            )
        } else {
            None
        }
    }

    /// The scan and the index being built agree: the index holds the lines
    /// found in the bytes fed so far, up to a point far enough before their
    /// end that later bytes cannot change them.
    pub closed spec fn inv(&self, index: &LineIndex) -> bool {
        &&& self.parts_ok(index)
        &&& self.cursor < self.file_size ==> (self.stop@ == 0 || self.stop@ + retain_len(self.mode)
            <= self.read@.len())
        &&& self.cursor == self.file_size ==> self.stop@ == self.read@.len()
    }

    /// A window has been taken in but not yet scanned.
    spec fn taken_in(&self, index: &LineIndex) -> bool {
        &&& self.parts_ok(index)
        &&& self.stop@ < self.read@.len()
        &&& self.stop@ == 0 || self.stop@ + retain_len(self.mode) <= self.read@.len()
    }

    /// What holds between windows and while a window is taken in.
    spec fn parts_ok(&self, index: &LineIndex) -> bool {
        let start = self.start as int;
        &&& self.start < self.file_size <= i64::MAX
        &&& self.window >= 1
        &&& self.retain == retain_len(self.mode)
        &&& self.start <= self.pending_base <= self.scan_abs <= self.cursor <= self.file_size
        &&& self.read@.len() == self.cursor - self.start
        &&& self.pending@ == self.read@.subrange(self.pending_base - start, self.read@.len() as int)
        &&& scan_state_ok(
            index,
            self.read@,
            start,
            self.stop@,
            self.scan_abs as int,
            self.line_start as int,
            self.mode,
        )
    }

    /// The agreement holds for any index with the same lines.
    pub proof fn lemma_inv_same_lines(&self, a: &LineIndex, b: &LineIndex)
        requires
            self.inv(a),
            b.well_formed(),
            !b.scanned(),
            a.offsets() == b.offsets(),
            a.lengths() == b.lengths(),
        ensures
            self.inv(b),
    {
        reveal(scan_state_ok);
    }

    /// What the agreement says of the bytes fed and the index.
    pub proof fn lemma_inv_facts(&self, index: &LineIndex)
        requires
            self.inv(index),
        ensures
            self.text().len() == self.at() - self.start_pos(),
            self.start_pos() <= self.at() <= self.end_pos(),
            self.start_pos() < self.end_pos() <= i64::MAX,
            self.window_len() >= 1,
            index.well_formed(),
            !index.scanned(),
            index.offsets().len() >= 1,
            index.offsets()[0] == self.start_pos(),
    {
        reveal(scan_state_ok);
        lemma_state_facts(
            index,
            self.read@,
            self.start as int,
            self.stop@,
            self.scan_abs as int,
            self.line_start as int,
            self.mode,
        );
    }

    /// The lines found so far are lines of the whole text: whatever bytes
    /// `rest` complete the text, the line starts and lengths the index holds
    /// begin the line starts and lengths of the complete text.
    pub proof fn lemma_lines_so_far(&self, index: &LineIndex, rest: Seq<u8>)
        requires
            self.inv(index),
            rest.len() == self.end_pos() - self.at(),
        ensures
            index.offsets().is_prefix_of(
                line_positions(self.text() + rest, self.start_pos(), self.scan_mode()),
            ),
            index.lengths().is_prefix_of(line_lengths(self.text() + rest, self.scan_mode())),
    {
        let read = self.read@;
        let start = self.start as int;
        let mode = self.mode;
        let all = read + rest;
        lemma_state_facts(
            index,
            read,
            start,
            self.stop@,
            self.scan_abs as int,
            self.line_start as int,
            mode,
        );
        if self.cursor < self.file_size {
            lemma_state_extend(
                index,
                read,
                rest,
                start,
                self.stop@,
                self.scan_abs as int,
                self.line_start as int,
                mode,
            );
        } else {
            assert(all =~= read);
        }
        reveal(scan_state_ok);
        let stop = self.stop@;
        let a = scan_until(all, 0, stop, mode);
        let b = scan_until(all, a.1, all.len() as int, mode);
        lemma_scan_until_split(all, 0, stop, all.len() as int, mode);
        let bs = breaks(all, mode);
        assert(a.0 + b.0 == bs);
        assert(all.len() > 0);
        let pos = line_positions(all, start, mode);
        let lens = line_lengths(all, mode);
        let st = line_starts(all, mode);
        let o = index.offsets();
        let l = index.lengths();
        assert(o.len() == a.0.len() + 1);
        assert forall|i: int| 0 <= i < o.len() implies o[i] == pos[i] by {
            if i > 0 {
                assert(a.0[i - 1] == bs[i - 1]);
            }
        }
        assert(o =~= pos.subrange(0, o.len() as int));
        assert forall|i: int| 0 <= i < l.len() implies l[i] == lens[i] by {
            assert(a.0[i] == bs[i]);
            if i > 0 {
                assert(a.0[i - 1] == bs[i - 1]);
            }
        }
        assert(l =~= lens.subrange(0, l.len() as int));
    }

    /// Starts a scan of the file bytes from `start_offset` to `file_size` in
    /// windows of `chunk_size` bytes (at least one): the index is emptied
    /// and records the first line's start.
    pub fn begin(
        index: &mut LineIndex,
        start_offset: u64,
        file_size: u64,
        chunk_size: u64,
        utf_mode: UtfMode,
    ) -> (r: WindowScan)
        requires
            start_offset < file_size <= i64::MAX,
        ensures
            r.inv(final(index)),
            r.text() == Seq::<u8>::empty(),
            r.start_pos() == start_offset,
            r.end_pos() == file_size,
            r.at() == start_offset,
            r.window_len() == window_size(chunk_size),
            r.scan_mode() == utf_mode,
            final(index).offsets() == seq![start_offset as int],
            final(index).lengths() == Seq::<int>::empty(),
    {
        index.clear();
        index.add_line(start_offset);
        let window: u64 = if chunk_size == 0 {
            1
        } else {
            chunk_size
        };
        let r = WindowScan {
            start: start_offset,
            file_size,
            window,
            retain: boundary_retain_len(utf_mode),
            mode: utf_mode,
            line_start: start_offset,
            scan_abs: start_offset,
            cursor: start_offset,
            pending_base: start_offset,
            pending: Vec::new(),
            read: Ghost(Seq::empty()),
            stop: Ghost(0),
        };
        proof {
            let start = start_offset as int;
            let read = Seq::<u8>::empty();
            assert(r.pending@ =~= read.subrange(0, 0));
            assert(starts_after(Seq::<(int, int)>::empty(), start) =~= Seq::<int>::empty());
            assert(lengths_before(Seq::<(int, int)>::empty(), start, start) =~= Seq::<int>::empty());
            assert(index.offsets() =~= seq![start]);
            assert(index.lengths() =~= Seq::<int>::empty());
            assert(scan_until(read, 0, 0, utf_mode).0 =~= Seq::<(int, int)>::empty());
            assert(scan_state_ok(index, read, start, 0, start, start, utf_mode)) by {
                reveal(scan_state_ok);
                assert(index.offsets() == seq![start] + starts_after(Seq::<(int, int)>::empty(), start));
            }
        }
        r
    }

    /// The window to read next, as (file position, length).
    pub fn next_window(&self) -> (r: Option<(u64, u64)>)
        ensures
            r matches Some(w) ==> self.next_request() == Some((w.0 as int, w.1 as int)),
            r is None ==> self.next_request() is None,
    {
        if self.cursor < self.file_size {
            let len = if self.window < self.file_size - self.cursor {
                self.window
            } else {
                self.file_size - self.cursor
            };
            Some((self.cursor, len))
        } else {
            None
        }
    }

    /// Feeds the window asked for next and scans every byte of it that no
    /// later byte can affect; the last window is scanned whole. Returns
    /// `false`, leaving the index to be discarded, when `window` is not the
    /// length asked for, when `cancel` is set, or when the text may hold more
    /// lines than an index can.
    pub fn feed(
        &mut self,
        index: &mut LineIndex,
        window: Vec<u8>,
        cancel: Option<&AtomicBool>,
    ) -> (r: bool)
        requires
            old(self).inv(old(index)),
            old(self).next_request() is Some,
        ensures
            r ==> {
                &&& final(self).inv(final(index))
                &&& old(self).next_request() == Some((old(self).at(), window@.len() as int))
                &&& final(self).text() == old(self).text() + window@
                &&& final(self).at() == old(self).at() + window@.len()
                &&& final(self).start_pos() == old(self).start_pos()
                &&& final(self).end_pos() == old(self).end_pos()
                &&& final(self).window_len() == old(self).window_len()
                &&& final(self).scan_mode() == old(self).scan_mode()
            },
            !r ==> old(self).next_request() != Some((old(self).at(), window@.len() as int)) || cancel
                is Some || old(self).end_pos() - old(self).start_pos() >= max_lines() - 1,
    {
        let window_len = if self.window < self.file_size - self.cursor {
            self.window
        } else {
            self.file_size - self.cursor
        };
        if window.len() == 0 || window.len() as u64 != window_len {
            return false;
        }
        self.take_in(index, window, window_len);
        self.scan_taken(index, cancel)
    }

    /// Appends a window of the length asked for to the bytes pending.
    fn take_in(&mut self, index: &LineIndex, window: Vec<u8>, window_len: u64)
        requires
            old(self).inv(index),
            old(self).cursor < old(self).file_size,
            window_len == window@.len() >= 1,
            window_len <= old(self).file_size - old(self).cursor,
        ensures
            final(self).taken_in(index),
            final(self).read@ == old(self).read@ + window@,
            final(self).cursor == old(self).cursor + window_len,
            final(self).start == old(self).start,
            final(self).file_size == old(self).file_size,
            final(self).window == old(self).window,
            final(self).mode == old(self).mode,
    {
        let ghost start = self.start as int;
        let ghost old_read = self.read@;
        proof {
            lemma_state_facts(
                index,
                old_read,
                start,
                self.stop@,
                self.scan_abs as int,
                self.line_start as int,
                self.mode,
            );
            lemma_state_extend(
                index,
                old_read,
                window@,
                start,
                self.stop@,
                self.scan_abs as int,
                self.line_start as int,
                self.mode,
            );
            self.read@ = old_read + window@;
        }
        if self.pending.len() == 0 {
            self.pending_base = self.cursor;
            self.scan_abs = self.cursor;
        }
        let mut window = window;
        self.pending.append(&mut window);
        self.cursor = self.cursor + window_len;
        proof {
            assert(self.pending@ =~= self.read@.subrange(
                self.pending_base - start,
                self.read@.len() as int,
            ));
        }
    }

    /// Scans the pending bytes that no later byte can affect (all of them
    /// once the text is complete).
    #[verifier::rlimit(40)]
    fn scan_taken(&mut self, index: &mut LineIndex, cancel: Option<&AtomicBool>) -> (r: bool)
        requires
            old(self).taken_in(old(index)),
        ensures
            r ==> final(self).inv(final(index)),
            r ==> final(self).read@ == old(self).read@,
            r ==> final(self).cursor == old(self).cursor,
            final(self).start == old(self).start,
            final(self).file_size == old(self).file_size,
            final(self).window == old(self).window,
            final(self).mode == old(self).mode,
            !r ==> cancel is Some || old(self).file_size - old(self).start >= max_lines() - 1,
    {
        let ghost start = self.start as int;
        let ghost mode = self.mode;
        proof {
            lemma_state_facts(
                index,
                self.read@,
                start,
                self.stop@,
                self.scan_abs as int,
                self.line_start as int,
                mode,
            );
        }
        let process_len = if self.cursor < self.file_size {
            if self.pending.len() > self.retain {
                self.pending.len() - self.retain
            } else {
                0
            }
        } else {
            self.pending.len()
        };
        let ghost before: LineIndex = *index;
        let (completed, new_pos, new_line_start) = index.scan_range(
            &self.pending,
            self.pending_base,
            (self.scan_abs - self.pending_base) as usize,
            process_len,
            self.line_start,
            self.mode,
            cancel,
        );
        if !completed {
            return false;
        }
        proof {
            let p = self.pending_base - start;
            lemma_scan_until_shape(
                self.pending@,
                (self.scan_abs - self.pending_base) as int,
                process_len as int,
                mode,
            );
            let ns = lemma_state_advance(
                &before,
                index,
                self.read@,
                start,
                self.stop@,
                self.scan_abs as int,
                self.line_start as int,
                p,
                process_len as int,
                self.cursor == self.file_size,
                new_pos as int,
                new_line_start as int,
                mode,
            );
            self.stop@ = ns;
        }
        self.scan_abs = self.pending_base + new_pos as u64;
        self.line_start = new_line_start;
        let scanned_len = (self.scan_abs - self.pending_base) as usize;
        if scanned_len > 0 {
            self.pending = self.pending.split_off(scanned_len);
            self.pending_base = self.scan_abs;
        }
        proof {
            assert(self.pending@ =~= self.read@.subrange(
                self.pending_base - start,
                self.read@.len() as int,
            ));
        }
        true
    }

    /// Ends a scan whose text is complete: the last line's length is
    /// recorded and the index marked scanned. It then holds exactly the
    /// lines of the text.
    pub fn finish(&self, index: &mut LineIndex)
        requires
            self.inv(old(index)),
            self.next_request() is None,
        ensures
            final(index).well_formed(),
            final(index).scanned(),
            final(index).holds_lines_of(self.text(), self.start_pos(), self.scan_mode()),
            final(index).total() == final(index).offsets().len(),
            self.text().len() == self.end_pos() - self.start_pos(),
    {
        let ghost start = self.start as int;
        proof {
            let read = self.read@;
            lemma_state_facts(
                index,
                read,
                start,
                self.stop@,
                self.scan_abs as int,
                self.line_start as int,
                self.mode,
            );
            assert(scan_state_ok(
                index,
                read,
                start,
                self.stop@,
                self.scan_abs as int,
                self.line_start as int,
                self.mode,
            ) ==> index.offsets() == seq![start] + starts_after(breaks(read, self.mode), start)
                && index.lengths() == lengths_before(breaks(read, self.mode), start, start)
                && self.line_start == ls_old_value(breaks(read, self.mode), start, start)) by {
                reveal(scan_state_ok);
            }
            lemma_full_scan_lines(read, start, self.mode, self.line_start as int);
        }
        index.add_line_length(self.file_size - self.line_start);
        index.mark_scanned();
    }
}

impl LineIndex {
    /// Builds the index of the file bytes from `start_offset` to `file_size`,
    /// read with `read_window(offset, len)` in consecutive windows of
    /// `chunk_size` bytes (at least one), stopping early when
    /// `cancel_requested` is set.
    ///
    /// A reader that returns `None`, or a window that does not hold exactly
    /// the bytes asked for, ends the build, as does a text with more lines
    /// than an index can hold. Returns `true` when the index was built
    /// completely; `false` otherwise, which leaves the index empty and marked
    /// scanned.
    pub fn build_from_windows_at_cancelable<F: Fn(u64, u64) -> Option<Vec<u8>>>(
        &mut self,
        start_offset: u64,
        file_size: u64,
        chunk_size: u64,
        utf_mode: UtfMode,
        cancel_requested: &AtomicBool,
        read_window: F,
    ) -> (r: bool)
        requires
            forall|o: u64, l: u64| #[trigger] read_window.requires((o, l)),
            file_size <= i64::MAX,
        ensures
            final(self).well_formed(),
            final(self).scanned(),
            !r ==> final(self).is_empty(),
            r && file_size <= start_offset ==> final(self).is_empty(),
            r && start_offset < file_size ==> exists|d: Seq<u8>|
                #![trigger read_in_windows(read_window, d, start_offset as int, window_size(chunk_size))]
                {
                    &&& d.len() == file_size - start_offset
                    &&& read_in_windows(read_window, d, start_offset as int, window_size(chunk_size))
                    &&& final(self).holds_lines_of(d, start_offset as int, utf_mode)
                    &&& final(self).total() == final(self).offsets().len()
                },
    {
        self.clear();
        if cancel_flag_set(cancel_requested) {
            self.mark_scanned();
            return false;
        }
        if start_offset >= file_size {
            self.mark_scanned();
            return true;
        }
        let mut scan = WindowScan::begin(self, start_offset, file_size, chunk_size, utf_mode);
        let ghost cs = window_size(chunk_size);
        let ghost start = start_offset as int;
        let ghost mut k: nat = 0;
        proof {
            assert(read_in_windows(read_window, scan.text(), start, cs)) by {
                reveal(read_in_windows);
            }
        }
        loop
            invariant
                forall|o: u64, l: u64| #[trigger] read_window.requires((o, l)),
                scan.inv(self),
                scan.start_pos() == start == start_offset,
                scan.end_pos() == file_size,
                scan.window_len() == cs == window_size(chunk_size),
                scan.scan_mode() == utf_mode,
                read_in_windows(read_window, scan.text(), start, cs),
                scan.at() < file_size ==> scan.text().len() == k * cs,
            ensures
                scan.inv(self),
                scan.start_pos() == start_offset,
                scan.scan_mode() == utf_mode,
                scan.next_request() is None,
                read_in_windows(read_window, scan.text(), start, cs),
            decreases file_size - scan.at(),
        {
            proof {
                scan.lemma_inv_facts(self);
            }
            let (offset, len) = match scan.next_window() {
                Some(w) => w,
                None => {
                    break;
                },
            };
            if cancel_flag_set(cancel_requested) {
                self.clear();
                self.mark_scanned();
                return false;
            }
            let window = match read_window(offset, len) {
                Some(w) => w,
                None => {
                    self.clear();
                    self.mark_scanned();
                    return false;
                },
            };
            let ghost w = window@;
            let ghost old_text = scan.text();
            proof {
                if w.len() == len {
                    assert(read_window.ensures((offset, len), Some(window)));
                    assert(((start + old_text.len()) as u64, w.len() as u64) == (offset, len));
                    assert(reads_window(read_window, start + old_text.len(), w));
                }
            }
            if !scan.feed(self, window, Some(cancel_requested)) {
                self.clear();
                self.mark_scanned();
                return false;
            }
            proof {
                lemma_read_in_windows_push(read_window, old_text, w, start, cs, k);
                k = k + 1;
                assert(k * cs == (k - 1) * cs + cs) by (nonlinear_arith);
            }
        }
        if cancel_flag_set(cancel_requested) {
            self.clear();
            self.mark_scanned();
            return false;
        }
        proof {
            scan.lemma_inv_facts(self);
        }
        scan.finish(self);
        proof {
            assert(read_in_windows(read_window, scan.text(), start_offset as int, window_size(chunk_size)));
        }
        true
    }
}

} // verus!
