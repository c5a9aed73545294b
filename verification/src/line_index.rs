//! The line index of a scanned text.
//!
//! | Level | Storage | Holds |
//! |-------|---------|-------|
//! | 1 | `direct_offsets: Vec<u32>` | starts of the first million lines below 4 GiB |
//! | 2 | `extended_offsets: Vec<u64>` | every other line start |
//! | 3 | `chunks: Vec<ChunkIndex>` | groups of lines after the first million, one per 128 KiB |
//!
//! Lookups first narrow their search range with the chunk index, then read
//! or binary-search the offsets. Lines beyond the last chunk, once the chunk
//! table is full, are found through `overstep_pos`, the first position that
//! no chunk covers.
use vstd::prelude::*;
use std::sync::atomic::{AtomicBool, Ordering};
use crate::error::{unit_width, UtfMode};
use crate::line_scan::{
    breaks, lemma_lines_tile, lemma_newline_len, lemma_scan_until_shape, lemma_step_positive,
    line_lengths, line_positions, line_starts, newline_at, scan_step, scan_until, unit_is,
};

verus! {

/// Lines indexed directly with 32-bit offsets.
pub const DIRECT_LINES_MAX: usize = 1_000_000;

/// First line covered by the chunk index.
pub const CHUNK_BEGIN: usize = DIRECT_LINES_MAX;

/// Bytes of file covered by one chunk.
pub const CHUNK_SIZE: u64 = 128 * 1024;

/// Capacity of the chunk index.
pub const CHUNK_COUNT_MAX: usize = 8_388_608;

/// One group of consecutive lines after the first million.
#[derive(Debug, Clone, Copy)]
struct ChunkIndex {
    /// Last line of the group.
    max_line_index: u64,
    /// File position where the group's first line starts.
    start_pos: u64,
}

/// Index of line start positions and line lengths for one scanned text.
pub struct LineIndex {
    direct_offsets: Vec<u32>,
    extended_offsets: Vec<u64>,
    line_lengths: Vec<u64>,
    chunks: Vec<ChunkIndex>,
    is_scanned: bool,
    total_lines: u64,
    overstep_pos: u64,
    cached_index: u64,
    cached_pos: u64,
}

/// The chunk index and overstep position after a line `line_index` that
/// starts at `pos` is recorded with room for `max_chunks` chunks.
pub open spec fn chunk_update(
    table: Seq<(int, int)>,
    overstep: int,
    line_index: int,
    pos: int,
    max_chunks: int,
) -> (Seq<(int, int)>, int) {
    if line_index < CHUNK_BEGIN {
        (table, overstep)
    } else if table.len() == 0 {
        (seq![(line_index, pos)], overstep)
    } else if table.len() < max_chunks {
        let last = table.last();
        if pos - last.1 < CHUNK_SIZE {
            (table.update(table.len() - 1, (line_index, last.1)), overstep)
        } else {
            (table.push((line_index, pos)), overstep)
        }
    } else if overstep == 0 {
        (table, pos)
    } else {
        (table, overstep)
    }
}

/// The most lines an index can hold: line numbers are reported as `i64`
/// and counted in `usize`.
pub open spec fn max_lines() -> int {
    if (usize::MAX as int) < (i64::MAX as int) {
        usize::MAX as int
    } else {
        i64::MAX as int
    }
}

/// [`max_lines`] as a number.
pub fn max_line_count() -> (r: usize)
    ensures
        r == max_lines(),
{
    if (usize::MAX as u64) < (i64::MAX as u64) {
        usize::MAX
    } else {
        i64::MAX as usize
    }
}

/// Line starts are strictly increasing.
pub open spec fn offsets_increasing(o: Seq<int>) -> bool {
    forall|i: int, j: int| 0 <= i < j < o.len() ==> #[trigger] o[i] < #[trigger] o[j]
}

/// All line starts, 32-bit ones first.
spec fn all_offsets(direct: Seq<u32>, ext: Seq<u64>) -> Seq<int> {
    direct.map_values(|x: u32| x as int) + ext.map_values(|x: u64| x as int)
}

/// The first line of chunk `k`.
spec fn chunk_first(chunks: Seq<ChunkIndex>, k: int) -> int {
    if k == 0 {
        CHUNK_BEGIN as int
    } else {
        chunks[k - 1].max_line_index + 1
    }
}

/// Line starts strictly increase (kept opaque; see [`lemma_increasing_at`]).
#[verifier::opaque]
spec fn increasing(o: Seq<int>) -> bool {
    offsets_increasing(o)
}

/// 32-bit offsets come first, at most [`DIRECT_LINES_MAX`] of them; 64-bit
/// offsets appear early only for positions beyond 32 bits; chunks exist only
/// once the direct level is full.
spec fn layout_ok(direct: Seq<u32>, ext: Seq<u64>, c: Seq<ChunkIndex>) -> bool {
    &&& direct.len() <= DIRECT_LINES_MAX
    &&& (direct.len() < DIRECT_LINES_MAX && ext.len() > 0) ==> ext.last() > u32::MAX
    &&& c.len() > 0 ==> direct.len() == DIRECT_LINES_MAX
    &&& (direct.len() == DIRECT_LINES_MAX && c.len() == 0) ==> ext.len() == 0
}

/// Every chunk covers the lines after the previous one up to its last line,
/// and records where its first line starts.
#[verifier::opaque]
spec fn chunks_ok(c: Seq<ChunkIndex>, o: Seq<int>) -> bool {
    forall|k: int|
        0 <= k < c.len() ==> chunk_first(c, k) <= (#[trigger] c[k]).max_line_index
            && c[k].max_line_index < o.len() && c[k].start_pos == o[chunk_first(c, k)]
}

/// A nonzero overstep position is the start of the first line after a full
/// chunk table; without one, the last chunk ends at the last line.
spec fn overstep_ok(c: Seq<ChunkIndex>, o: Seq<int>, overstep: u64) -> bool {
    &&& overstep != 0 ==> {
        &&& c.len() >= CHUNK_COUNT_MAX
        &&& c.last().max_line_index + 1 < o.len()
        &&& o[c.last().max_line_index + 1] == overstep
    }
    &&& (overstep == 0 && c.len() > 0) ==> c.last().max_line_index == o.len() - 1
}

/// Every line start, and every known line end, is a valid `i64` position.
spec fn positions_fit(o: Seq<int>, lens: Seq<int>) -> bool {
    &&& o.len() > 0 ==> o.last() <= i64::MAX
    &&& forall|i: int| 0 <= i < lens.len() ==> o[i] + #[trigger] lens[i] <= i64::MAX
}

/// The lookup cache is empty or holds a real line start.
spec fn cache_ok(o: Seq<int>, cached_index: u64, cached_pos: u64) -> bool {
    cached_index == u64::MAX || (cached_index < o.len() && cached_pos == o[cached_index as int])
}

/// The part of the index invariant about offsets, chunks, overstep position
/// and cache.
spec fn shape_ok(
    direct: Seq<u32>,
    ext: Seq<u64>,
    c: Seq<ChunkIndex>,
    overstep: u64,
    cached_index: u64,
    cached_pos: u64,
) -> bool {
    let o = all_offsets(direct, ext);
    &&& increasing(o)
    &&& o.len() <= max_lines()
    &&& layout_ok(direct, ext, c)
    &&& chunks_ok(c, o)
    &&& overstep_ok(c, o, overstep)
    &&& cache_ok(o, cached_index, cached_pos)
}

proof fn lemma_increasing_at(o: Seq<int>, i: int, j: int)
    requires
        increasing(o),
        0 <= i < j < o.len(),
    ensures
        o[i] < o[j],
{
    reveal(increasing);
}

proof fn lemma_all_offsets(direct: Seq<u32>, ext: Seq<u64>)
    ensures
        all_offsets(direct, ext).len() == direct.len() + ext.len(),
        forall|k: int| 0 <= k < direct.len() ==> #[trigger] all_offsets(direct, ext)[k] == direct[k] as int,
        forall|k: int|
            direct.len() <= k < direct.len() + ext.len() ==> #[trigger] all_offsets(direct, ext)[k]
                == ext[k - direct.len()] as int,
{
}

proof fn lemma_all_offsets_push_ext(direct: Seq<u32>, ext: Seq<u64>, x: u64)
    ensures
        all_offsets(direct, ext.push(x)) == all_offsets(direct, ext).push(x as int),
{
    assert(all_offsets(direct, ext.push(x)) =~= all_offsets(direct, ext).push(x as int));
}

proof fn lemma_all_offsets_push_direct(direct: Seq<u32>, x: u32)
    ensures
        all_offsets(direct.push(x), Seq::empty()) == all_offsets(direct, Seq::empty()).push(x as int),
{
    assert(all_offsets(direct.push(x), Seq::empty()) =~= all_offsets(direct, Seq::empty()).push(
        x as int,
    ));
}

proof fn lemma_push_keeps_increasing(o: Seq<int>, x: int)
    requires
        increasing(o),
        o.len() > 0 ==> o.last() < x,
    ensures
        increasing(o.push(x)),
{
    reveal(increasing);
    let p = o.push(x);
    assert forall|i: int, j: int| 0 <= i < j < p.len() implies #[trigger] p[i] < #[trigger] p[j] by {
        if j == o.len() {
            if i < o.len() - 1 {
                assert(o[i] < o[o.len() - 1]);
            }
        } else {
            assert(p[i] == o[i] && p[j] == o[j]);
        }
    }
}

/// The chunk table and overstep position after recording line `line_index`
/// starting at `pos`, with room for `max_chunks` chunks.
spec fn chunks_after(oc: Seq<ChunkIndex>, ov: u64, line_index: u64, pos: u64, max_chunks: usize) -> (
    Seq<ChunkIndex>,
    u64,
) {
    if line_index < CHUNK_BEGIN {
        (oc, ov)
    } else if oc.len() == 0 {
        (seq![ChunkIndex { max_line_index: line_index, start_pos: pos }], ov)
    } else if oc.len() < max_chunks {
        let last = oc.last();
        if pos < last.start_pos || pos - last.start_pos < CHUNK_SIZE {
            (oc.update(oc.len() - 1, ChunkIndex { max_line_index: line_index, start_pos: last.start_pos }), ov)
        } else {
            (oc.push(ChunkIndex { max_line_index: line_index, start_pos: pos }), ov)
        }
    } else if ov == 0 {
        (oc, pos)
    } else {
        (oc, ov)
    }
}

spec fn chunk_pairs(c: Seq<ChunkIndex>) -> Seq<(int, int)> {
    c.map_values(|k: ChunkIndex| (k.max_line_index as int, k.start_pos as int))
}

proof fn lemma_chunks_after_table(oc: Seq<ChunkIndex>, ov: u64, line_index: u64, pos: u64, max_chunks: usize)
    ensures
        ({
            let r = chunks_after(oc, ov, line_index, pos, max_chunks);
            (chunk_pairs(r.0), r.1 as int) == chunk_update(
                chunk_pairs(oc),
                ov as int,
                line_index as int,
                pos as int,
                max_chunks as int,
            )
        }),
{
    let r = chunks_after(oc, ov, line_index, pos, max_chunks);
    let t = chunk_pairs(oc);
    if line_index >= CHUNK_BEGIN {
        if oc.len() == 0 {
            assert(chunk_pairs(r.0) =~= seq![(line_index as int, pos as int)]);
        } else if oc.len() < max_chunks {
            let last = oc.last();
            assert(t.last() == (last.max_line_index as int, last.start_pos as int));
            if pos < last.start_pos || pos - last.start_pos < CHUNK_SIZE {
                assert(chunk_pairs(r.0) =~= t.update(t.len() - 1, (line_index as int, t.last().1)));
            } else {
                assert(chunk_pairs(r.0) =~= t.push((line_index as int, pos as int)));
            }
        }
    }
}

/// Chunks that describe lines of `oo` describe the same lines of any `o`
/// that extends `oo`.
proof fn lemma_chunks_ok_extend(c: Seq<ChunkIndex>, oo: Seq<int>, o: Seq<int>)
    requires
        chunks_ok(c, oo),
        oo.len() <= o.len(),
        forall|i: int| 0 <= i < oo.len() ==> #[trigger] oo[i] == o[i],
    ensures
        chunks_ok(c, o),
{
    reveal(chunks_ok);
    assert forall|k: int| 0 <= k < c.len() implies chunk_first(c, k) <= (
    #[trigger] c[k]).max_line_index && c[k].max_line_index < o.len() && c[k].start_pos
        == o[chunk_first(c, k)] by {
        assert(chunk_first(c, k) <= c[k].max_line_index && c[k].max_line_index < oo.len());
        assert(oo[chunk_first(c, k)] == o[chunk_first(c, k)]);
    }
}

/// Appending a chunk that starts right after the last one.
proof fn lemma_chunks_ok_push(c: Seq<ChunkIndex>, o: Seq<int>, x: ChunkIndex)
    requires
        chunks_ok(c, o),
        chunk_first(c.push(x), c.len() as int) <= x.max_line_index < o.len(),
        x.start_pos == o[chunk_first(c.push(x), c.len() as int)],
    ensures
        chunks_ok(c.push(x), o),
{
    reveal(chunks_ok);
    let p = c.push(x);
    assert forall|k: int| 0 <= k < p.len() implies chunk_first(p, k) <= (
    #[trigger] p[k]).max_line_index && p[k].max_line_index < o.len() && p[k].start_pos
        == o[chunk_first(p, k)] by {
        if k < c.len() {
            assert(p[k] == c[k]);
            assert(chunk_first(p, k) == chunk_first(c, k)) by {
                if k > 0 {
                    assert(p[k - 1] == c[k - 1]);
                }
            }
        }
    }
}

/// Moving the end of the last chunk further.
proof fn lemma_chunks_ok_extend_last(c: Seq<ChunkIndex>, o: Seq<int>, m: u64)
    requires
        chunks_ok(c, o),
        c.len() > 0,
        c.last().max_line_index <= m < o.len(),
    ensures
        chunks_ok(
            c.update(
                c.len() - 1,
                ChunkIndex { max_line_index: m, start_pos: c.last().start_pos },
            ),
            o,
        ),
{
    reveal(chunks_ok);
    let last = c.len() - 1;
    let p = c.update(last, ChunkIndex { max_line_index: m, start_pos: c.last().start_pos });
    assert forall|k: int| 0 <= k < p.len() implies chunk_first(p, k) <= (
    #[trigger] p[k]).max_line_index && p[k].max_line_index < o.len() && p[k].start_pos
        == o[chunk_first(p, k)] by {
        assert(chunk_first(p, k) == chunk_first(c, k)) by {
            if k > 0 {
                assert(p[k - 1] == c[k - 1]);
            }
        }
        assert(chunk_first(c, k) <= c[k].max_line_index);
    }
}

/// Recording a new last line (already appended to the offsets) in the chunk
/// index keeps the chunk and overstep invariants.
proof fn lemma_chunk_update_shape(
    oo: Seq<int>,
    o: Seq<int>,
    oc: Seq<ChunkIndex>,
    c: Seq<ChunkIndex>,
    old_overstep: u64,
    overstep: u64,
    pos: u64,
)
    requires
        o == oo.push(pos as int),
        pos > 0,
        o.len() <= max_lines(),
        oo.len() >= CHUNK_BEGIN,
        oc.len() == 0 ==> oo.len() == CHUNK_BEGIN,
        increasing(o),
        chunks_ok(oc, oo),
        overstep_ok(oc, oo, old_overstep),
        (c, overstep) == chunks_after(oc, old_overstep, oo.len() as u64, pos, CHUNK_COUNT_MAX),
    ensures
        chunks_ok(c, o),
        overstep_ok(c, o, overstep),
{
    assert forall|i: int| 0 <= i < oo.len() implies #[trigger] oo[i] == o[i] by {}
    lemma_chunks_ok_extend(oc, oo, o);
    let n = o.len();
    if oc.len() == 0 {
        assert(chunk_first(oc.push(c[0]), 0) == CHUNK_BEGIN);
        assert(c == oc.push(ChunkIndex { max_line_index: oo.len() as u64, start_pos: pos }));
        lemma_chunks_ok_push(oc, o, ChunkIndex { max_line_index: oo.len() as u64, start_pos: pos });
        assert(old_overstep == 0);
        assert(c.last().max_line_index == n - 1);
    } else if oc.len() < CHUNK_COUNT_MAX {
        assert(old_overstep == 0);
        assert(oc.last().max_line_index == n - 2);
        let lastk = oc.len() - 1;
        reveal(chunks_ok);
        let lf = chunk_first(oc, lastk);
        assert(lf <= oc[lastk].max_line_index && oc[lastk].start_pos == oo[lf]);
        lemma_increasing_at(o, lf, n - 1);
        if pos < oc.last().start_pos || pos - oc.last().start_pos < CHUNK_SIZE {
            lemma_chunks_ok_extend_last(oc, o, oo.len() as u64);
            assert(c.last().max_line_index == n - 1);
        } else {
            let x = ChunkIndex { max_line_index: oo.len() as u64, start_pos: pos };
            assert(oc.push(x)[lastk] == oc[lastk]);
            lemma_chunks_ok_push(oc, o, x);
            assert(c.last() == x);
        }
        assert(overstep == 0);
    } else {
        assert(c == oc);
        if old_overstep == 0 {
            assert(oc.last().max_line_index == n - 2);
            assert(overstep == pos);
            assert(o[n - 1] == pos);
        } else {
            assert(overstep == old_overstep);
            assert(oo[oc.last().max_line_index + 1] == o[oc.last().max_line_index + 1]);
        }
    }
}

impl Default for LineIndex {
    /// An empty index, not yet scanned.
    fn default() -> (r: Self)
        ensures
            r.well_formed(),
            r.is_empty(),
            !r.scanned(),
    {
        LineIndex::new()
    }
}

/// Whether the scan has been asked to stop.
pub(crate) fn cancel_flag_set(flag: &AtomicBool) -> bool {
    flag.load(Ordering::Acquire)
}

impl LineIndex {
    // -----------------------------------------------------------------------
    // Model
    // -----------------------------------------------------------------------

    /// The start position of every line indexed so far, in line order.
    pub closed spec fn offsets(&self) -> Seq<int> {
        all_offsets(self.direct_offsets@, self.extended_offsets@)
    }

    /// The length of every line whose length is known, in line order.
    pub closed spec fn lengths(&self) -> Seq<int> {
        self.line_lengths@.map_values(|x: u64| x as int)
    }

    /// Whether the index is complete (scan finished).
    pub closed spec fn scanned(&self) -> bool {
        self.is_scanned
    }

    /// The number of lines recorded when the scan finished.
    pub closed spec fn total(&self) -> int {
        self.total_lines as int
    }

    /// Number of chunks in the chunk index.
    pub closed spec fn chunk_len(&self) -> int {
        self.chunks@.len() as int
    }

    /// First position not covered by a full chunk index (0 when unset).
    pub closed spec fn overstep(&self) -> int {
        self.overstep_pos as int
    }

    /// The chunk index as (last line, start position) pairs.
    pub closed spec fn chunk_table(&self) -> Seq<(int, int)> {
        self.chunks@.map_values(|c: ChunkIndex| (c.max_line_index as int, c.start_pos as int))
    }

    /// The lookup cache as (line, position); the line is `u64::MAX` when empty.
    pub closed spec fn cache(&self) -> (int, int) {
        (self.cached_index as int, self.cached_pos as int)
    }


    /// The invariant of the index: line starts strictly increase, 32-bit
    /// offsets come before 64-bit ones, every chunk describes a run of
    /// consecutive lines and where the first one starts, the overstep
    /// position is the start of the first line after a full chunk table, the
    /// lookup cache holds a real line start, and a finished index has one
    /// length per line.
    pub closed spec fn well_formed(&self) -> bool {
        let n = self.direct_offsets@.len() + self.extended_offsets@.len();
        &&& shape_ok(
            self.direct_offsets@,
            self.extended_offsets@,
            self.chunks@,
            self.overstep_pos,
            self.cached_index,
            self.cached_pos,
        )
        &&& self.is_scanned ==> self.total_lines == n && self.line_lengths@.len() == n
        &&& !self.is_scanned ==> self.total_lines == 0
        &&& self.line_lengths@.len() <= n
        &&& positions_fit(self.offsets(), self.lengths())
    }

    /// The index holds exactly the lines of `d`, a text that starts at file
    /// position `base`, scanned in mode `mode`.
    pub open spec fn holds_lines_of(&self, d: Seq<u8>, base: int, mode: UtfMode) -> bool {
        &&& self.offsets() == line_positions(d, base, mode)
        &&& self.lengths() == line_lengths(d, mode)
    }

    /// The index is empty.
    pub open spec fn is_empty(&self) -> bool {
        &&& self.offsets().len() == 0
        &&& self.lengths().len() == 0
        &&& self.total() == 0
    }

    // -----------------------------------------------------------------------
    // Construction and state
    // -----------------------------------------------------------------------

    /// An empty index, not yet scanned.
    pub fn new() -> (r: Self)
        ensures
            r.well_formed(),
            r.is_empty(),
            !r.scanned(),
            r.chunk_len() == 0,
            r.overstep() == 0,
    {
        proof {
            reveal(increasing);
            reveal(chunks_ok);
        }
        let r = LineIndex {
            direct_offsets: Vec::new(),
            extended_offsets: Vec::new(),
            line_lengths: Vec::new(),
            chunks: Vec::new(),
            is_scanned: false,
            total_lines: 0,
            overstep_pos: 0,
            cached_index: u64::MAX,
            cached_pos: 0,
        };
        assert(r.offsets() =~= Seq::<int>::empty());
        assert(r.lengths() =~= Seq::<int>::empty());
        r
    }

    /// Whether the scan has finished.
    pub fn is_scanned(&self) -> (r: bool)
        ensures
            r == self.scanned(),
    {
        self.is_scanned
    }

    /// Whether every line start recorded has its length.
    pub fn lengths_complete(&self) -> (r: bool)
        requires
            self.well_formed(),
        ensures
            r == (self.lengths().len() == self.offsets().len()),
    {
        proof {
            lemma_all_offsets(self.direct_offsets@, self.extended_offsets@);
        }
        self.line_lengths.len() == self.direct_offsets.len() + self.extended_offsets.len()
    }

    /// Marks the scan as finished, fixing the line count at the number of
    /// line lengths recorded.
    pub fn mark_scanned(&mut self)
        requires
            old(self).well_formed(),
            old(self).lengths().len() == old(self).offsets().len(),
        ensures
            final(self).well_formed(),
            final(self).scanned(),
            final(self).offsets() == old(self).offsets(),
            final(self).lengths() == old(self).lengths(),
            final(self).total() == old(self).lengths().len(),
    {
        self.total_lines = self.line_lengths.len() as u64;
        self.is_scanned = true;
    }

    /// Empties the index: no lines, no chunks, not scanned.
    pub fn clear(&mut self)
        ensures
            final(self).well_formed(),
            final(self).is_empty(),
            !final(self).scanned(),
            final(self).chunk_len() == 0,
            final(self).overstep() == 0,
    {
        proof {
            reveal(increasing);
            reveal(chunks_ok);
        }
        self.cached_index = u64::MAX;
        self.cached_pos = 0;
        self.is_scanned = false;
        self.direct_offsets.clear();
        self.extended_offsets.clear();
        self.line_lengths.clear();
        self.chunks.clear();
        self.total_lines = 0;
        self.overstep_pos = 0;
        assert(self.offsets() =~= Seq::<int>::empty());
        assert(self.lengths() =~= Seq::<int>::empty());
    }

    /// Puts the index in the state of a scanned empty file: one empty line
    /// that starts at 0.
    pub fn mark_empty_file(&mut self)
        ensures
            final(self).well_formed(),
            final(self).scanned(),
            final(self).offsets() == seq![0int],
            final(self).lengths() == seq![0int],
            final(self).total() == 1,
    {
        proof {
            reveal(increasing);
            reveal(chunks_ok);
        }
        self.clear();
        self.direct_offsets.push(0);
        self.line_lengths.push(0);
        self.total_lines = 1;
        self.is_scanned = true;
        assert(self.offsets() =~= seq![0int]);
        assert(self.lengths() =~= seq![0int]);
    }

    /// The number of lines: the recorded count once the scan has finished,
    /// -1 before.
    pub fn get_line_count(&self) -> (r: i64)
        requires
            self.well_formed(),
        ensures
            r == if self.scanned() {
                self.total() as i64
            } else {
                -1i64
            },
    {
        if self.is_scanned {
            self.total_lines as i64
        } else {
            -1
        }
    }

    /// Kept for interface compatibility: the index does not depend on the
    /// text mode once built.
    pub fn set_utf_mode(&self, _mode: UtfMode) {
    }

    /// Number of chunks in the chunk index.
    pub fn chunk_count(&self) -> (r: usize)
        ensures
            r == self.chunk_len(),
    {
        self.chunks.len()
    }

    /// First position beyond a full chunk index (0 when the index is not
    /// full).
    pub fn overstep_pos(&self) -> (r: u64)
        ensures
            r == self.overstep(),
    {
        self.overstep_pos
    }

    // -----------------------------------------------------------------------
    // Adding lines
    // -----------------------------------------------------------------------

    /// Records the start of the next line.
    pub(crate) fn add_line(&mut self, pos: u64)
        requires
            old(self).well_formed(),
            old(self).offsets().len() < max_lines(),
            old(self).offsets().len() > 0 ==> old(self).offsets().last() < pos,
            pos <= i64::MAX,
            !old(self).scanned(),
        ensures
            final(self).well_formed(),
            final(self).offsets() == old(self).offsets().push(pos as int),
            final(self).lengths() == old(self).lengths(),
            !final(self).scanned(),
    {
        let ghost o = self.offsets();
        let ghost d0 = self.direct_offsets@;
        let ghost e0 = self.extended_offsets@;
        proof {
            lemma_all_offsets(d0, e0);
            lemma_push_keeps_increasing(o, pos as int);
        }
        if self.direct_offsets.len() < DIRECT_LINES_MAX {
            if pos <= u32::MAX as u64 {
                assert(e0.len() == 0) by {
                    if e0.len() > 0 {
                        assert(o.last() == e0.last());
                    }
                }
                self.direct_offsets.push(pos as u32);
                proof {
                    assert(e0 =~= Seq::<u64>::empty());
                    lemma_all_offsets_push_direct(d0, pos as u32);
                }
            } else {
                self.extended_offsets.push(pos);
                proof {
                    lemma_all_offsets_push_ext(d0, e0, pos);
                }
            }
            proof {
                reveal(chunks_ok);
                assert(self.chunks@.len() == 0);
                assert(self.offsets() == o.push(pos as int));
            }
        } else {
            let line_index = self.direct_offsets.len() as u64 + self.extended_offsets.len() as u64;
            let ghost oc = self.chunks@;
            let ghost old_overstep = self.overstep_pos;
            self.extended_offsets.push(pos);
            proof {
                lemma_all_offsets_push_ext(d0, e0, pos);
                assert(self.offsets() == o.push(pos as int));
                assert(o.push(pos as int).drop_last() == o);
            }
            self.record_chunk(line_index, pos, CHUNK_COUNT_MAX);
            proof {
                assert(o.last() >= 0) by {
                    let last = o.len() - 1;
                    if last < d0.len() {
                        assert(o[last] == d0[last] as int);
                    } else {
                        assert(o[last] == e0[last - d0.len()] as int);
                    }
                }
                lemma_chunk_update_shape(
                    o,
                    o.push(pos as int),
                    oc,
                    self.chunks@,
                    old_overstep,
                    self.overstep_pos,
                    pos,
                );
            }
        }
    }

    /// Records the length of the next line whose length is not yet known.
    pub(crate) fn add_line_length(&mut self, len: u64)
        requires
            old(self).well_formed(),
            old(self).lengths().len() < old(self).offsets().len(),
            old(self).offsets()[old(self).lengths().len() as int] + len <= i64::MAX,
            !old(self).scanned(),
        ensures
            final(self).well_formed(),
            final(self).offsets() == old(self).offsets(),
            final(self).lengths() == old(self).lengths().push(len as int),
            !final(self).scanned(),
    {
        self.line_lengths.push(len);
        assert(self.lengths() =~= old(self).lengths().push(len as int));
    }

    /// Updates the chunk index for a new line `line_index` that starts at
    /// `pos`, with room for at most `max_chunks` chunks.
    ///
    /// Lines before [`CHUNK_BEGIN`] are ignored. The first line opens the
    /// first chunk; a line less than [`CHUNK_SIZE`] bytes after the start of
    /// the last chunk joins it, any other line opens a new chunk; once the
    /// table is full the first line that does not fit is remembered as the
    /// overstep position.
    pub fn update_chunk_index(&mut self, line_index: u64, pos: u64, max_chunks: usize)
        ensures
            final(self).offsets() == old(self).offsets(),
            final(self).lengths() == old(self).lengths(),
            final(self).scanned() == old(self).scanned(),
            final(self).total() == old(self).total(),
            final(self).cache() == old(self).cache(),
            (final(self).chunk_table(), final(self).overstep()) == chunk_update(
                old(self).chunk_table(),
                old(self).overstep(),
                line_index as int,
                pos as int,
                max_chunks as int,
            ),
    {
        let ghost oc = self.chunks@;
        let ghost ov = self.overstep_pos;
        self.record_chunk(line_index, pos, max_chunks);
        proof {
            lemma_chunks_after_table(oc, ov, line_index, pos, max_chunks);
        }
    }

    /// [`Self::update_chunk_index`] on the raw chunk table.
    fn record_chunk(&mut self, line_index: u64, pos: u64, max_chunks: usize)
        ensures
            final(self).direct_offsets == old(self).direct_offsets,
            final(self).extended_offsets == old(self).extended_offsets,
            final(self).line_lengths == old(self).line_lengths,
            final(self).is_scanned == old(self).is_scanned,
            final(self).total_lines == old(self).total_lines,
            final(self).cached_index == old(self).cached_index,
            final(self).cached_pos == old(self).cached_pos,
            (final(self).chunks@, final(self).overstep_pos) == chunks_after(
                old(self).chunks@,
                old(self).overstep_pos,
                line_index,
                pos,
                max_chunks,
            ),
    {
        if line_index < CHUNK_BEGIN as u64 {
            return;
        }
        if self.chunks.len() == 0 {
            self.chunks.push(ChunkIndex { max_line_index: line_index, start_pos: pos });
            return;
        }
        if self.chunks.len() < max_chunks {
            let last = self.chunks.len() - 1;
            let last_chunk = self.chunks[last];
            let distance = if pos >= last_chunk.start_pos {
                pos - last_chunk.start_pos
            } else {
                0
            };
            if distance < CHUNK_SIZE {
                self.chunks.set(
                    last,
                    ChunkIndex { max_line_index: line_index, start_pos: last_chunk.start_pos },
                );
            } else {
                self.chunks.push(ChunkIndex { max_line_index: line_index, start_pos: pos });
            }
            return;
        }
        if self.overstep_pos == 0 {
            self.overstep_pos = pos;
        }
    }
}


/// Whether the code unit of `mode` at `pos` is the character `ch`.
fn unit_matches(data: &[u8], pos: usize, mode: UtfMode, ch: u8) -> (r: bool)
    ensures
        r == unit_is(data@, pos as int, mode, ch),
{
    let len = data.len();
    let w = unit_width_of(mode);
    if pos > len || len - pos < w {
        return false;
    }
    match mode {
        UtfMode::Default => data[pos] == ch,
        UtfMode::AutoDetect => data[pos] == ch,
        UtfMode::Utf16Le => data[pos] == ch && data[pos + 1] == 0,
        UtfMode::Utf16Be => data[pos] == 0 && data[pos + 1] == ch,
        UtfMode::Utf32Le => data[pos] == ch && data[pos + 1] == 0 && data[pos + 2] == 0 && data[pos
            + 3] == 0,
        UtfMode::Utf32Be => data[pos] == 0 && data[pos + 1] == 0 && data[pos + 2] == 0 && data[pos
            + 3] == ch,
    }
}

/// Bytes per code unit in `mode`.
fn unit_width_of(mode: UtfMode) -> (r: usize)
    ensures
        r == unit_width(mode),
{
    match mode {
        UtfMode::Utf16Le | UtfMode::Utf16Be => 2,
        UtfMode::Utf32Le | UtfMode::Utf32Be => 4,
        UtfMode::Default | UtfMode::AutoDetect => 1,
    }
}

/// The length of the line ending that starts at `pos`, if one does.
fn newline_len_at(data: &[u8], pos: usize, mode: UtfMode) -> (r: Option<usize>)
    requires
        pos < data@.len(),
    ensures
        r matches Some(n) ==> newline_at(data@, pos as int, mode) == Some(n as int),
        r is None ==> newline_at(data@, pos as int, mode) is None,
{
    let w = unit_width_of(mode);
    if unit_matches(data, pos, mode, 10u8) {
        Some(w)
    } else if unit_matches(data, pos, mode, 13u8) {
        if data.len() - pos >= w && unit_matches(data, pos + w, mode, 10u8) {
            Some(2 * w)
        } else {
            Some(w)
        }
    } else {
        None
    }
}

/// How far the scanner moves at `pos` when no line ending starts there.
fn scan_step_at(data: &[u8], pos: usize, mode: UtfMode) -> (r: usize)
    requires
        pos < data@.len(),
    ensures
        r == scan_step(data@, pos as int, mode),
{
    let w = unit_width_of(mode);
    if w <= data.len() - pos {
        w
    } else {
        data.len() - pos
    }
}

/// Where the lines after the endings `bs` start, for a text at `base`.
pub open spec fn starts_after(bs: Seq<(int, int)>, base: int) -> Seq<int> {
    Seq::new(bs.len(), |i: int| base + bs[i].0 + bs[i].1)
}

/// The lengths of the lines that the endings `bs` close, the first of them
/// starting at `first`, for a text at `base`.
pub open spec fn lengths_before(bs: Seq<(int, int)>, base: int, first: int) -> Seq<int> {
    Seq::new(
        bs.len(),
        |i: int|
            base + bs[i].0 - if i == 0 {
                first
            } else {
                base + bs[i - 1].0 + bs[i - 1].1
            },
    )
}

impl LineIndex {
    /// Scans `data`, a text that starts at file position `base`, from
    /// `scan_pos` while the position is below `stop`, recording every line
    /// ending found: the length of the line it closes and the start of the
    /// next line. `line_start` is where the current line starts.
    ///
    /// Returns whether the scan ran to `stop` (it stops early when `cancel`
    /// is set, or when the index holds as many lines as it can), the
    /// position reached and where the current line now starts.
    pub(crate) fn scan_range(
        &mut self,
        data: &[u8],
        base: u64,
        scan_pos: usize,
        stop: usize,
        line_start: u64,
        mode: UtfMode,
        cancel: Option<&AtomicBool>,
    ) -> (r: (bool, usize, u64))
        requires
            old(self).well_formed(),
            !old(self).scanned(),
            old(self).offsets().len() > 0,
            old(self).offsets().last() == line_start,
            old(self).lengths().len() + 1 == old(self).offsets().len(),
            scan_pos <= data@.len(),
            line_start <= base + scan_pos,
            base + data@.len() <= i64::MAX,
        ensures
            final(self).well_formed(),
            !final(self).scanned(),
            final(self).lengths().len() + 1 == final(self).offsets().len(),
            final(self).offsets().len() > 0,
            final(self).offsets().last() == r.2,
            cancel is None && old(self).offsets().len() + data@.len() - scan_pos < max_lines()
                ==> r.0,
            r.0 ==> ({
                let sc = scan_until(data@, scan_pos as int, stop as int, mode);
                &&& r.1 == sc.1
                &&& final(self).offsets() == old(self).offsets() + starts_after(sc.0, base as int)
                &&& final(self).lengths() == old(self).lengths() + lengths_before(
                    sc.0,
                    base as int,
                    line_start as int,
                )
                &&& r.2 <= base + r.1
            }),
    {
        let ghost d = data@;
        let ghost o0 = self.offsets();
        let ghost l0 = self.lengths();
        let ghost found: Seq<(int, int)> = Seq::empty();
        let ghost bounded = o0.len() + d.len() - scan_pos < max_lines();
        let mut pos = scan_pos;
        let mut ls = line_start;
        proof {
            lemma_scan_until_shape(d, scan_pos as int, stop as int, mode);
            assert(starts_after(found, base as int) =~= Seq::<int>::empty());
            assert(lengths_before(found, base as int, line_start as int) =~= Seq::<int>::empty());
            assert(o0 + Seq::<int>::empty() == o0);
            assert(l0 + Seq::<int>::empty() == l0);
        }
        while pos < stop && pos < data.len()
            invariant
                d == data@,
                scan_pos <= pos <= data@.len(),
                base + data@.len() <= i64::MAX,
                self.well_formed(),
                !self.scanned(),
                self.lengths().len() + 1 == self.offsets().len(),
                self.offsets().len() > 0,
                self.offsets().last() == ls,
                ls <= base + pos,
                bounded ==> self.offsets().len() + data@.len() - pos < max_lines(),
                bounded == (o0.len() + d.len() - scan_pos < max_lines()),
                o0 == old(self).offsets(),
                found.len() == self.offsets().len() - o0.len(),
                scan_until(d, scan_pos as int, stop as int, mode).0 == found + scan_until(
                    d,
                    pos as int,
                    stop as int,
                    mode,
                ).0,
                scan_until(d, scan_pos as int, stop as int, mode).1 == scan_until(
                    d,
                    pos as int,
                    stop as int,
                    mode,
                ).1,
                self.offsets() == o0 + starts_after(found, base as int),
                self.lengths() == l0 + lengths_before(found, base as int, line_start as int),
                found.len() == 0 ==> ls == line_start,
                found.len() > 0 ==> ls == base + found.last().0 + found.last().1,
            decreases data@.len() - pos,
        {
            if let Some(flag) = cancel {
                if cancel_flag_set(flag) {
                    return (false, pos, ls);
                }
            }
            let ghost rest = scan_until(d, pos as int, stop as int, mode);
            match newline_len_at(data, pos, mode) {
                Some(n) => {
                    proof {
                        lemma_newline_len(d, pos as int, mode);
                    }
                    if self.offset_count() >= max_line_count() - 1 {
                        return (false, pos, ls);
                    }
                    let newline_abs = base + pos as u64;
                    self.add_line_length(newline_abs - ls);
                    pos += n;
                    ls = base + pos as u64;
                    self.add_line(ls);
                    proof {
                        let next = scan_until(d, pos as int, stop as int, mode);
                        assert(rest.0 == seq![(pos - n, n as int)] + next.0);
                        let nf = found.push((pos - n, n as int));
                        assert(found + rest.0 == nf + next.0);
                        assert(starts_after(nf, base as int) =~= starts_after(found, base as int).push(
                            ls as int,
                        ));
                        assert(lengths_before(nf, base as int, line_start as int) =~= lengths_before(
                            found,
                            base as int,
                            line_start as int,
                        ).push(newline_abs - ls_old_value(found, base as int, line_start as int)));
                        found = nf;
                    }
                },
                None => {
                    proof {
                        lemma_step_positive(d, pos as int, mode);
                    }
                    pos += scan_step_at(data, pos, mode);
                },
            }
        }
        (true, pos, ls)
    }
}

/// Where the current line starts after the endings `bs`, the first line
/// having started at `first`.
pub(crate) open spec fn ls_old_value(bs: Seq<(int, int)>, base: int, first: int) -> int {
    if bs.len() == 0 {
        first
    } else {
        base + bs.last().0 + bs.last().1
    }
}

/// The lines recorded by a full scan are the lines of the text.
pub(crate) proof fn lemma_full_scan_lines(d: Seq<u8>, base: int, mode: UtfMode, ls: int)
    requires
        d.len() > 0,
        ls == ls_old_value(breaks(d, mode), base, base),
    ensures
        seq![base] + starts_after(breaks(d, mode), base) == line_positions(d, base, mode),
        lengths_before(breaks(d, mode), base, base).push(base + d.len() - ls) == line_lengths(
            d,
            mode,
        ),
{
    let bs = breaks(d, mode);
    assert(seq![base] + starts_after(bs, base) =~= line_positions(d, base, mode));
    assert(lengths_before(bs, base, base).push(base + d.len() - ls) =~= line_lengths(d, mode));
}

impl LineIndex {
    /// Builds the index of `data`, a text that starts at file position
    /// `base`, checking `cancel` (when given) between steps.
    fn build_core(
        &mut self,
        data: &[u8],
        base: u64,
        utf_mode: UtfMode,
        cancel: Option<&AtomicBool>,
    ) -> (r: bool)
        requires
            base + data@.len() <= i64::MAX,
            data@.len() < max_lines() - 1,
        ensures
            final(self).well_formed(),
            final(self).scanned(),
            cancel is None ==> r,
            r ==> final(self).holds_lines_of(data@, base as int, utf_mode) && final(self).total()
                == final(self).offsets().len(),
            !r ==> final(self).is_empty(),
    {
        self.clear();
        if let Some(flag) = cancel {
            if cancel_flag_set(flag) {
                self.mark_scanned();
                return false;
            }
        }
        if data.len() == 0 {
            self.mark_scanned();
            assert(line_starts(data@, utf_mode) =~= Seq::<int>::empty());
            assert(line_positions(data@, base as int, utf_mode) =~= Seq::<int>::empty());
            assert(line_lengths(data@, utf_mode) =~= Seq::<int>::empty());
            assert(self.offsets() =~= Seq::<int>::empty());
            assert(self.lengths() =~= Seq::<int>::empty());
            return true;
        }
        self.add_line(base);
        assert(self.offsets() == seq![base as int]);
        let (completed, _, line_start) = self.scan_range(
            data,
            base,
            0,
            data.len(),
            base,
            utf_mode,
            cancel,
        );
        if !completed {
            self.clear();
            self.mark_scanned();
            return false;
        }
        if let Some(flag) = cancel {
            if cancel_flag_set(flag) {
                self.clear();
                self.mark_scanned();
                return false;
            }
        }
        proof {
            let bs = breaks(data@, utf_mode);
            lemma_scan_until_shape(data@, 0, data@.len() as int, utf_mode);
            assert(line_start == ls_old_value(bs, base as int, base as int)) by {
                if bs.len() > 0 {
                    assert(starts_after(bs, base as int).last() == base + bs.last().0 + bs.last().1);
                    assert(self.offsets().last() == starts_after(bs, base as int).last());
                }
            }
            lemma_full_scan_lines(data@, base as int, utf_mode, line_start as int);
        }
        self.add_line_length(base + data.len() as u64 - line_start);
        self.mark_scanned();
        true
    }

    /// Builds the index of `data`, a text that starts at file position 0.
    pub fn build_from_data(&mut self, data: &[u8], utf_mode: UtfMode)
        requires
            data@.len() < max_lines() - 1,
        ensures
            final(self).well_formed(),
            final(self).scanned(),
            final(self).holds_lines_of(data@, 0, utf_mode),
            final(self).total() == final(self).offsets().len(),
    {
        self.build_from_data_at(data, 0, utf_mode);
    }

    /// Builds the index of `data`, a text that starts at file position
    /// `base_offset`.
    pub fn build_from_data_at(&mut self, data: &[u8], base_offset: u64, utf_mode: UtfMode)
        requires
            base_offset + data@.len() <= i64::MAX,
            data@.len() < max_lines() - 1,
        ensures
            final(self).well_formed(),
            final(self).scanned(),
            final(self).holds_lines_of(data@, base_offset as int, utf_mode),
            final(self).total() == final(self).offsets().len(),
    {
        self.build_core(data, base_offset, utf_mode, None);
    }

    /// Builds the index of `data`, a text that starts at file position
    /// `base_offset`, stopping early when `cancel_requested` is set.
    ///
    /// Returns `true` when the index was built completely; `false` when the
    /// scan was cancelled, which leaves the index empty and marked scanned.
    pub fn build_from_data_at_cancelable(
        &mut self,
        data: &[u8],
        base_offset: u64,
        utf_mode: UtfMode,
        cancel_requested: &AtomicBool,
    ) -> (r: bool)
        requires
            base_offset + data@.len() <= i64::MAX,
            data@.len() < max_lines() - 1,
        ensures
            final(self).well_formed(),
            final(self).scanned(),
            r ==> final(self).holds_lines_of(data@, base_offset as int, utf_mode),
            r ==> final(self).total() == final(self).offsets().len(),
            !r ==> final(self).is_empty(),
    {
        self.build_core(data, base_offset, utf_mode, Some(cancel_requested))
    }
}

proof fn lemma_increasing_around(o: Seq<int>, j: int)
    requires
        increasing(o),
        0 <= j < o.len(),
    ensures
        forall|i: int| 0 <= i < j ==> #[trigger] o[i] < o[j],
        forall|i: int| j < i < o.len() ==> #[trigger] o[i] > o[j],
{
    reveal(increasing);
}

/// The range of lines the chunk index leaves for the start of line
/// `line_index`, among `n` lines with chunk table `table`.
pub open spec fn line_search_bounds(table: Seq<(int, int)>, n: int, line_index: int) -> (int, int) {
    if table.len() == 0 || n == 0 || line_index < CHUNK_BEGIN {
        (0, n)
    } else {
        let p = choose|p: int| is_line_partition(table, line_index, p);
        if p >= table.len() {
            (min_int(table.last().0 + 1, n), n)
        } else {
            let left = if p == 0 {
                CHUNK_BEGIN as int
            } else {
                table[p - 1].0 + 1
            };
            (min_int(left, n), min_int(table[p].0 + 1, n))
        }
    }
}

/// `p` splits `table` into the chunks that end before line `line_index` and
/// those that end at or after it.
pub open spec fn is_line_partition(table: Seq<(int, int)>, line_index: int, p: int) -> bool {
    &&& 0 <= p <= table.len()
    &&& (p == 0 || table[p - 1].0 < line_index)
    &&& (p == table.len() || table[p].0 >= line_index)
}

pub open spec fn min_int(a: int, b: int) -> int {
    if a < b {
        a
    } else {
        b
    }
}

/// `max + 1`, capped at `n`.
fn bound_after(max: u64, n: usize) -> (r: usize)
    ensures
        r == min_int(max + 1, n as int),
{
    if max >= n as u64 {
        n
    } else {
        max as usize + 1
    }
}

impl LineIndex {
    /// The start of line `index`, if the index holds it.
    fn offset_at(&self, index: usize) -> (r: Option<u64>)
        ensures
            index < self.offsets().len() ==> r == Some(self.offsets()[index as int] as u64),
            index >= self.offsets().len() ==> r is None,
    {
        proof {
            lemma_all_offsets(self.direct_offsets@, self.extended_offsets@);
        }
        if index < self.direct_offsets.len() {
            Some(self.direct_offsets[index] as u64)
        } else if index - self.direct_offsets.len() < self.extended_offsets.len() {
            Some(self.extended_offsets[index - self.direct_offsets.len()])
        } else {
            None
        }
    }

    /// The number of line starts held.
    fn offset_count(&self) -> (r: usize)
        requires
            self.well_formed(),
        ensures
            r == self.offsets().len(),
    {
        proof {
            lemma_all_offsets(self.direct_offsets@, self.extended_offsets@);
        }
        self.direct_offsets.len() + self.extended_offsets.len()
    }

    /// The number of leading chunks whose last line is before `line_index`
    /// (a chunk table's lines increase, so these come first).
    fn chunks_before_line(&self, line_index: u64) -> (r: usize)
        ensures
            r <= self.chunks@.len(),
            r == 0 || self.chunks@[r - 1].max_line_index < line_index,
            r == self.chunks@.len() || self.chunks@[r as int].max_line_index >= line_index,
    {
        let mut lo: usize = 0;
        let mut hi: usize = self.chunks.len();
        while lo < hi
            invariant
                lo <= hi <= self.chunks@.len(),
                lo == 0 || self.chunks@[lo - 1].max_line_index < line_index,
                hi == self.chunks@.len() || self.chunks@[hi as int].max_line_index >= line_index,
            decreases hi - lo,
        {
            let mid = lo + (hi - lo) / 2;
            if self.chunks[mid].max_line_index < line_index {
                lo = mid + 1;
            } else {
                hi = mid;
            }
        }
        lo
    }

    /// The number of leading chunks that start at or before `pos` (a chunk
    /// table's start positions increase, so these come first).
    fn chunks_starting_by(&self, pos: u64) -> (r: usize)
        ensures
            r <= self.chunks@.len(),
            r == 0 || self.chunks@[r - 1].start_pos <= pos,
            r == self.chunks@.len() || self.chunks@[r as int].start_pos > pos,
    {
        let mut lo: usize = 0;
        let mut hi: usize = self.chunks.len();
        while lo < hi
            invariant
                lo <= hi <= self.chunks@.len(),
                lo == 0 || self.chunks@[lo - 1].start_pos <= pos,
                hi == self.chunks@.len() || self.chunks@[hi as int].start_pos > pos,
            decreases hi - lo,
        {
            let mid = lo + (hi - lo) / 2;
            if self.chunks[mid].start_pos <= pos {
                lo = mid + 1;
            } else {
                hi = mid;
            }
        }
        lo
    }

    /// Narrows, with the chunk index, the range of lines where line
    /// `line_index` can be looked up. For an index that holds the line, the
    /// range contains it.
    pub fn search_bounds_by_line(&self, line_index: usize) -> (r: (usize, usize))
        requires
            self.well_formed(),
        ensures
            r.0 <= self.offsets().len() && r.1 <= self.offsets().len(),
            line_index < self.offsets().len() ==> r.0 <= line_index < r.1,
            (r.0 as int, r.1 as int) == line_search_bounds(
                self.chunk_table(),
                self.offsets().len() as int,
                line_index as int,
            ),
    {
        let n = self.offset_count();
        let ghost t = self.chunk_table();
        let ghost c = self.chunks@;
        proof {
            self.lemma_chunk_table();
        }
        if self.chunks.len() == 0 || n == 0 || line_index < CHUNK_BEGIN {
            return (0, n);
        }
        let p = self.chunks_before_line(line_index as u64);
        proof {
            assert(is_line_partition(t, line_index as int, p as int));
            let q = choose|q: int| is_line_partition(t, line_index as int, q);
            // the boundary of an increasing sequence is unique
            assert(q == p) by {
                if q < p {
                    assert(t[q].0 >= line_index && t[p - 1].0 < line_index);
                    lemma_chunks_ordered(c, self.offsets(), q, p - 1);
                } else if p < q {
                    assert(t[p as int].0 >= line_index && t[q - 1].0 < line_index);
                    lemma_chunks_ordered(c, self.offsets(), p as int, q - 1);
                }
            }
        }
        if p >= self.chunks.len() {
            let left = bound_after(self.chunks[self.chunks.len() - 1].max_line_index, n);
            return (left, n);
        }
        let left = if p == 0 {
            if CHUNK_BEGIN < n {
                CHUNK_BEGIN
            } else {
                n
            }
        } else {
            bound_after(self.chunks[p - 1].max_line_index, n)
        };
        let right = bound_after(self.chunks[p].max_line_index, n);
        (left, right)
    }
}

/// Chunk ends increase, in a valid chunk table.
proof fn lemma_chunks_ordered(c: Seq<ChunkIndex>, o: Seq<int>, a: int, b: int)
    requires
        chunks_ok(c, o),
        0 <= a <= b < c.len(),
    ensures
        c[a].max_line_index <= c[b].max_line_index,
        a < b ==> c[a].max_line_index < c[b].max_line_index,
{
    reveal(chunks_ok);
    lemma_chunk_max_increasing(c, o.len() as int, a, b);
}

/// Chunk ends increase.
proof fn lemma_chunk_max_increasing(c: Seq<ChunkIndex>, n: int, a: int, b: int)
    requires
        forall|k: int|
            0 <= k < c.len() ==> chunk_first(c, k) <= (#[trigger] c[k]).max_line_index
                && c[k].max_line_index < n,
        0 <= a <= b < c.len(),
    ensures
        c[a].max_line_index <= c[b].max_line_index,
        a < b ==> c[a].max_line_index < c[b].max_line_index,
    decreases b - a,
{
    if a < b {
        lemma_chunk_max_increasing(c, n, a, b - 1);
        assert(chunk_first(c, b) <= c[b].max_line_index);
    }
}

/// Line `r` of the lines starting at `o` is the one that holds byte `pos`:
/// the last line that starts at or before `pos`, or line 0 when `pos` lies
/// before the first line.
pub open spec fn line_holds_pos(o: Seq<int>, r: int, pos: int) -> bool {
    &&& 0 <= r < o.len()
    &&& (r == 0 || o[r] <= pos)
    &&& (r + 1 == o.len() || o[r + 1] > pos)
}

/// `p` splits `table` into the chunks that start at or before `pos` and
/// those that start after it.
pub open spec fn is_pos_partition(table: Seq<(int, int)>, pos: int, p: int) -> bool {
    &&& 0 <= p <= table.len()
    &&& (p == 0 || table[p - 1].1 <= pos)
    &&& (p == table.len() || table[p].1 > pos)
}

/// The range of lines the chunk index and overstep position leave for the
/// line that contains byte `pos`, among `n` lines.
pub open spec fn pos_search_bounds(table: Seq<(int, int)>, overstep: int, n: int, pos: int) -> (
    int,
    int,
) {
    if table.len() == 0 || n == 0 {
        (0, n)
    } else if overstep != 0 && pos >= overstep {
        (min_int(table.last().0 + 1, n), n)
    } else {
        let p = choose|p: int| is_pos_partition(table, pos, p);
        if p == 0 {
            (0, min_int(table[0].0 + 1, n))
        } else {
            let left = if p == 1 {
                CHUNK_BEGIN as int
            } else {
                table[p - 2].0 + 1
            };
            (min_int(left, n), min_int(table[p - 1].0 + 1, n))
        }
    }
}

/// What the chunk invariant says of chunk `k`.
proof fn lemma_chunk_at(c: Seq<ChunkIndex>, o: Seq<int>, k: int)
    requires
        chunks_ok(c, o),
        0 <= k < c.len(),
    ensures
        chunk_first(c, k) <= c[k].max_line_index < o.len(),
        c[k].start_pos == o[chunk_first(c, k)],
{
    reveal(chunks_ok);
}

/// Chunk start positions strictly increase.
proof fn lemma_chunk_start_increasing(c: Seq<ChunkIndex>, o: Seq<int>, a: int, b: int)
    requires
        chunks_ok(c, o),
        increasing(o),
        0 <= a < b < c.len(),
    ensures
        c[a].start_pos < c[b].start_pos,
{
    reveal(chunks_ok);
    lemma_chunk_max_increasing(c, o.len() as int, a, b - 1);
    assert(chunk_first(c, a) <= c[a].max_line_index);
    assert(chunk_first(c, b) == c[b - 1].max_line_index + 1);
    assert(c[a].start_pos == o[chunk_first(c, a)]);
    assert(c[b].start_pos == o[chunk_first(c, b)]);
    assert(chunk_first(c, b) <= c[b].max_line_index);
    lemma_increasing_at(o, chunk_first(c, a), chunk_first(c, b));
}

impl LineIndex {
    /// The chunk table as pairs, entry by entry.
    proof fn lemma_chunk_table(&self)
        ensures
            self.chunk_table().len() == self.chunks@.len(),
            forall|k: int|
                0 <= k < self.chunks@.len() ==> (#[trigger] self.chunk_table()[k]).0
                    == self.chunks@[k].max_line_index && self.chunk_table()[k].1
                    == self.chunks@[k].start_pos,
    {
    }

    /// Narrows, with the chunk index and the overstep position, the range of
    /// lines where the line that contains byte `pos` can be found: every line
    /// before the range starts at or before `pos`, every line from its end on
    /// starts after `pos`.
    pub fn search_bounds_by_pos(&self, pos: u64) -> (r: (usize, usize))
        requires
            self.well_formed(),
        ensures
            r.0 <= self.offsets().len() && r.1 <= self.offsets().len(),
            forall|i: int| 0 <= i < r.0 ==> #[trigger] self.offsets()[i] <= pos,
            forall|i: int| r.1 <= i < self.offsets().len() ==> #[trigger] self.offsets()[i] > pos,
            (r.0 as int, r.1 as int) == pos_search_bounds(
                self.chunk_table(),
                self.overstep(),
                self.offsets().len() as int,
                pos as int,
            ),
    {
        let n = self.offset_count();
        let ghost t = self.chunk_table();
        let ghost c = self.chunks@;
        let ghost o = self.offsets();
        proof {
            self.lemma_chunk_table();
        }
        if self.chunks.len() == 0 || n == 0 {
            return (0, n);
        }
        let last = self.chunks.len() - 1;
        if self.overstep_pos != 0 && pos >= self.overstep_pos {
            let left = bound_after(self.chunks[last].max_line_index, n);
            proof {
                let j = c[last as int].max_line_index + 1;
                assert(o[j] == self.overstep_pos);
                lemma_increasing_around(o, j);
            }
            return (left, n);
        }
        let p = self.chunks_starting_by(pos);
        proof {
            assert(is_pos_partition(t, pos as int, p as int));
            let q = choose|q: int| is_pos_partition(t, pos as int, q);
            assert(q == p) by {
                if q < p {
                    assert(t[q].1 > pos && t[p - 1].1 <= pos);
                    if q < p - 1 {
                        lemma_chunk_start_increasing(c, o, q, p - 1);
                    }
                } else if p < q {
                    assert(t[p as int].1 > pos && t[q - 1].1 <= pos);
                    if p < q - 1 {
                        lemma_chunk_start_increasing(c, o, p as int, q - 1);
                    }
                }
            }
        }
        if p == 0 {
            let right = bound_after(self.chunks[0].max_line_index, n);
            proof {
                // the first chunk's first line starts after pos, so does every later line
                lemma_chunk_at(c, o, 0);
                lemma_increasing_around(o, CHUNK_BEGIN as int);
            }
            return (0, right);
        }
        let ci = p - 1;
        let left = if ci == 0 {
            if CHUNK_BEGIN < n {
                CHUNK_BEGIN
            } else {
                n
            }
        } else {
            bound_after(self.chunks[ci - 1].max_line_index, n)
        };
        let right = bound_after(self.chunks[ci].max_line_index, n);
        proof {
            lemma_chunk_at(c, o, ci as int);
            let f = chunk_first(c, ci as int);
            assert(left == f);
            lemma_increasing_around(o, f);
            let e = c[ci as int].max_line_index + 1;
            if e < n {
                if p < c.len() {
                    lemma_chunk_at(c, o, p as int);
                    assert(chunk_first(c, p as int) == e);
                } else {
                    assert(o[e] == self.overstep_pos);
                }
                lemma_increasing_around(o, e);
            }
        }
        (left, right)
    }

    /// The line that contains byte `pos`: the last line that starts at or
    /// before `pos` (line 0 when `pos` lies before the first line), among
    /// the lines indexed so far. -1 for a negative position or an empty
    /// index.
    pub fn get_line_by_pos(&self, pos: i64) -> (r: i64)
        requires
            self.well_formed(),
        ensures
            (pos < 0 || self.offsets().len() == 0) ==> r == -1,
            !(pos < 0 || self.offsets().len() == 0) ==> line_holds_pos(
                self.offsets(),
                r as int,
                pos as int,
            ),
    {
        if pos < 0 {
            return -1;
        }
        let upos = pos as u64;
        let (mut left, mut right) = self.search_bounds_by_pos(upos);
        let n = self.offset_count();
        if n == 0 {
            return -1;
        }
        let ghost o = self.offsets();
        proof {
            reveal(increasing);
        }
        while left < right
            invariant
                o == self.offsets(),
                increasing(o),
                o.len() <= max_lines(),
                n == o.len(),
                left <= n && right <= n,
                forall|i: int| 0 <= i < left ==> #[trigger] o[i] <= upos,
                forall|i: int| right <= i < n ==> #[trigger] o[i] > upos,
            decreases right - left,
        {
            let mid = left + (right - left) / 2;
            match self.offset_at(mid) {
                Some(offset) => {
                    if offset <= upos {
                        proof {
                            lemma_increasing_around(o, mid as int);
                        }
                        left = mid + 1;
                    } else {
                        proof {
                            lemma_increasing_around(o, mid as int);
                        }
                        right = mid;
                    }
                },
                None => {
                    right = mid;
                },
            }
        }
        proof {
            if left < n {
                assert(left >= right);
                assert(o[left as int] > upos);
            }
        }
        if left > 0 {
            (left - 1) as i64
        } else {
            0
        }
    }
}

impl LineIndex {
    /// The start of line `index`, or -1 when the index does not hold that
    /// line (before the scan finishes, the lines found so far are held).
    ///
    /// The last line looked up is remembered, so that asking for it again
    /// needs no search.
    pub fn get_line_pos(&mut self, index: usize) -> (r: i64)
        requires
            old(self).well_formed(),
        ensures
            final(self).well_formed(),
            final(self).offsets() == old(self).offsets(),
            final(self).lengths() == old(self).lengths(),
            final(self).scanned() == old(self).scanned(),
            final(self).total() == old(self).total(),
            final(self).chunk_table() == old(self).chunk_table(),
            final(self).overstep() == old(self).overstep(),
            r == if index < old(self).offsets().len() {
                old(self).offsets()[index as int] as i64
            } else {
                -1i64
            },
    {
        let total = if self.is_scanned {
            self.total_lines as usize
        } else {
            self.offset_count()
        };
        proof {
            lemma_all_offsets(self.direct_offsets@, self.extended_offsets@);
        }
        if index >= total {
            return -1;
        }
        if self.cached_index == index as u64 {
            return self.cached_pos as i64;
        }
        let (left, right) = self.search_bounds_by_line(index);
        if index < left || index >= right {
            return -1;
        }
        let pos = match self.offset_at(index) {
            Some(p) => p,
            None => {
                return -1;
            },
        };
        self.cached_index = index as u64;
        self.cached_pos = pos;
        pos as i64
    }

    /// The length of line `index` without its line ending, or -1 before the
    /// scan has finished or past the last line.
    pub fn get_line_length(&self, index: usize) -> (r: i64)
        requires
            self.well_formed(),
        ensures
            r == if self.scanned() && index < self.total() {
                self.lengths()[index as int] as i64
            } else {
                -1i64
            },
    {
        if !self.is_scanned {
            return -1;
        }
        let total_lines = self.total_lines as usize;
        if index >= total_lines {
            return -1;
        }
        self.line_lengths[index] as i64
    }
}

impl LineIndex {
    /// What a well-formed index guarantees of its positions: line starts
    /// strictly increase, are valid `i64` positions, and so is the end of
    /// every line whose length is known; there is at most one length per
    /// line start.
    pub proof fn lemma_positions(&self)
        requires
            self.well_formed(),
        ensures
            offsets_increasing(self.offsets()),
            self.offsets().len() <= max_lines(),
            self.lengths().len() <= self.offsets().len(),
            forall|i: int|
                0 <= i < self.offsets().len() ==> 0 <= #[trigger] self.offsets()[i] <= i64::MAX,
            forall|i: int|
                0 <= i < self.lengths().len() ==> 0 <= #[trigger] self.lengths()[i]
                    && self.offsets()[i] + self.lengths()[i] <= i64::MAX,
            self.scanned() ==> self.total() == self.offsets().len() && self.lengths().len()
                == self.offsets().len(),
            !self.scanned() ==> self.total() == 0,
    {
        reveal(increasing);
        lemma_all_offsets(self.direct_offsets@, self.extended_offsets@);
        let o = self.offsets();
        assert forall|i: int| 0 <= i < o.len() implies 0 <= #[trigger] o[i] <= i64::MAX by {
            if i < o.len() - 1 {
                assert(o[i] < o[o.len() - 1]);
            }
        }
    }
}

/// Every byte of line `i`, from its start up to the next line's start, is
/// reported as lying on line `i`; in particular a line's own start maps back
/// to the line.
pub proof fn lemma_position_maps_to_line(ix: &LineIndex, i: int, pos: int, r: int)
    requires
        ix.well_formed(),
        0 <= i < ix.offsets().len(),
        ix.offsets()[i] <= pos,
        i + 1 == ix.offsets().len() || pos < ix.offsets()[i + 1],
        line_holds_pos(ix.offsets(), r, pos),
    ensures
        r == i,
{
    ix.lemma_positions();
    let o = ix.offsets();
    if r < i {
        assert(o[r + 1] <= o[i]);
    } else if r > i {
        assert(o[i + 1] <= o[r]);
    }
}

/// The index of a non-empty text at file position `base` covers the text
/// exactly: it has at least one line, the first starts at `base`, each line
/// ends where a line ending starts and the next line starts right after it,
/// and the last line ends at the end of the text.
pub proof fn lemma_index_covers_text(ix: &LineIndex, d: Seq<u8>, base: int, mode: UtfMode)
    requires
        ix.holds_lines_of(d, base, mode),
        d.len() > 0,
    ensures
        ({
            let o = ix.offsets();
            let l = ix.lengths();
            &&& o.len() >= 1
            &&& l.len() == o.len()
            &&& o[0] == base
            &&& forall|i: int|
                0 <= i < o.len() - 1 ==> o[i] + l[i] < o[i + 1] && newline_at(
                    d,
                    #[trigger] (o[i] + l[i]) - base,
                    mode,
                ) == Some(o[i + 1] - (o[i] + l[i]))
            &&& o[o.len() - 1] + l[o.len() - 1] == base + d.len()
        }),
{
    lemma_lines_tile(d, mode);
    let s = line_starts(d, mode);
    let len = line_lengths(d, mode);
    let o = ix.offsets();
    assert forall|i: int| 0 <= i < o.len() - 1 implies o[i] + ix.lengths()[i] < o[i + 1]
        && newline_at(d, #[trigger] (o[i] + ix.lengths()[i]) - base, mode) == Some(
        o[i + 1] - (o[i] + ix.lengths()[i]),
    ) by {
        assert(o[i] == s[i] + base && o[i + 1] == s[i + 1] + base);
        assert((o[i] + ix.lengths()[i]) - base == s[i] + len[i]);
    }
}

} // verus!
