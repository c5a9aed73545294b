//! The state of a loaded file and the decisions made on it.
//!
//! [`FileState`] holds what is known of the loaded file (its size, the text
//! mode, the last error, whether it is loaded and whether a line scan is
//! running) together with its [`LineIndex`]. Reading and mapping the file's
//! bytes happen outside; this module decides what to do and which byte
//! ranges to read:
//!
//! - the loading steps, from opening the file to having it loaded;
//! - which text mode a scan uses, and the scan itself, fed one window at a
//!   time so that the lines found are visible while it runs;
//! - which part of a large file to map;
//! - which bytes a data read, a line read, a line batch read or a read to
//!   the end of a line covers.
use vstd::prelude::*;
use std::sync::atomic::AtomicBool;
use crate::encoding::{detect_encoding, detected_encoding, TextEncoding};
use crate::error::{error_code_of, error_of_code, lemma_error_code_round_trip, FjiffyldgError, UtfMode};
use crate::line_index::{
    cancel_flag_set, lemma_index_covers_text, line_holds_pos, max_lines, offsets_increasing, LineIndex,
};
use crate::line_scan::{line_lengths, line_positions, newline_at};
use crate::window_scan::WindowScan;

verus! {

/// Files up to this size are read whole; larger ones are mapped window by
/// window.
pub const USUALLY_IO_SIZE_MAX: u64 = 10 * 1024 * 1024;

/// Bytes read when a data read asks for length 0.
pub const BUFFER_SIZE: usize = 128 * 1024;

/// Lines longer than this are cut when read line by line.
pub const CRITICAL_LONGLINE_LEN: usize = 4 * 1024;

/// Default size of a mapped window of a large file.
pub const MMAP_CHUNK_SIZE: u64 = 1024 * 1024 * 1024;

/// Size of the windows a line scan is fed, so that the lines found become
/// visible while the scan runs.
pub const SCAN_WINDOW_SIZE: u64 = 1024 * 1024;

// ---------------------------------------------------------------------------
// Text mode of a scan
// ---------------------------------------------------------------------------

/// The line-scan mode for a file whose start was detected as `e`.
pub open spec fn mode_of_encoding(e: TextEncoding) -> UtfMode {
    match e {
        TextEncoding::Utf16Le => UtfMode::Utf16Le,
        TextEncoding::Utf16Be => UtfMode::Utf16Be,
        TextEncoding::Utf32Le => UtfMode::Utf32Le,
        TextEncoding::Utf32Be => UtfMode::Utf32Be,
        TextEncoding::Ascii | TextEncoding::Utf8 | TextEncoding::Unknown => UtfMode::Default,
    }
}

/// The line-scan mode that the byte-order mark of `data` calls for: a UTF-16
/// or UTF-32 mark selects that mode, anything else byte scanning.
pub fn detect_utf_mode(data: &[u8]) -> (r: UtfMode)
    ensures
        r == mode_of_encoding(detected_encoding(data@)),
{
    match detect_encoding(data) {
        TextEncoding::Utf16Le => UtfMode::Utf16Le,
        TextEncoding::Utf16Be => UtfMode::Utf16Be,
        TextEncoding::Utf32Le => UtfMode::Utf32Le,
        TextEncoding::Utf32Be => UtfMode::Utf32Be,
        TextEncoding::Ascii | TextEncoding::Utf8 | TextEncoding::Unknown => UtfMode::Default,
    }
}

/// The mode a scan uses.
///
/// A mode forced by the caller wins, except that `AutoDetect`, and
/// `Default` when detection is on, take the file's detected mode. Without a
/// forced mode, a mode set earlier (other than `Default`) is kept; otherwise
/// the detected mode is used when detection is on, byte scanning when not.
pub open spec fn scan_mode(
    forced: Option<UtfMode>,
    auto_detect: bool,
    file_mode: UtfMode,
    current: UtfMode,
) -> UtfMode {
    match forced {
        Some(UtfMode::Default) => if auto_detect {
            file_mode
        } else {
            UtfMode::Default
        },
        Some(UtfMode::AutoDetect) => file_mode,
        Some(m) => m,
        None => if current != UtfMode::Default {
            current
        } else if auto_detect {
            file_mode
        } else {
            UtfMode::Default
        },
    }
}

/// Picks the mode a scan uses (see [`scan_mode`]).
pub fn resolve_scan_utf_mode(
    forced_utf_mode: Option<UtfMode>,
    auto_detect: bool,
    file_utf_mode: UtfMode,
    current_utf_mode: UtfMode,
) -> (r: UtfMode)
    ensures
        r == scan_mode(forced_utf_mode, auto_detect, file_utf_mode, current_utf_mode),
{
    match forced_utf_mode {
        Some(UtfMode::Default) => {
            if auto_detect {
                file_utf_mode
            } else {
                UtfMode::Default
            }
        },
        Some(UtfMode::AutoDetect) => file_utf_mode,
        Some(mode) => mode,
        None => {
            if current_utf_mode != UtfMode::Default {
                current_utf_mode
            } else if auto_detect {
                file_utf_mode
            } else {
                UtfMode::Default
            }
        },
    }
}

// ---------------------------------------------------------------------------
// Mapped windows of a large file
// ---------------------------------------------------------------------------

/// The window of a file of `file_size` bytes, mapped in `chunk`-byte steps,
/// that serves a read of `len` bytes at `pos`: it starts at the chunk
/// boundary at or before `pos` and runs one chunk, or further when the read
/// needs it, but not past the end of the file. The result is the window's
/// start and length.
pub open spec fn map_window(pos: int, len: int, chunk: int, file_size: int) -> (int, int) {
    let aligned = (pos / chunk) * chunk;
    let requested_end = if pos + len < file_size {
        pos + len
    } else {
        file_size
    };
    let chunk_end = aligned + chunk;
    let wide_end = if chunk_end > requested_end {
        chunk_end
    } else {
        requested_end
    };
    let window_end = if wide_end < file_size {
        wide_end
    } else {
        file_size
    };
    (aligned, if window_end > aligned {
        window_end - aligned
    } else {
        0
    })
}

/// Computes [`map_window`].
pub fn map_window_for(pos: u64, len: u64, chunk_size: u64, file_size: u64) -> (r: (u64, u64))
    requires
        chunk_size >= 1,
    ensures
        (r.0 as int, r.1 as int) == map_window(
            pos as int,
            len as int,
            chunk_size as int,
            file_size as int,
        ),
{
    proof {
        vstd::arithmetic::div_mod::lemma_fundamental_div_mod(pos as int, chunk_size as int);
        vstd::arithmetic::mul::lemma_mul_is_commutative(pos as int / chunk_size as int, chunk_size as int);
        assert(pos % chunk_size <= pos) by (nonlinear_arith)
            requires
                pos as int == chunk_size * (pos as int / chunk_size as int) + pos as int % chunk_size as int,
                pos as int / chunk_size as int >= 0,
                chunk_size >= 1,
        ;
    }
    let aligned = pos - pos % chunk_size;
    let requested_end = if len < file_size && pos < file_size - len {
        pos + len
    } else {
        file_size
    };
    let window_end = if chunk_size <= u64::MAX - aligned {
        let chunk_end = aligned + chunk_size;
        let wide_end = if chunk_end > requested_end {
            chunk_end
        } else {
            requested_end
        };
        if wide_end < file_size {
            wide_end
        } else {
            file_size
        }
    } else {
        file_size
    };
    let window_len = if window_end > aligned {
        window_end - aligned
    } else {
        0
    };
    (aligned, window_len)
}

/// Whether a mapped window that starts at `offset` and holds `mapped_len`
/// bytes covers the `len` bytes at `pos`.
pub fn window_covers(offset: u64, mapped_len: u64, pos: u64, len: u64) -> (r: bool)
    ensures
        r == (offset <= pos && pos + len <= offset + mapped_len),
{
    if pos < offset {
        return false;
    }
    pos - offset <= mapped_len && len <= mapped_len - (pos - offset)
}

/// A window computed by [`map_window`] for a read that lies within the file
/// covers the read.
pub proof fn lemma_map_window_covers(pos: int, len: int, chunk: int, file_size: int)
    requires
        chunk >= 1,
        0 <= pos,
        0 <= len,
        pos + len <= file_size,
    ensures
        ({
            let w = map_window(pos, len, chunk, file_size);
            &&& 0 <= w.0 <= pos
            &&& pos + len <= w.0 + w.1
            &&& w.0 + w.1 <= file_size || w.1 == 0
            &&& w.0 % chunk == 0
        }),
{
    vstd::arithmetic::div_mod::lemma_fundamental_div_mod(pos, chunk);
    let aligned = (pos / chunk) * chunk;
    assert(aligned <= pos) by (nonlinear_arith)
        requires
            aligned == (pos / chunk) * chunk,
            chunk >= 1,
            pos == chunk * (pos / chunk) + pos % chunk,
            pos % chunk >= 0,
    ;
    assert(0 <= aligned) by (nonlinear_arith)
        requires
            aligned == (pos / chunk) * chunk,
            chunk >= 1,
            pos >= 0,
    ;
    vstd::arithmetic::div_mod::lemma_mod_multiples_basic(pos / chunk, chunk);
}

// ---------------------------------------------------------------------------
// The file state
// ---------------------------------------------------------------------------

/// What to do next while loading a file.
#[derive(Debug, Clone, Copy, PartialEq, Eq, Structural)]
pub enum LoadStep {
    /// The file is empty and already loaded.
    Done,
    /// Read the whole file into memory.
    ReadWhole,
    /// Map the window of `len` bytes at `offset`.
    MapWindow { offset: u64, len: u64 },
}

/// The state of one loaded file.
pub struct FileState {
    index: LineIndex,
    file_size: u64,
    utf_mode: UtfMode,
    error_code: i32,
    is_loaded: bool,
    scanning: bool,
    mmap_chunk_size: u64,
    progress: Option<WindowScan>,
    cancel_seen: bool,
}

impl FileState {
    /// The line index of the file.
    pub closed spec fn lines(&self) -> LineIndex {
        self.index
    }

    /// The file size in bytes.
    pub closed spec fn size(&self) -> int {
        self.file_size as int
    }

    /// The text mode set for the file.
    pub closed spec fn mode(&self) -> UtfMode {
        self.utf_mode
    }

    /// The code of the last error (0 when none).
    pub closed spec fn code(&self) -> i32 {
        self.error_code
    }

    /// Whether a file is loaded.
    pub closed spec fn loaded(&self) -> bool {
        self.is_loaded
    }

    /// Whether a line scan is running.
    pub closed spec fn scan_running(&self) -> bool {
        self.scanning
    }

    /// The size of a mapped window.
    pub closed spec fn chunk(&self) -> int {
        self.mmap_chunk_size as int
    }

    /// The line scan being fed window by window, if one is.
    pub closed spec fn scan(&self) -> Option<WindowScan> {
        self.progress
    }

    /// The last scan fed window by window ended because a request to stop it
    /// was seen.
    pub closed spec fn stopped_by_request(&self) -> bool {
        self.cancel_seen
    }

    /// The line count the state reports: -1 while no file is loaded, while
    /// a scan runs or before the index is marked scanned; otherwise the
    /// number of lines the index holds.
    pub open spec fn line_count(&self) -> int {
        if !self.loaded() || self.scan_running() || !self.lines().scanned() {
            -1
        } else {
            self.lines().total()
        }
    }

    /// What the state's invariant gives of its line index: the index is
    /// well formed, once marked scanned it holds a length for every line
    /// start, and every line the line count covers has a start and a length.
    pub proof fn lemma_index_facts(&self)
        requires
            self.well_formed(),
        ensures
            self.lines().well_formed(),
            self.lines().scanned() ==> self.lines().total() == self.lines().offsets().len()
                && self.lines().lengths().len() == self.lines().offsets().len(),
            forall|i: int|
                0 <= i < self.line_count() ==> line_pos_in(self.lines(), i) >= 0 && line_len_in(
                    self.lines(),
                    i,
                ) >= 0,
    {
        self.index.lemma_positions();
    }

    /// The state's invariant: a well-formed line index, a size that is a
    /// valid `i64` position, and a nonzero window size.
    pub closed spec fn well_formed(&self) -> bool {
        &&& self.index.well_formed()
        &&& self.file_size <= i64::MAX
        &&& self.mmap_chunk_size >= 1
        &&& self.progress matches Some(p) ==> p.inv(&self.index)
    }

    /// No file: nothing loaded, no error, default mode, an empty index not
    /// yet scanned.
    pub fn new() -> (r: Self)
        ensures
            r.well_formed(),
            !r.loaded(),
            !r.scan_running(),
            r.size() == 0,
            r.code() == 0,
            r.mode() == UtfMode::Default,
            r.chunk() == MMAP_CHUNK_SIZE,
            r.lines().is_empty(),
            !r.lines().scanned(),
            r.scan() is None,
    {
        FileState {
            index: LineIndex::new(),
            file_size: 0,
            utf_mode: UtfMode::Default,
            error_code: 0,
            is_loaded: false,
            scanning: false,
            mmap_chunk_size: MMAP_CHUNK_SIZE,
            progress: None,
            cancel_seen: false,
        }
    }

    /// The code of the last error: 0 none, -1 file missing, 1 inaccessible,
    /// 2 stream error, 3 mapping failed (see [`FjiffyldgError`]).
    pub fn get_error_code(&self) -> (r: i32)
        ensures
            r == self.code(),
    {
        self.error_code
    }

    /// Whether a file is loaded.
    pub fn is_loaded(&self) -> (r: bool)
        ensures
            r == self.loaded(),
    {
        self.is_loaded
    }

    /// Whether a line scan is running.
    pub fn is_scanning(&self) -> (r: bool)
        ensures
            r == self.scan_running(),
    {
        self.scanning
    }

    /// The file size in bytes.
    pub fn get_file_size(&self) -> (r: i64)
        requires
            self.well_formed(),
        ensures
            r == self.size(),
    {
        self.file_size as i64
    }

    /// The text mode set for the file.
    pub fn get_utf_mode(&self) -> (r: UtfMode)
        ensures
            r == self.mode(),
    {
        self.utf_mode
    }

    /// The size of a mapped window.
    pub fn mmap_chunk_size(&self) -> (r: u64)
        ensures
            r == self.chunk(),
    {
        self.mmap_chunk_size
    }

    /// Sets the text mode.
    pub fn set_utf_mode(&mut self, mode: UtfMode)
        requires
            old(self).well_formed(),
        ensures
            final(self).well_formed(),
            final(self).mode() == mode,
            final(self).lines() == old(self).lines(),
            final(self).size() == old(self).size(),
            final(self).code() == old(self).code(),
            final(self).loaded() == old(self).loaded(),
            final(self).scan_running() == old(self).scan_running(),
            final(self).chunk() == old(self).chunk(),
            final(self).scan() == old(self).scan(),
    {
        self.utf_mode = mode;
        self.index.set_utf_mode(mode);
    }

    /// Whether the file is loaded (`Ok(true)`), not loaded without an error
    /// (`Ok(false)`), or not loaded because of the recorded error; an
    /// unknown code reports [`FjiffyldgError::IoError`].
    pub open spec fn load_status(&self) -> Result<bool, FjiffyldgError> {
        if self.loaded() {
            Ok(true)
        } else if self.code() == 0 {
            Ok(false)
        } else {
            match error_of_code(self.code()) {
                Some(e) => Err(e),
                None => Err(FjiffyldgError::IoError),
            }
        }
    }

    /// The load status (see [`FileState::load_status`]).
    pub fn get_load_status(&self) -> (r: Result<bool, FjiffyldgError>)
        ensures
            r == self.load_status(),
    {
        if self.is_loaded {
            return Ok(true);
        }
        let code = self.error_code;
        if code == 0 {
            Ok(false)
        } else {
            match FjiffyldgError::from_error_code(code) {
                Some(e) => Err(e),
                None => Err(FjiffyldgError::IoError),
            }
        }
    }

    // -----------------------------------------------------------------------
    // Loading
    // -----------------------------------------------------------------------

    /// Starts a load: the previous file is forgotten (no size, not loaded,
    /// no scan, an empty index marked scanned). The last error stays until
    /// the load ends.
    pub fn begin_load(&mut self)
        requires
            old(self).well_formed(),
        ensures
            final(self).well_formed(),
            !final(self).loaded(),
            !final(self).scan_running(),
            final(self).size() == 0,
            final(self).lines().is_empty(),
            final(self).lines().scanned(),
            final(self).code() == old(self).code(),
            final(self).mode() == old(self).mode(),
            final(self).chunk() == old(self).chunk(),
            final(self).scan() is None,
            final(self).line_count() == -1,
    {
        self.progress = None;
        self.index.clear();
        self.index.mark_scanned();
        self.scanning = false;
        self.file_size = 0;
        self.is_loaded = false;
    }

    /// Records that the load failed with `err`: no size, the error's code
    /// recorded. Returns `err`.
    pub fn load_failed(&mut self, err: FjiffyldgError) -> (r: FjiffyldgError)
        requires
            old(self).well_formed(),
        ensures
            final(self).well_formed(),
            r == err,
            final(self).code() == error_code_of(err),
            final(self).size() == 0,
            final(self).loaded() == old(self).loaded(),
            final(self).lines() == old(self).lines(),
            final(self).mode() == old(self).mode(),
            final(self).scan_running() == old(self).scan_running(),
            final(self).chunk() == old(self).chunk(),
            final(self).scan() == old(self).scan(),
    {
        self.file_size = 0;
        self.error_code = err.to_error_code();
        err
    }

    /// The file was opened and is `size` bytes long (`is_file` false for a
    /// directory or other non-file). Decides the next step:
    ///
    /// - not a file: fails with [`FjiffyldgError::FileInaccessible`];
    /// - empty: the file is loaded at once, its index holding one empty
    ///   line when it is to be scanned, none otherwise;
    /// - up to [`USUALLY_IO_SIZE_MAX`] bytes: read it whole;
    /// - larger: map its first window.
    pub fn opened(&mut self, size: u64, is_file: bool, mmap_chunk_size: u64, enable_scan: bool) -> (r:
        Result<LoadStep, FjiffyldgError>)
        requires
            old(self).well_formed(),
            size <= i64::MAX,
        ensures
            final(self).well_formed(),
            final(self).mode() == old(self).mode(),
            final(self).scan_running() == old(self).scan_running(),
            !is_file ==> final(self).scan() == old(self).scan(),
            is_file ==> final(self).scan() is None,
            is_file && size == 0 && enable_scan && !old(self).scan_running() ==> final(self).line_count() == 1,
            is_file && size == 0 && !enable_scan && !old(self).scan_running() && old(self).lines().is_empty() ==> final(self).line_count() == 0,
            !is_file ==> {
                &&& r == Err::<LoadStep, FjiffyldgError>(FjiffyldgError::FileInaccessible)
                &&& final(self).code() == error_code_of(FjiffyldgError::FileInaccessible)
                &&& final(self).size() == old(self).size()
                &&& final(self).loaded() == old(self).loaded()
                &&& final(self).lines() == old(self).lines()
            },
            is_file ==> {
                &&& final(self).size() == size
                &&& final(self).chunk() == if mmap_chunk_size == 0 {
                    1
                } else {
                    mmap_chunk_size as int
                }
            },
            is_file && size == 0 ==> {
                &&& r == Ok::<LoadStep, FjiffyldgError>(LoadStep::Done)
                &&& final(self).loaded()
                &&& final(self).code() == 0
                &&& final(self).lines().scanned()
                &&& enable_scan ==> final(self).lines().offsets() == seq![0int]
                    && final(self).lines().lengths() == seq![0int] && final(self).lines().total()
                    == 1
                &&& !enable_scan && old(self).lines().scanned() ==> final(self).lines() == old(self).lines()
            },
            is_file && 0 < size <= USUALLY_IO_SIZE_MAX ==> {
                &&& r == Ok::<LoadStep, FjiffyldgError>(LoadStep::ReadWhole)
                &&& final(self).loaded() == old(self).loaded()
                &&& final(self).lines() == old(self).lines()
                &&& final(self).code() == old(self).code()
            },
            is_file && size > USUALLY_IO_SIZE_MAX ==> {
                &&& r == Ok::<LoadStep, FjiffyldgError>(
                    LoadStep::MapWindow {
                        offset: 0,
                        len: if size < final(self).chunk() {
                            size
                        } else {
                            final(self).chunk() as u64
                        },
                    },
                )
                &&& final(self).loaded() == old(self).loaded()
                &&& final(self).lines() == old(self).lines()
                &&& final(self).code() == old(self).code()
            },
    {
        if !is_file {
            self.error_code = FjiffyldgError::FileInaccessible.to_error_code();
            return Err(FjiffyldgError::FileInaccessible);
        }
        self.progress = None;
        self.file_size = size;
        self.mmap_chunk_size = if mmap_chunk_size == 0 {
            1
        } else {
            mmap_chunk_size
        };
        if size == 0 {
            self.is_loaded = true;
            self.error_code = 0;
            if enable_scan {
                self.index.mark_empty_file();
            } else {
                self.skip_scan();
            }
            return Ok(LoadStep::Done);
        }
        if size <= USUALLY_IO_SIZE_MAX {
            Ok(LoadStep::ReadWhole)
        } else {
            let len = if size < self.mmap_chunk_size {
                size
            } else {
                self.mmap_chunk_size
            };
            Ok(LoadStep::MapWindow { offset: 0, len })
        }
    }

    /// Marks the index scanned as it stands, as when there is nothing to
    /// scan; an index still being filled (a line without its length) is
    /// emptied first.
    pub fn skip_scan(&mut self)
        requires
            old(self).well_formed(),
        ensures
            final(self).well_formed(),
            final(self).lines().scanned(),
            old(self).lines().scanned() ==> final(self).lines() == old(self).lines(),
            old(self).lines().lengths().len() == old(self).lines().offsets().len() ==> {
                &&& final(self).lines().offsets() == old(self).lines().offsets()
                &&& final(self).lines().lengths() == old(self).lines().lengths()
            },
            final(self).size() == old(self).size(),
            final(self).mode() == old(self).mode(),
            final(self).code() == old(self).code(),
            final(self).loaded() == old(self).loaded(),
            final(self).scan_running() == old(self).scan_running(),
            final(self).chunk() == old(self).chunk(),
            final(self).scan() is None,
            old(self).lines().is_empty() ==> final(self).lines().is_empty(),
    {
        self.progress = None;
        if self.index.is_scanned() {
            return;
        }
        if !self.index.lengths_complete() {
            self.index.clear();
        }
        self.index.mark_scanned();
    }

    /// The file's bytes are in place: the file is loaded and the error
    /// cleared. Returns whether a line scan is to be started; when not, the
    /// index is marked scanned as it is.
    pub fn loaded_ok(&mut self, enable_scan: bool) -> (r: bool)
        requires
            old(self).well_formed(),
        ensures
            final(self).well_formed(),
            r == enable_scan,
            final(self).loaded(),
            final(self).code() == 0,
            final(self).size() == old(self).size(),
            final(self).mode() == old(self).mode(),
            final(self).scan_running() == old(self).scan_running(),
            final(self).chunk() == old(self).chunk(),
            !enable_scan ==> final(self).lines().scanned(),
            enable_scan || old(self).lines().scanned() ==> final(self).lines() == old(self).lines(),
            final(self).scan() is None,
            !enable_scan && !old(self).scan_running() && old(self).lines().is_empty() ==> final(self).line_count() == 0,
    {
        self.progress = None;
        self.is_loaded = true;
        self.error_code = 0;
        if !enable_scan {
            self.skip_scan();
        }
        enable_scan
    }
}

/// The start of line `line` as the index `ix` reports it: -1 for a line it
/// does not hold.
pub open spec fn line_pos_in(ix: LineIndex, line: int) -> int {
    if 0 <= line < ix.offsets().len() {
        ix.offsets()[line]
    } else {
        -1
    }
}

/// The length of line `line` as the index `ix` reports it: -1 before the
/// scan has finished or for a line it does not hold.
pub open spec fn line_len_in(ix: LineIndex, line: int) -> int {
    if ix.scanned() && 0 <= line < ix.total() {
        ix.lengths()[line]
    } else {
        -1
    }
}

/// Two indexes hold the same lines and the same chunk table.
pub open spec fn same_lines(a: LineIndex, b: LineIndex) -> bool {
    &&& a.offsets() == b.offsets()
    &&& a.lengths() == b.lengths()
    &&& a.scanned() == b.scanned()
    &&& a.total() == b.total()
    &&& a.chunk_table() == b.chunk_table()
    &&& a.overstep() == b.overstep()
}

/// The byte range a data read covers: from `pos` (negative taken as 0,
/// beyond the end as the end) for `len` bytes (0 meaning [`BUFFER_SIZE`]),
/// cut at the end of a file of `size` bytes.
pub open spec fn read_span(size: int, pos: int, len: int) -> (int, int) {
    let p = if pos < 0 {
        0
    } else {
        pos
    };
    let l = if len == 0 {
        BUFFER_SIZE as int
    } else {
        len
    };
    let start = if p < size {
        p
    } else {
        size
    };
    (start, if l < size - start {
        l
    } else {
        size - start
    })
}

impl FileState {
    /// The state apart from the line index's lookup cache is the same.
    pub open spec fn same_as(&self, other: &FileState) -> bool {
        &&& same_lines(self.lines(), other.lines())
        &&& self.size() == other.size()
        &&& self.mode() == other.mode()
        &&& self.code() == other.code()
        &&& self.loaded() == other.loaded()
        &&& self.scan_running() == other.scan_running()
        &&& self.chunk() == other.chunk()
        &&& self.scan() == other.scan()
    }

    // -----------------------------------------------------------------------
    // Scanning
    // -----------------------------------------------------------------------

    /// Starts a line scan of the file bytes from `offset` on, in mode
    /// `utf_mode`, to be fed windows of [`SCAN_WINDOW_SIZE`] bytes: the index
    /// is emptied and records the first line's start, and a scan is running.
    /// With nothing to scan (`offset` at or beyond the end of the file) the
    /// scan is over at once: the index is empty and marked scanned, no scan
    /// runs, and the result is `false`.
    pub fn begin_window_scan(&mut self, offset: u64, utf_mode: UtfMode) -> (r: bool)
        requires
            old(self).well_formed(),
        ensures
            final(self).well_formed(),
            r == (offset < old(self).size()),
            r ==> final(self).scan_running(),
            r ==> final(self).scan() is Some,
            r ==> ({
                let p = final(self).scan().unwrap();
                &&& p.text() == Seq::<u8>::empty()
                &&& p.start_pos() == offset
                &&& p.end_pos() == old(self).size()
                &&& p.at() == offset
                &&& p.window_len() == SCAN_WINDOW_SIZE
                &&& p.scan_mode() == utf_mode
            }),
            r ==> final(self).lines().offsets() == seq![offset as int],
            r ==> final(self).lines().lengths() == Seq::<int>::empty(),
            !r ==> !final(self).scan_running(),
            !r ==> final(self).scan() is None,
            !r ==> final(self).lines().is_empty(),
            !r ==> final(self).lines().scanned(),
            r ==> final(self).line_count() == -1,
            !r && old(self).loaded() ==> final(self).line_count() == 0,
            !final(self).stopped_by_request(),
            final(self).size() == old(self).size(),
            final(self).mode() == old(self).mode(),
            final(self).code() == old(self).code(),
            final(self).loaded() == old(self).loaded(),
            final(self).chunk() == old(self).chunk(),
    {
        self.cancel_seen = false;
        if offset < self.file_size {
            let p = WindowScan::begin(
                &mut self.index,
                offset,
                self.file_size,
                SCAN_WINDOW_SIZE,
                utf_mode,
            );
            proof {
                p.lemma_inv_facts(&self.index);
            }
            self.progress = Some(p);
            self.scanning = true;
            true
        } else {
            self.progress = None;
            self.index.clear();
            self.index.mark_scanned();
            self.scanning = false;
            false
        }
    }

    /// The window the running scan reads next, as (file position, length):
    /// [`SCAN_WINDOW_SIZE`] bytes, fewer at the end of the file. `None` when
    /// no scan is being fed or the scan has had all its bytes.
    pub fn next_scan_window(&self) -> (r: Option<(u64, u64)>)
        requires
            self.well_formed(),
        ensures
            self.scan() is None ==> r is None,
            self.scan() matches Some(p) ==> (r matches Some(w) ==> p.next_request() == Some(
                (w.0 as int, w.1 as int),
            )) && (r is None ==> p.next_request() is None),
    {
        match &self.progress {
            Some(p) => p.next_window(),
            None => None,
        }
    }

    /// Feeds the running scan `window`, the bytes it asked for next, and
    /// records in the index the lines that those bytes settle: the line
    /// starts found so far are visible through the line queries while the
    /// scan runs.
    ///
    /// Returns `false` when no scan is being fed, when it has had all its
    /// bytes, or when the scan fails (`window` not of the length asked for,
    /// `cancel` set, which is recorded as [`FileState::stopped_by_request`],
    /// or more lines than an index can hold): the scan is then over, with an
    /// empty index marked scanned. The window asked for, in a text an index
    /// can hold, is always taken unless a stop was requested.
    pub fn scan_window(&mut self, window: Vec<u8>, cancel: &AtomicBool) -> (r: bool)
        requires
            old(self).well_formed(),
        ensures
            final(self).well_formed(),
            r ==> old(self).scan() is Some && final(self).scan() is Some,
            r ==> ({
                let p = old(self).scan().unwrap();
                let q = final(self).scan().unwrap();
                &&& p.next_request() == Some((p.at(), window@.len() as int))
                &&& q.text() == p.text() + window@
                &&& q.at() == p.at() + window@.len()
                &&& q.start_pos() == p.start_pos()
                &&& q.end_pos() == p.end_pos()
                &&& q.window_len() == p.window_len()
                &&& q.scan_mode() == p.scan_mode()
            }),
            r ==> final(self).scan_running() == old(self).scan_running(),
            r ==> final(self).line_count() == -1,
            !r && old(self).loaded() ==> final(self).line_count() == 0,
            !r ==> !final(self).scan_running(),
            !r ==> final(self).scan() is None,
            !r ==> final(self).lines().is_empty(),
            !r ==> final(self).lines().scanned(),
            r ==> !final(self).stopped_by_request(),
            old(self).scan() is Some && old(self).scan().unwrap().next_request() == Some(
                (old(self).scan().unwrap().at(), window@.len() as int),
            ) && old(self).scan().unwrap().end_pos() - old(self).scan().unwrap().start_pos()
                < max_lines() - 1 && !final(self).stopped_by_request() ==> r,
            final(self).size() == old(self).size(),
            final(self).mode() == old(self).mode(),
            final(self).code() == old(self).code(),
            final(self).loaded() == old(self).loaded(),
            final(self).chunk() == old(self).chunk(),
    {
        self.cancel_seen = false;
        let fed = match self.progress.take() {
            Some(mut p) => {
                if p.next_window().is_none() {
                    false
                } else if cancel_flag_set(cancel) {
                    self.cancel_seen = true;
                    false
                } else if p.feed(&mut self.index, window, None) {
                    proof {
                        p.lemma_inv_facts(&self.index);
                    }
                    self.progress = Some(p);
                    true
                } else {
                    false
                }
            },
            None => false,
        };
        if !fed {
            self.index.clear();
            self.index.mark_scanned();
            self.scanning = false;
        }
        fed
    }

    /// Ends a scan that has had all its bytes: the last line's length is
    /// recorded and the index marked scanned, holding exactly the lines of
    /// the bytes fed, and the scan is over. Returns `false`, changing
    /// nothing, when no scan is being fed or it still waits for bytes.
    pub fn finish_window_scan(&mut self) -> (r: bool)
        requires
            old(self).well_formed(),
        ensures
            final(self).well_formed(),
            r == (old(self).scan() matches Some(p) && p.next_request() is None),
            r ==> ({
                let p = old(self).scan().unwrap();
                &&& final(self).lines().scanned()
                &&& final(self).lines().holds_lines_of(p.text(), p.start_pos(), p.scan_mode())
                &&& final(self).lines().total() == final(self).lines().offsets().len()
                &&& p.text().len() == p.end_pos() - p.start_pos()
                &&& !final(self).scan_running()
                &&& final(self).scan() is None
                &&& final(self).loaded() ==> final(self).line_count() == final(self).lines().offsets().len() >= 1
            }),
            !r ==> final(self).lines() == old(self).lines(),
            !r ==> final(self).scan() == old(self).scan(),
            !r ==> final(self).scan_running() == old(self).scan_running(),
            final(self).size() == old(self).size(),
            final(self).mode() == old(self).mode(),
            final(self).code() == old(self).code(),
            final(self).loaded() == old(self).loaded(),
            final(self).chunk() == old(self).chunk(),
    {
        let complete = match &self.progress {
            Some(p) => p.next_window().is_none(),
            None => false,
        };
        if !complete {
            return false;
        }
        match self.progress.take() {
            Some(p) => {
                proof {
                    p.lemma_inv_facts(&self.index);
                }
                p.finish(&mut self.index);
                proof {
                    lemma_index_covers_text(&self.index, p.text(), p.start_pos(), p.scan_mode());
                }
            },
            None => {},
        }
        self.scanning = false;
        true
    }

    /// A running scan was stopped: the index is empty and marked scanned.
    pub fn stop_scan(&mut self)
        requires
            old(self).well_formed(),
        ensures
            final(self).well_formed(),
            !final(self).scan_running(),
            final(self).lines().is_empty(),
            final(self).lines().scanned(),
            final(self).size() == old(self).size(),
            final(self).mode() == old(self).mode(),
            final(self).code() == old(self).code(),
            final(self).loaded() == old(self).loaded(),
            final(self).chunk() == old(self).chunk(),
            final(self).scan() is None,
            old(self).loaded() ==> final(self).line_count() == 0,
    {
        self.progress = None;
        self.index.clear();
        self.index.mark_scanned();
        self.scanning = false;
    }

    /// Checks that a rescan from `offset` can start: a file must be loaded
    /// ([`FjiffyldgError::FileNotLoaded`] otherwise) and `offset` must lie
    /// within it ([`FjiffyldgError::InvalidOffset`] otherwise). A failure is
    /// recorded as the last error.
    pub fn check_restart(&mut self, offset: u64) -> (r: Result<(), FjiffyldgError>)
        requires
            old(self).well_formed(),
        ensures
            final(self).well_formed(),
            r == if !old(self).loaded() {
                Err::<(), FjiffyldgError>(FjiffyldgError::FileNotLoaded)
            } else if offset > old(self).size() {
                Err::<(), FjiffyldgError>(FjiffyldgError::InvalidOffset)
            } else {
                Ok::<(), FjiffyldgError>(())
            },
            r matches Err(e) ==> final(self).code() == error_code_of(e),
            r is Ok ==> final(self).code() == old(self).code(),
            final(self).lines() == old(self).lines(),
            final(self).size() == old(self).size(),
            final(self).mode() == old(self).mode(),
            final(self).loaded() == old(self).loaded(),
            final(self).scan_running() == old(self).scan_running(),
            final(self).chunk() == old(self).chunk(),
            final(self).scan() == old(self).scan(),
    {
        if !self.is_loaded {
            self.error_code = FjiffyldgError::FileNotLoaded.to_error_code();
            return Err(FjiffyldgError::FileNotLoaded);
        }
        if offset > self.file_size {
            self.error_code = FjiffyldgError::InvalidOffset.to_error_code();
            return Err(FjiffyldgError::InvalidOffset);
        }
        Ok(())
    }

    /// Prepares a rescan in mode `utf_mode` of a file whose start calls for
    /// `file_mode`: the index is emptied, the mode the scan will use is set
    /// (with `AutoDetect`, or with detection on, resolved as
    /// [`scan_mode`] says; otherwise `utf_mode` itself) and returned, and
    /// the last error is cleared.
    pub fn apply_restart(&mut self, utf_mode: UtfMode, auto_detect: bool, file_mode: UtfMode) -> (r:
        UtfMode)
        requires
            old(self).well_formed(),
        ensures
            final(self).well_formed(),
            r == if utf_mode == UtfMode::AutoDetect || auto_detect {
                scan_mode(Some(utf_mode), auto_detect, file_mode, old(self).mode())
            } else {
                utf_mode
            },
            final(self).mode() == r,
            final(self).code() == 0,
            final(self).lines().is_empty(),
            !final(self).lines().scanned(),
            final(self).size() == old(self).size(),
            final(self).loaded() == old(self).loaded(),
            final(self).scan_running() == old(self).scan_running(),
            final(self).chunk() == old(self).chunk(),
            final(self).scan() is None,
    {
        self.progress = None;
        self.index.clear();
        let resolved = if utf_mode == UtfMode::AutoDetect || auto_detect {
            resolve_scan_utf_mode(Some(utf_mode), auto_detect, file_mode, self.utf_mode)
        } else {
            utf_mode
        };
        self.set_utf_mode(resolved);
        self.error_code = 0;
        resolved
    }

    /// Forgets the file: nothing loaded, no error, no size, an empty index
    /// not yet scanned.
    pub fn clear(&mut self)
        requires
            old(self).well_formed(),
        ensures
            final(self).well_formed(),
            !final(self).loaded(),
            !final(self).scan_running(),
            final(self).size() == 0,
            final(self).code() == 0,
            final(self).lines().is_empty(),
            !final(self).lines().scanned(),
            final(self).mode() == old(self).mode(),
            final(self).chunk() == old(self).chunk(),
            final(self).scan() is None,
    {
        self.progress = None;
        self.index.clear();
        self.scanning = false;
        self.file_size = 0;
        self.error_code = 0;
        self.is_loaded = false;
    }

    // -----------------------------------------------------------------------
    // Line queries
    // -----------------------------------------------------------------------

    /// The number of lines: -1 while no file is loaded, while a scan runs,
    /// or before the index is marked scanned.
    pub fn get_line_count(&self) -> (r: i64)
        requires
            self.well_formed(),
        ensures
            r == self.line_count(),
    {
        proof {
            self.index.lemma_positions();
        }
        if !self.is_loaded {
            return -1;
        }
        if self.scanning {
            return -1;
        }
        self.index.get_line_count()
    }

    /// The start of line `line`, or -1 when the index does not hold it.
    pub fn get_line_pos(&mut self, line: i64) -> (r: i64)
        requires
            old(self).well_formed(),
        ensures
            final(self).well_formed(),
            final(self).same_as(old(self)),
            r == line_pos_in(old(self).lines(), line as int),
    {
        proof {
            self.index.lemma_positions();
        }
        if line < 0 || line as u64 > usize::MAX as u64 {
            return -1;
        }
        let ghost before = self.index;
        let r = self.index.get_line_pos(line as usize);
        proof {
            if let Some(p) = &self.progress {
                p.lemma_inv_facts(&before);
                p.lemma_inv_same_lines(&before, &self.index);
            }
        }
        r
    }

    /// The length of line `line` without its ending, or -1 before the scan
    /// has finished or for a line the index does not hold.
    pub fn get_line_length(&self, line: i64) -> (r: i64)
        requires
            self.well_formed(),
        ensures
            r == line_len_in(self.lines(), line as int),
    {
        proof {
            self.index.lemma_positions();
        }
        if line < 0 || line as u64 > usize::MAX as u64 {
            return -1;
        }
        self.index.get_line_length(line as usize)
    }

    /// The line that contains byte `pos` (see
    /// [`LineIndex::get_line_by_pos`]); -1 when no file is loaded or `pos`
    /// lies beyond the end of the file.
    pub fn get_line_by_pos(&self, pos: i64) -> (r: i64)
        requires
            self.well_formed(),
        ensures
            (!self.loaded() || pos > self.size() || pos < 0 || self.lines().offsets().len() == 0)
                ==> r == -1,
            !(!self.loaded() || pos > self.size() || pos < 0 || self.lines().offsets().len() == 0)
                ==> line_holds_pos(self.lines().offsets(), r as int, pos as int),
    {
        if !self.is_loaded {
            return -1;
        }
        if pos > self.file_size as i64 {
            return -1;
        }
        self.index.get_line_by_pos(pos)
    }

    // -----------------------------------------------------------------------
    // Read planning
    // -----------------------------------------------------------------------

    /// The bytes a data read of `len` bytes at `pos` covers, as (start,
    /// length) (see [`read_span`]); `None` when no file is loaded.
    pub fn read_range(&self, pos: i64, len: usize) -> (r: Option<(u64, usize)>)
        requires
            self.well_formed(),
        ensures
            !self.loaded() ==> r is None,
            self.loaded() ==> (r matches Some(span) && (span.0 as int, span.1 as int) == read_span(
                self.size(),
                pos as int,
                len as int,
            )),
            r matches Some(span) ==> span.0 + span.1 <= self.size(),
    {
        if !self.is_loaded {
            return None;
        }
        let p: u64 = if pos < 0 {
            0
        } else {
            pos as u64
        };
        let l: usize = if len == 0 {
            BUFFER_SIZE
        } else {
            len
        };
        let start = if p < self.file_size {
            p
        } else {
            self.file_size
        };
        let remaining = self.file_size - start;
        let actual: usize = if (l as u64) < remaining {
            l
        } else {
            remaining as usize
        };
        Some((start, actual))
    }
}

/// `k` is the last line of a batch read from line `i` with a budget of
/// `budget` bytes: the batch runs from line `i` to line `k` while each line
/// start stays within the budget from the first and no line before `k` is
/// longer than [`CRITICAL_LONGLINE_LEN`]; the next line would break one of
/// these, or there is none.
pub open spec fn batch_end(o: Seq<int>, i: int, k: int, budget: int) -> bool {
    &&& 0 <= i <= k < o.len()
    &&& o[k] - o[i] <= budget
    &&& forall|j: int| i < j <= k ==> #[trigger] o[j] - o[j - 1] <= CRITICAL_LONGLINE_LEN
    &&& (k + 1 == o.len() || o[k + 1] - o[i] > budget || o[k + 1] - o[k] > CRITICAL_LONGLINE_LEN)
}

/// The last line of the batch read from line `i` (see [`batch_end`]).
pub open spec fn batch_stop(o: Seq<int>, i: int, budget: int) -> int {
    choose|k: int| batch_end(o, i, k, budget)
}

/// A batch read from line `i` with budget `budget` in a file of `size`
/// bytes whose line starts are `o`: the line reported back, the end of the
/// bytes read, and their length.
///
/// The read ends at the start of the line after the batch; after the last
/// line, at the end of the file when that is at most
/// [`CRITICAL_LONGLINE_LEN`] bytes away. A line longer than that is cut
/// after [`CRITICAL_LONGLINE_LEN`] bytes. The line reported back is the
/// batch's last line, cut or not, except when the file's last line was cut:
/// then it is the line after it, where no line is left.
pub open spec fn cut_read(o: Seq<int>, i: int, budget: int, size: int) -> (int, int, int) {
    let k = batch_stop(o, i, budget);
    let cur = o[k];
    let next0 = if k + 1 < o.len() {
        o[k + 1]
    } else {
        -1
    };
    let next1 = if next0 < 0 && size - cur <= CRITICAL_LONGLINE_LEN {
        size
    } else {
        next0
    };
    let cut = next1 < 0 || next1 - cur > CRITICAL_LONGLINE_LEN;
    let end = if cut {
        cur + CRITICAL_LONGLINE_LEN
    } else {
        next1
    };
    (if next1 < 0 {
        k + 1
    } else {
        k
    }, end, if end > o[i] {
        end - o[i]
    } else {
        0
    })
}

/// The budget of a batch read asked for with `len` (0 meaning
/// [`BUFFER_SIZE`]), capped so that the length read fits a `usize`.
pub open spec fn batch_budget(len: int) -> int {
    let l = if len == 0 {
        BUFFER_SIZE as int
    } else {
        len
    };
    let cap = usize::MAX - 1 - CRITICAL_LONGLINE_LEN;
    if l < cap {
        l
    } else {
        cap
    }
}

/// There is one last line of a batch.
proof fn lemma_batch_end_unique(o: Seq<int>, i: int, k1: int, k2: int, budget: int)
    requires
        offsets_increasing(o),
        batch_end(o, i, k1, budget),
        batch_end(o, i, k2, budget),
    ensures
        k1 == k2,
{
    if k1 < k2 {
        assert(o[k1 + 1] - o[k1] <= CRITICAL_LONGLINE_LEN);
        assert(o[k1 + 1] <= o[k2]);
    } else if k2 < k1 {
        assert(o[k2 + 1] - o[k2] <= CRITICAL_LONGLINE_LEN);
        assert(o[k2 + 1] <= o[k1]);
    }
}

impl FileState {
    /// Reads line `line` (its start into `bpos`): at most `len` bytes of
    /// its content, or at most [`CRITICAL_LONGLINE_LEN`] when `len` is 0.
    /// On success `len` and `epos` give the length and end of the bytes to
    /// read, and the result their (start, length); `None`, with `len` 0,
    /// when the index does not hold the line or its length.
    pub fn read_line(&mut self, line: i64, bpos: &mut i64, epos: &mut i64, len: &mut usize) -> (r:
        Option<(i64, usize)>)
        requires
            old(self).well_formed(),
        ensures
            final(self).well_formed(),
            final(self).same_as(old(self)),
            ({
                let p = line_pos_in(old(self).lines(), line as int);
                let l = line_len_in(old(self).lines(), line as int);
                if p < 0 {
                    &&& r is None
                    &&& *final(len) == 0
                    &&& *final(bpos) == *old(bpos)
                    &&& *final(epos) == *old(epos)
                } else if l < 0 {
                    &&& r is None
                    &&& *final(len) == 0
                    &&& *final(bpos) == p
                    &&& *final(epos) == *old(epos)
                } else {
                    let want = if *old(len) == 0 {
                        CRITICAL_LONGLINE_LEN as int
                    } else {
                        *old(len) as int
                    };
                    let actual = if want < l {
                        want
                    } else {
                        l
                    };
                    &&& r == Some((p as i64, actual as usize))
                    &&& *final(len) == actual
                    &&& *final(bpos) == p
                    &&& *final(epos) == p + actual
                }
            }),
            0 <= line < old(self).line_count() ==> r is Some,
    {
        proof {
            self.index.lemma_positions();
        }
        let begin = self.get_line_pos(line);
        if begin < 0 {
            *len = 0;
            return None;
        }
        *bpos = begin;
        let line_len = self.get_line_length(line);
        if line_len < 0 {
            *len = 0;
            return None;
        }
        let want: u64 = if *len == 0 {
            CRITICAL_LONGLINE_LEN as u64
        } else {
            *len as u64
        };
        let actual: u64 = if want < line_len as u64 {
            want
        } else {
            line_len as u64
        };
        *epos = begin + actual as i64;
        *len = actual as usize;
        Some((begin, actual as usize))
    }

    /// Reads, from the start of line `*index`, a batch of whole lines within
    /// a budget of `len` bytes (0 meaning [`BUFFER_SIZE`]), cutting a line
    /// longer than [`CRITICAL_LONGLINE_LEN`] there (see [`cut_read`]).
    ///
    /// On success `index` moves to the batch's last line, or past the file's
    /// last line when that one was cut; `bpos` and `epos` give the start and end of
    /// the bytes to read, `len` their length, and the result their (start,
    /// length). `None`, with `len` 0,
    /// for a negative line or one the index does not hold.
    #[verifier::rlimit(30)]
    pub fn read_line_cut(
        &mut self,
        index: &mut i64,
        bpos: &mut i64,
        epos: &mut i64,
        len: &mut usize,
    ) -> (r: Option<(i64, usize)>)
        requires
            old(self).well_formed(),
        ensures
            final(self).well_formed(),
            final(self).same_as(old(self)),
            ({
                let o = old(self).lines().offsets();
                let i = *old(index) as int;
                if i < 0 || line_pos_in(old(self).lines(), i) < 0 {
                    &&& r is None
                    &&& *final(len) == 0
                    &&& *final(index) == *old(index)
                    &&& *final(bpos) == *old(bpos)
                    &&& *final(epos) == *old(epos)
                } else {
                    let c = cut_read(o, i, batch_budget(*old(len) as int), old(self).size());
                    &&& r == Some((o[i] as i64, c.2 as usize))
                    &&& *final(index) == c.0
                    &&& *final(bpos) == o[i]
                    &&& *final(epos) == c.1
                    &&& *final(len) == c.2
                }
            }),
    {
        let ghost o = self.index.offsets();
        let ghost i = *index as int;
        proof {
            self.index.lemma_positions();
        }
        if *index < 0 {
            *len = 0;
            return None;
        }
        let begin = self.get_line_pos(*index);
        if begin < 0 {
            *len = 0;
            return None;
        }
        *bpos = begin;
        let mut length: usize = if *len == 0 {
            BUFFER_SIZE
        } else {
            *len
        };
        if length > usize::MAX - 1 - CRITICAL_LONGLINE_LEN {
            length = usize::MAX - 1 - CRITICAL_LONGLINE_LEN;
        }
        let ghost budget = length as int;
        let mut cur_pos = begin;
        let mut next_pos = self.get_line_pos(*index + 1);
        while next_pos > 0 && ((next_pos - begin) as u64) <= (length as u64) && next_pos - cur_pos
            <= CRITICAL_LONGLINE_LEN as i64
            invariant
                self.well_formed(),
                self.same_as(old(self)),
                o == self.lines().offsets(),
                offsets_increasing(o),
                o.len() <= max_lines(),
                forall|j: int| 0 <= j < o.len() ==> 0 <= #[trigger] o[j] <= i64::MAX,
                0 <= i <= *index < o.len(),
                budget == length as int,
                begin == o[i],
                cur_pos == o[*index as int],
                o[*index as int] - o[i] <= budget,
                forall|j: int| i < j <= *index ==> #[trigger] o[j] - o[j - 1] <= CRITICAL_LONGLINE_LEN,
                next_pos == line_pos_in(self.lines(), *index + 1),
            decreases o.len() - *index,
        {
            proof {
                let k = *index as int;
                assert(k + 1 < o.len() && next_pos == o[k + 1]);
                assert(o[k] < o[k + 1]);
                if i < k {
                    assert(o[i] < o[k]);
                }
                assert(next_pos - begin >= 0);
            }
            *index += 1;
            cur_pos = next_pos;
            next_pos = self.get_line_pos(*index + 1);
        }
        let ghost k = *index as int;
        proof {
            assert(batch_end(o, i, k, budget));
            let q = batch_stop(o, i, budget);
            lemma_batch_end_unique(o, i, k, q, budget);
        }
        let file_size = self.file_size as i64;
        if next_pos < 0 {
            if file_size - cur_pos <= CRITICAL_LONGLINE_LEN as i64 {
                next_pos = file_size;
            }
        }
        if next_pos < 0 {
            next_pos = cur_pos + CRITICAL_LONGLINE_LEN as i64;
            *index += 1;
        } else if next_pos - cur_pos > CRITICAL_LONGLINE_LEN as i64 {
            next_pos = cur_pos + CRITICAL_LONGLINE_LEN as i64;
        }
        let actual: usize = if next_pos > begin {
            (next_pos - begin) as usize
        } else {
            0
        };
        *epos = next_pos;
        *len = actual;
        Some((begin, actual))
    }

    /// Reads from byte `pos` of line `line` to the line's end (the next
    /// line's start, or the end of the file after the last line): at most
    /// `len` bytes, or at most [`CRITICAL_LONGLINE_LEN`] when `len` is 0. On
    /// success `len` gives the length and the result the (start, length) of
    /// the bytes to read.
    ///
    /// `None`, with `len` 0, when the index does not hold the line, `pos`
    /// lies before the line or beyond the file, or the line is not known to
    /// be the last one and the next line's start is unknown or before `pos`.
    pub fn read_to_end_of_line(&mut self, line: i64, pos: i64, len: &mut usize) -> (r: Option<
        (i64, usize),
    >)
        requires
            old(self).well_formed(),
        ensures
            final(self).well_formed(),
            final(self).same_as(old(self)),
            ({
                let ix = old(self).lines();
                let start = line_pos_in(ix, line as int);
                let count = if ix.scanned() {
                    ix.total()
                } else {
                    -1
                };
                let next = line_pos_in(ix, line + 1);
                if start < 0 || pos < start || pos > old(self).size() || (line + 1 != count && !(
                next >= 0 && pos <= next)) {
                    &&& r is None
                    &&& *final(len) == 0
                } else {
                    let end = if line + 1 == count {
                        old(self).size()
                    } else {
                        next
                    };
                    let want = if *old(len) == 0 {
                        CRITICAL_LONGLINE_LEN as int
                    } else {
                        *old(len) as int
                    };
                    let actual = if want > end - pos {
                        end - pos
                    } else {
                        want
                    };
                    &&& r == Some((pos, actual as usize))
                    &&& *final(len) == actual
                }
            }),
    {
        proof {
            self.index.lemma_positions();
        }
        let file_size = self.file_size as i64;
        let line_start = self.get_line_pos(line);
        if line_start < 0 || pos < line_start || pos > file_size {
            *len = 0;
            return None;
        }
        let mut line_end = file_size;
        if line + 1 != self.index.get_line_count() {
            let end_pos = self.get_line_pos(line + 1);
            if end_pos >= 0 && pos <= end_pos {
                line_end = end_pos;
            } else {
                *len = 0;
                return None;
            }
        }
        let mut actual: usize = if *len == 0 {
            CRITICAL_LONGLINE_LEN
        } else {
            *len
        };
        if actual as u64 > (line_end - pos) as u64 {
            actual = (line_end - pos) as usize;
        }
        *len = actual;
        Some((pos, actual))
    }
}

/// While no file is loaded, or while a line scan runs, the line count is
/// unavailable (-1).
pub proof fn lemma_line_count_unavailable(st: &FileState)
    requires
        !st.loaded() || st.scan_running(),
    ensures
        st.line_count() == -1,
{
}

/// While a line scan is being fed, the lines already visible are lines of
/// the finished text: whatever bytes `rest` the scan is still to be fed, the
/// index's line starts and lengths begin those of the text, and its first
/// line starts where the scan started.
pub proof fn lemma_lines_visible_while_scanning(st: &FileState, rest: Seq<u8>)
    requires
        st.well_formed(),
        st.scan() is Some,
        rest.len() == st.scan().unwrap().end_pos() - st.scan().unwrap().at(),
    ensures
        ({
            let p = st.scan().unwrap();
            &&& st.lines().offsets().is_prefix_of(
                line_positions(p.text() + rest, p.start_pos(), p.scan_mode()),
            )
            &&& st.lines().lengths().is_prefix_of(line_lengths(p.text() + rest, p.scan_mode()))
            &&& st.lines().offsets().len() >= 1
            &&& st.lines().offsets()[0] == p.start_pos()
        }),
{
    let p = st.progress.unwrap();
    p.lemma_inv_facts(&st.index);
    p.lemma_lines_so_far(&st.index, rest);
}

/// A scan fed, window after window, the windows it asks for, each taken
/// from the file's bytes `f`, holds the file's bytes from where it started:
/// if it held them up to where it stood, it holds them up to where it stands
/// after the window `window` it asked for next.
pub proof fn lemma_scan_text_of_file(p: WindowScan, q: WindowScan, window: Seq<u8>, f: Seq<u8>)
    requires
        0 <= p.start_pos() <= p.at(),
        p.text() == f.subrange(p.start_pos(), p.at()),
        p.next_request() == Some((p.at(), window.len() as int)),
        p.at() + window.len() <= f.len(),
        window == f.subrange(p.at(), p.at() + window.len()),
        q.text() == p.text() + window,
        q.at() == p.at() + window.len(),
        q.start_pos() == p.start_pos(),
    ensures
        q.text() == f.subrange(q.start_pos(), q.at()),
{
    assert(p.text() + window =~= f.subrange(p.start_pos(), q.at()));
}

/// A line scan fed the file's bytes from `offset` on gives the same line
/// queries as the index built from those bytes at once: when the state's
/// finished index and `whole` both hold the lines of `f[offset..]` in mode
/// `mode`, the state reports `whole`'s line count, and each line's start
/// and length as `whole` does (the line starts being the same, so is the
/// line of each position).
pub proof fn lemma_scan_matches_whole_build(
    st: &FileState,
    whole: &LineIndex,
    f: Seq<u8>,
    offset: int,
    mode: UtfMode,
)
    requires
        st.well_formed(),
        st.loaded(),
        !st.scan_running(),
        st.lines().scanned(),
        0 <= offset <= f.len(),
        st.lines().holds_lines_of(f.subrange(offset, f.len() as int), offset, mode),
        st.lines().total() == st.lines().offsets().len(),
        whole.well_formed(),
        whole.scanned(),
        whole.holds_lines_of(f.subrange(offset, f.len() as int), offset, mode),
        whole.total() == whole.offsets().len(),
    ensures
        st.line_count() == whole.total(),
        st.lines().offsets() == whole.offsets(),
        forall|i: int|
            line_pos_in(st.lines(), i) == line_pos_in(*whole, i) && line_len_in(st.lines(), i)
                == line_len_in(*whole, i),
{
}

/// A rescan in `AutoDetect`, or in `Default` with detection on, uses the
/// mode that the byte-order mark at the start of the file `f` calls for,
/// wherever in the file the scan starts: UTF-16 little endian for a file
/// that starts with `FF FE` not followed by two zero bytes.
pub proof fn lemma_restart_uses_file_mark(
    utf_mode: UtfMode,
    auto_detect: bool,
    f: Seq<u8>,
    current: UtfMode,
)
    requires
        utf_mode == UtfMode::AutoDetect || (utf_mode == UtfMode::Default && auto_detect),
    ensures
        scan_mode(Some(utf_mode), auto_detect, mode_of_encoding(detected_encoding(f)), current)
            == mode_of_encoding(detected_encoding(f)),
        f.len() >= 2 && f[0] == 0xFF && f[1] == 0xFE && !(f.len() >= 4 && f[2] == 0 && f[3] == 0)
            ==> mode_of_encoding(detected_encoding(f)) == UtfMode::Utf16Le,
{
}

/// The line lengths reported for a scanned text `d` (starting at file
/// position `base`) are its lines' whole lengths, with no cap: each line,
/// from its reported start over its reported length, reaches exactly the
/// line ending that closes it, where the next line starts; the last line
/// reaches the end of the text.
pub proof fn lemma_line_lengths_reach_line_ends(st: &FileState, d: Seq<u8>, base: int, mode: UtfMode)
    requires
        st.well_formed(),
        st.loaded(),
        !st.scan_running(),
        st.lines().scanned(),
        d.len() > 0,
        st.lines().holds_lines_of(d, base, mode),
    ensures
        st.line_count() >= 1,
        forall|i: int|
            0 <= i < st.line_count() - 1 ==> newline_at(
                d,
                #[trigger] line_pos_in(st.lines(), i) + line_len_in(st.lines(), i) - base,
                mode,
            ) == Some(line_pos_in(st.lines(), i + 1) - (line_pos_in(st.lines(), i) + line_len_in(
                st.lines(),
                i,
            ))),
        line_pos_in(st.lines(), st.line_count() - 1) + line_len_in(st.lines(), st.line_count() - 1)
            == base + d.len(),
{
    st.lemma_index_facts();
    lemma_index_covers_text(&st.lines(), d, base, mode);
}

/// A load that failed with `err` is reported as `err` by the load status
/// until the next load or clear.
pub proof fn lemma_failed_load_reported(st: &FileState, err: FjiffyldgError)
    requires
        !st.loaded(),
        st.code() == error_code_of(err),
    ensures
        st.load_status() == Err::<bool, FjiffyldgError>(err),
{
    lemma_error_code_round_trip(err);
}

/// Some line ends the batch read from line `i`: walking on from line `j`,
/// which is still within the batch, a line is reached after which the next
/// one is out of it.
proof fn lemma_batch_end_exists(o: Seq<int>, i: int, j: int, budget: int)
    requires
        0 <= i <= j < o.len(),
        o[j] - o[i] <= budget,
        forall|m: int| i < m <= j ==> #[trigger] o[m] - o[m - 1] <= CRITICAL_LONGLINE_LEN,
    ensures
        batch_end(o, i, batch_stop(o, i, budget), budget),
    decreases o.len() - j,
{
    if j + 1 == o.len() || o[j + 1] - o[i] > budget || o[j + 1] - o[j] > CRITICAL_LONGLINE_LEN {
        assert(batch_end(o, i, j, budget));
    } else {
        assert forall|m: int| i < m <= j + 1 implies #[trigger] o[m] - o[m - 1]
            <= CRITICAL_LONGLINE_LEN by {
            if m <= j {
                assert(o[m] - o[m - 1] <= CRITICAL_LONGLINE_LEN);
            }
        }
        lemma_batch_end_exists(o, i, j + 1, budget);
    }
}

/// A batch read is measured from the line it starts at. Reading from line
/// `i` with a budget of `budget` bytes, the batch's last line `k` (the line
/// reported back, or the one before it where the file's last line was cut)
/// starts at most `budget` bytes after line `i`; no line from `i` to `k` is
/// longer than [`CRITICAL_LONGLINE_LEN`] before the next starts; and the
/// next line is left out only because there is none, because it starts more
/// than `budget` bytes after line `i`, or because line `k` is too long. The
/// bytes read run from line `i`'s start to the end reported.
pub proof fn lemma_batch_measured_from_first_line(o: Seq<int>, i: int, budget: int, size: int)
    requires
        offsets_increasing(o),
        forall|j: int| 0 <= j < o.len() ==> #[trigger] o[j] >= 0,
        0 <= i < o.len(),
        budget >= 0,
    ensures
        ({
            let c = cut_read(o, i, budget, size);
            let k = if c.0 >= o.len() {
                c.0 - 1
            } else {
                c.0
            };
            &&& i <= k < o.len()
            &&& c.0 == k || c.0 == k + 1 == o.len()
            &&& o[k] - o[i] <= budget
            &&& forall|j: int| i < j <= k ==> #[trigger] o[j] - o[j - 1] <= CRITICAL_LONGLINE_LEN
            &&& (k + 1 == o.len() || o[k + 1] - o[i] > budget || o[k + 1] - o[k]
                > CRITICAL_LONGLINE_LEN)
            &&& c.2 == if c.1 > o[i] {
                c.1 - o[i]
            } else {
                0
            }
        }),
{
    lemma_batch_end_exists(o, i, i, budget);
    let k = batch_stop(o, i, budget);
    if k + 1 < o.len() {
        assert(o[k + 1] >= 0);
    }
}

/// The line starts `o` moved `s` bytes further into the file.
pub open spec fn shifted(o: Seq<int>, s: int) -> Seq<int> {
    o.map_values(|x: int| x + s)
}

/// A batch read depends only on where lines start relative to each other
/// and to the end of the file: in a file with `s` more bytes before the same
/// lines, it reports the same line and length, and an end `s` bytes
/// further.
pub proof fn lemma_batch_read_shift(o: Seq<int>, i: int, budget: int, size: int, s: int)
    requires
        offsets_increasing(o),
        forall|j: int| 0 <= j < o.len() ==> #[trigger] o[j] >= 0,
        0 <= i < o.len(),
        budget >= 0,
        size >= 0,
        s >= 0,
    ensures
        ({
            let c = cut_read(o, i, budget, size);
            let d = cut_read(shifted(o, s), i, budget, size + s);
            d == (c.0, c.1 + s, c.2)
        }),
{
    let p = shifted(o, s);
    assert forall|a: int, b: int| 0 <= a < b < p.len() implies #[trigger] p[a] < #[trigger] p[b] by {
        assert(p[a] == o[a] + s);
        assert(p[b] == o[b] + s);
        assert(o[a] < o[b]);
    }
    lemma_batch_end_exists(o, i, i, budget);
    let k = batch_stop(o, i, budget);
    assert(batch_end(o, i, k, budget));
    assert(batch_end(p, i, k, budget)) by {
        assert(p[k] - p[i] == o[k] - o[i]);
        assert forall|j: int| i < j <= k implies #[trigger] p[j] - p[j - 1] <= CRITICAL_LONGLINE_LEN by {
            assert(p[j] == o[j] + s);
            assert(p[j - 1] == o[j - 1] + s);
            assert(o[j] - o[j - 1] <= CRITICAL_LONGLINE_LEN);
        }
        if k + 1 < o.len() {
            assert(p[k + 1] == o[k + 1] + s);
        }
    }
    lemma_batch_end_exists(p, i, i, budget);
    let kp = batch_stop(p, i, budget);
    lemma_batch_end_unique(p, i, k, kp, budget);
    assert(p.len() == o.len());
    assert(p[i] == o[i] + s && p[k] == o[k] + s);
    let next0 = if k + 1 < o.len() {
        o[k + 1]
    } else {
        -1
    };
    let pnext0 = if k + 1 < p.len() {
        p[k + 1]
    } else {
        -1
    };
    if k + 1 < o.len() {
        assert(p[k + 1] == o[k + 1] + s);
        assert(o[k + 1] >= 0);
        assert(pnext0 == next0 + s);
    } else {
        assert(pnext0 == -1 && next0 == -1);
    }
    assert(batch_stop(p, i, budget) == k);
    let next1 = if next0 < 0 && size - o[k] <= CRITICAL_LONGLINE_LEN {
        size
    } else {
        next0
    };
    let pnext1 = if pnext0 < 0 && (size + s) - p[k] <= CRITICAL_LONGLINE_LEN {
        size + s
    } else {
        pnext0
    };
    assert(next1 >= 0 ==> pnext1 == next1 + s);
    assert(next1 < 0 <==> pnext1 < 0);
    let c = cut_read(o, i, budget, size);
    let d = cut_read(p, i, budget, size + s);
    assert(d.0 == c.0);
    assert(d.1 == c.1 + s);
    assert(d.2 == c.2);
}

} // verus!
