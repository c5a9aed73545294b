//! The library's error type, its C-compatible error codes, and the
//! fixed-width text modes used when scanning lines.
//!
//! | Code | Error | Meaning |
//! |------|-------|---------|
//! | `0` | — | success |
//! | `-1` | [`FjiffyldgError::FileNotLoaded`] | file missing or never loaded |
//! | `1` | [`FjiffyldgError::FileInaccessible`] | file inaccessible |
//! | `2` | [`FjiffyldgError::StreamError`] | stream read error |
//! | `3` | [`FjiffyldgError::MmapError`] | memory mapping failed |
//! | `4` | [`FjiffyldgError::InvalidOffset`] | invalid file offset |
//! | `5` | [`FjiffyldgError::InvalidLineIndex`] | invalid line index |
//! | `6` | [`FjiffyldgError::BufferTooSmall`] | buffer too small |
//! | `7` | [`FjiffyldgError::EncodingError`] | encoding error |
//! | `8` | [`FjiffyldgError::IncompleteWrite`] | incomplete write |
//! | `-2` | [`FjiffyldgError::IoError`] | generic I/O error |
use vstd::prelude::*;

verus! {

/// Errors of the library, each with a C-compatible code.
#[derive(Debug, Clone, Copy, PartialEq, Eq, Structural)]
pub enum FjiffyldgError {
    /// The file does not exist or was never loaded.
    FileNotLoaded,
    /// The file's content or attributes cannot be accessed.
    FileInaccessible,
    /// Reading the file stream failed.
    StreamError,
    /// A write did not produce the expected file size.
    IncompleteWrite,
    /// Memory-mapping the file failed.
    MmapError,
    /// Invalid file offset.
    InvalidOffset,
    /// Invalid line index.
    InvalidLineIndex,
    /// Buffer too small.
    BufferTooSmall,
    /// Encoding detection failed.
    EncodingError,
    /// Generic I/O error.
    IoError,
}

/// The library's result type.
pub type Result<T> = std::result::Result<T, FjiffyldgError>;

/// The C-compatible code of `e`.
pub open spec fn error_code_of(e: FjiffyldgError) -> i32 {
    match e {
        FjiffyldgError::FileNotLoaded => -1i32,
        FjiffyldgError::FileInaccessible => 1,
        FjiffyldgError::StreamError => 2,
        FjiffyldgError::MmapError => 3,
        FjiffyldgError::IncompleteWrite => 8,
        FjiffyldgError::InvalidOffset => 4,
        FjiffyldgError::InvalidLineIndex => 5,
        FjiffyldgError::BufferTooSmall => 6,
        FjiffyldgError::EncodingError => 7,
        FjiffyldgError::IoError => -2i32,
    }
}

/// The error whose code is `code`; none for 0 and for unknown codes.
pub open spec fn error_of_code(code: i32) -> Option<FjiffyldgError> {
    if code == -1 {
        Some(FjiffyldgError::FileNotLoaded)
    } else if code == 1 {
        Some(FjiffyldgError::FileInaccessible)
    } else if code == 2 {
        Some(FjiffyldgError::StreamError)
    } else if code == 3 {
        Some(FjiffyldgError::MmapError)
    } else if code == 4 {
        Some(FjiffyldgError::InvalidOffset)
    } else if code == 5 {
        Some(FjiffyldgError::InvalidLineIndex)
    } else if code == 6 {
        Some(FjiffyldgError::BufferTooSmall)
    } else if code == 7 {
        Some(FjiffyldgError::EncodingError)
    } else if code == 8 {
        Some(FjiffyldgError::IncompleteWrite)
    } else if code == -2 {
        Some(FjiffyldgError::IoError)
    } else {
        None
    }
}

impl FjiffyldgError {
    /// The C-compatible error code (0 is reserved for success).
    pub fn to_error_code(&self) -> (r: i32)
        ensures
            r == error_code_of(*self),
    {
        match self {
            FjiffyldgError::FileNotLoaded => -1i32,
            FjiffyldgError::FileInaccessible => 1,
            FjiffyldgError::StreamError => 2,
            FjiffyldgError::MmapError => 3,
            FjiffyldgError::IncompleteWrite => 8,
            FjiffyldgError::InvalidOffset => 4,
            FjiffyldgError::InvalidLineIndex => 5,
            FjiffyldgError::BufferTooSmall => 6,
            FjiffyldgError::EncodingError => 7,
            FjiffyldgError::IoError => -2i32,
        }
    }

    /// The error with the given C-compatible code; `None` for 0 and for
    /// unknown codes.
    pub fn from_error_code(code: i32) -> (r: Option<Self>)
        ensures
            r == error_of_code(code),
    {
        match code {
            -1 => Some(FjiffyldgError::FileNotLoaded),
            1 => Some(FjiffyldgError::FileInaccessible),
            2 => Some(FjiffyldgError::StreamError),
            3 => Some(FjiffyldgError::MmapError),
            4 => Some(FjiffyldgError::InvalidOffset),
            5 => Some(FjiffyldgError::InvalidLineIndex),
            6 => Some(FjiffyldgError::BufferTooSmall),
            7 => Some(FjiffyldgError::EncodingError),
            8 => Some(FjiffyldgError::IncompleteWrite),
            -2 => Some(FjiffyldgError::IoError),
            _ => None,
        }
    }
}

/// Every error has a nonzero code, and decoding the code of an error gives
/// that error back.
pub proof fn lemma_error_code_round_trip(e: FjiffyldgError)
    ensures
        error_code_of(e) != 0,
        error_of_code(error_code_of(e)) == Some(e),
{
}

/// Whenever a code decodes to an error, that error's code is the code: no two
/// codes stand for the same error.
pub proof fn lemma_error_code_injective(code: i32)
    ensures
        error_of_code(code) matches Some(e) ==> error_code_of(e) == code,
        code == 0 ==> error_of_code(code) is None,
{
}

/// The C-compatible code of an operation's outcome: 0 on success, the error's
/// code otherwise.
pub fn result_code(result: &Result<()>) -> (r: i32)
    ensures
        r == match result {
            Ok(_) => 0,
            Err(e) => error_code_of(*e),
        },
{
    match result {
        Ok(_) => 0,
        Err(error) => error.to_error_code(),
    }
}

/// The code that the C interface reports for a file helper (save, append,
/// clone, concatenate): 0 on success, 1 when the written size did not match,
/// -1 for any other error.
pub fn file_helper_code(result: &Result<()>) -> (r: i32)
    ensures
        r == match result {
            Ok(_) => 0,
            Err(FjiffyldgError::IncompleteWrite) => 1,
            Err(_) => -1i32,
        },
{
    match result {
        Ok(()) => 0,
        Err(FjiffyldgError::IncompleteWrite) => 1,
        Err(_) => -1i32,
    }
}

/// The outcome of checking a written file's size: the size lookup's error if
/// it failed, [`FjiffyldgError::IncompleteWrite`] if the size differs from the
/// expected one, success otherwise.
pub fn check_written_size(actual: Result<u64>, expected: u64) -> (r: Result<()>)
    ensures
        r == match actual {
            Err(e) => Err(e),
            Ok(size) => if size == expected {
                Ok(())
            } else {
                Err(FjiffyldgError::IncompleteWrite)
            },
        },
{
    let actual = actual?;
    if actual != expected {
        return Err(FjiffyldgError::IncompleteWrite);
    }
    Ok(())
}

/// Fixed-width text modes for line scanning.
///
/// `Default` scans bytes (ASCII / UTF-8); in the public API it behaves like
/// `AutoDetect` and picks the mode from a byte-order mark.
#[derive(Debug, Clone, Copy, PartialEq, Eq, Structural)]
pub enum UtfMode {
    /// Byte-oriented scanning (code 0).
    Default,
    /// UTF-16 little endian (code 1).
    Utf16Le,
    /// UTF-16 big endian (code 2).
    Utf16Be,
    /// UTF-32 little endian (code 3).
    Utf32Le,
    /// UTF-32 big endian (code 4).
    Utf32Be,
    /// Detect the mode from a byte-order mark (code -1).
    AutoDetect,
}

/// The numeric code of a mode.
pub open spec fn utf_mode_code(m: UtfMode) -> i32 {
    match m {
        UtfMode::Default => 0,
        UtfMode::Utf16Le => 1,
        UtfMode::Utf16Be => 2,
        UtfMode::Utf32Le => 3,
        UtfMode::Utf32Be => 4,
        UtfMode::AutoDetect => -1i32,
    }
}

/// The mode for a numeric code; unknown codes give `Default`.
pub open spec fn utf_mode_of_code(code: i32) -> UtfMode {
    if code == -1 {
        UtfMode::AutoDetect
    } else if code == 1 {
        UtfMode::Utf16Le
    } else if code == 2 {
        UtfMode::Utf16Be
    } else if code == 3 {
        UtfMode::Utf32Le
    } else if code == 4 {
        UtfMode::Utf32Be
    } else {
        UtfMode::Default
    }
}

/// Width in bytes of one code unit in mode `m`.
pub open spec fn unit_width(m: UtfMode) -> int {
    match m {
        UtfMode::Utf16Le | UtfMode::Utf16Be => 2,
        UtfMode::Utf32Le | UtfMode::Utf32Be => 4,
        UtfMode::Default | UtfMode::AutoDetect => 1,
    }
}

impl UtfMode {
    /// The numeric code of the mode (0, 1, 2, 3, 4, or -1 for auto-detection).
    pub fn code(&self) -> (r: i32)
        ensures
            r == utf_mode_code(*self),
    {
        match self {
            UtfMode::Default => 0,
            UtfMode::Utf16Le => 1,
            UtfMode::Utf16Be => 2,
            UtfMode::Utf32Le => 3,
            UtfMode::Utf32Be => 4,
            UtfMode::AutoDetect => -1i32,
        }
    }

    /// The mode with the given numeric code; unknown codes give `Default`.
    pub fn from_code(utf: i32) -> (r: UtfMode)
        ensures
            r == utf_mode_of_code(utf),
    {
        match utf {
            -1 => UtfMode::AutoDetect,
            1 => UtfMode::Utf16Le,
            2 => UtfMode::Utf16Be,
            3 => UtfMode::Utf32Le,
            4 => UtfMode::Utf32Be,
            _ => UtfMode::Default,
        }
    }
}

/// Decoding the code of a mode gives that mode back.
pub proof fn lemma_utf_mode_code_round_trip(m: UtfMode)
    ensures
        utf_mode_of_code(utf_mode_code(m)) == m,
{
}

} // verus!
