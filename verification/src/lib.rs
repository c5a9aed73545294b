//! Text encoding checks, line indexing and file-access planning for large
//! text files.
//!
//! The crate is organised as follows:
//!
//! - [`encoding`]: BOM detection, ASCII / UTF-8 validation, UTF-8 character
//!   counting and conversion of UTF-16 / UTF-32 text to UTF-8.
//! - [`error`]: the library's error type, its C-compatible codes, and the
//!   fixed-width text modes used when scanning lines.
//! - [`line_scan`]: the mathematical model of line scanning (where lines
//!   start, how long they are) for every text mode.
//! - [`line_index`]: the three-level line index (direct offsets, extended
//!   offsets, chunk index) and its queries.
//! - [`window_scan`]: building a line index from consecutive file windows.
//! - [`file_state`]: the state of a loaded file and the read planning that
//!   turns line queries into byte ranges.
#![allow(unused_imports)]

pub mod encoding;
pub mod error;
pub mod file_state;
pub mod line_index;
pub mod line_scan;
pub mod window_scan;

pub use encoding::{
    check_extract_text_utf8, check_text_ascii, check_utf8_char, check_whole_text_utf8,
    convert_to_utf8, detect_encoding, get_utf8_char_count, get_utf8_char_count_with_offset, is_ascii_char,
    TextEncoding,
};
pub use error::{FjiffyldgError, Result, UtfMode};
pub use file_state::FileState;
pub use line_index::LineIndex;
