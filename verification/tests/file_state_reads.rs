use fjiffyldg::file_state::{
    detect_utf_mode, map_window_for, resolve_scan_utf_mode, window_covers, FileState, LoadStep,
    BUFFER_SIZE, CRITICAL_LONGLINE_LEN, MMAP_CHUNK_SIZE, SCAN_WINDOW_SIZE, USUALLY_IO_SIZE_MAX,
};
use fjiffyldg::{FjiffyldgError, LineIndex, UtfMode};
use std::sync::atomic::AtomicBool;

/// A file state that went through a load of `data` (as a small file read
/// whole), with a finished line scan when `scan` is set.
fn load(data: &[u8], scan: bool) -> FileState {
    let mut st = FileState::new();
    st.begin_load();
    match st.opened(data.len() as u64, true, MMAP_CHUNK_SIZE, scan) {
        Ok(LoadStep::Done) => {}
        Ok(_) => {
            if st.loaded_ok(scan) {
                rescan(&mut st, data, 0, None, true);
            }
        }
        Err(e) => panic!("load failed: {e:?}"),
    }
    st
}

fn rescan(st: &mut FileState, data: &[u8], offset: u64, forced: Option<UtfMode>, auto: bool) {
    let mode = resolve_scan_utf_mode(forced, auto, detect_utf_mode(data), st.get_utf_mode());
    let cancel = AtomicBool::new(false);
    if st.begin_window_scan(offset, mode) {
        while let Some((pos, len)) = st.next_scan_window() {
            let window = data[pos as usize..(pos + len) as usize].to_vec();
            assert!(st.scan_window(window, &cancel));
        }
        assert!(st.finish_window_scan());
    }
    assert!(!st.is_scanning());
}

fn restart(st: &mut FileState, data: &[u8], offset: u64, mode: UtfMode) -> Result<(), FjiffyldgError> {
    st.check_restart(offset)?;
    st.stop_scan();
    let resolved = st.apply_restart(mode, true, detect_utf_mode(data));
    rescan(st, data, offset, Some(resolved), false);
    Ok(())
}

fn read(st: &FileState, data: &[u8], pos: i64, len: usize) -> Option<Vec<u8>> {
    let (start, n) = st.read_range(pos, len)?;
    Some(data[start as usize..start as usize + n].to_vec())
}

fn read_line(st: &mut FileState, data: &[u8], line: i64, bpos: &mut i64, epos: &mut i64, len: &mut usize) -> Option<Vec<u8>> {
    let (begin, n) = st.read_line(line, bpos, epos, len)?;
    if n == 0 { Some(Vec::new()) } else { read(st, data, begin, n) }
}

fn read_line_cut(st: &mut FileState, data: &[u8], index: &mut i64, bpos: &mut i64, epos: &mut i64, len: &mut usize) -> Option<Vec<u8>> {
    let (begin, n) = st.read_line_cut(index, bpos, epos, len)?;
    if n == 0 { Some(Vec::new()) } else { read(st, data, begin, n) }
}

fn read_to_line_end(st: &mut FileState, data: &[u8], line: i64, pos: i64, len: &mut usize) -> Option<Vec<u8>> {
    let (begin, n) = st.read_to_end_of_line(line, pos, len)?;
    if n == 0 { Some(Vec::new()) } else { read(st, data, begin, n) }
}

const CRLF: &[u8] = b"line1\r\nline2\r\nline3\r\n";

#[test]
fn test_crlf_line_length_excludes_newline() {
    let mut st = load(CRLF, true);
    assert_eq!(st.get_line_count(), 4);
    assert_eq!(st.get_line_length(0), 5);
    assert_eq!(st.get_line_length(1), 5);
    assert_eq!(st.get_line_length(2), 5);
    assert_eq!(st.get_line_length(3), 0);
    assert_eq!(st.get_line_pos(0), 0);
    assert_eq!(st.get_line_pos(1), 7);
    assert_eq!(st.get_line_pos(2), 14);
    assert_eq!(st.get_line_pos(3), 21);
}

#[test]
fn test_mixed_ending_line_length_excludes_newline() {
    let mut st = load(b"line1\r\nline2\nline3\r\n", true);
    assert_eq!(st.get_line_count(), 4);
    assert_eq!(st.get_line_length(0), 5);
    assert_eq!(st.get_line_length(1), 5);
    assert_eq!(st.get_line_length(2), 5);
    assert_eq!(st.get_line_length(3), 0);
    assert_eq!(st.get_line_pos(0), 0);
    assert_eq!(st.get_line_pos(1), 7);
    assert_eq!(st.get_line_pos(2), 13);
    assert_eq!(st.get_line_pos(3), 20);
}

#[test]
fn test_crlf_read_line_excludes_cr() {
    let mut st = load(CRLF, true);
    for i in 0..3 {
        let mut bpos = -1i64;
        let mut epos = -1i64;
        let mut len = 0usize;
        let data = read_line(&mut st, CRLF, i, &mut bpos, &mut epos, &mut len);
        assert!(data.is_some());
        let data = data.unwrap();
        assert!(!data.ends_with(b"\r"));
        assert!(!data.contains(&b'\r'));
        assert!(!data.contains(&b'\n'));
    }
}

#[test]
fn test_crlf_no_trailing_read_line() {
    let text = b"line1\r\nline2\r\nline3";
    let mut st = load(text, true);
    assert_eq!(st.get_line_count(), 3);
    let mut bpos = -1i64;
    let mut epos = -1i64;
    let mut len = 0usize;
    let data = read_line(&mut st, text, 2, &mut bpos, &mut epos, &mut len).unwrap();
    assert_eq!(data, b"line3");
    assert!(!data.ends_with(b"\r"));
}

#[test]
fn test_crlf_read_line_cut_boundaries() {
    let mut st = load(CRLF, true);
    let mut index = 0i64;
    let mut bpos = -1i64;
    let mut epos = -1i64;
    let mut len = 4096usize;
    let data = read_line_cut(&mut st, CRLF, &mut index, &mut bpos, &mut epos, &mut len);
    assert!(data.is_some());
    let data = data.unwrap();
    assert!(data.starts_with(b"line1"));
    let text = String::from_utf8_lossy(&data);
    assert_eq!(text.matches('\r').count(), text.matches('\n').count());
    assert_eq!(bpos, 0);
}

#[test]
fn test_crlf_read_line_cut_single_line_budget() {
    let mut st = load(CRLF, true);
    let mut index = 0i64;
    let mut bpos = -1i64;
    let mut epos = -1i64;
    let mut len = 7usize;
    let data = read_line_cut(&mut st, CRLF, &mut index, &mut bpos, &mut epos, &mut len);
    assert!(data.is_some());
    let data = data.unwrap();
    assert_eq!(index, 1);
    assert_eq!(bpos, 0);
    assert_eq!(epos, 14);
    assert_eq!(data.len(), 14);
    assert_eq!(&data[..7], b"line1\r\n");
    assert_eq!(&data[7..], b"line2\r\n");
}

#[test]
fn test_empty_file_load_and_scan_line_count_is_1() {
    let st = load(b"", true);
    assert_eq!(st.get_line_count(), 1);
}

#[test]
fn test_empty_file_load_line_count_is_0() {
    let st = load(b"", false);
    assert_eq!(st.get_line_count(), 0);
}

#[test]
fn test_empty_file_read_line_returns_empty() {
    let mut st = load(b"", true);
    let mut bpos = -1i64;
    let mut epos = -1i64;
    let mut len = 0usize;
    let data = read_line(&mut st, b"", 0, &mut bpos, &mut epos, &mut len);
    assert!(data.is_some());
    assert!(data.unwrap().is_empty());
    assert_eq!(bpos, 0);
    assert_eq!(epos, 0);
    assert_eq!(len, 0);
}

#[test]
fn test_empty_file_read_line_cut_returns_empty() {
    let mut st = load(b"", true);
    let mut index = 0i64;
    let mut bpos = -1i64;
    let mut epos = -1i64;
    let mut len = 0usize;
    let data = read_line_cut(&mut st, b"", &mut index, &mut bpos, &mut epos, &mut len);
    assert!(data.is_some());
    assert!(data.unwrap().is_empty());
    assert_eq!(bpos, 0);
    assert_eq!(epos, 0);
    assert_eq!(len, 0);
}

#[test]
fn test_empty_file_read_data_returns_empty() {
    let st = load(b"", true);
    let data = read(&st, b"", 0, 0);
    assert!(data.is_some());
    assert!(data.unwrap().is_empty());
}

fn utf16le_file() -> Vec<u8> {
    let mut data = vec![0xFF, 0xFE];
    data.extend_from_slice(&[b'a', 0, b'l', 0, b'p', 0, b'h', 0, b'a', 0, 0x0A, 0]);
    data.extend_from_slice(&[b'b', 0, b'e', 0, b't', 0, b'a', 0, 0x0A, 0]);
    data
}

fn utf32le_file() -> Vec<u8> {
    let mut data = vec![0xFF, 0xFE, 0x00, 0x00];
    for ch in ['a', 'l', 'p', 'h', 'a', '\n', 'b', 'e', 't', 'a', '\n'] {
        data.extend_from_slice(&(ch as u32).to_le_bytes());
    }
    data
}

#[test]
fn test_line_offsets_are_raw_byte_offsets_utf16le() {
    let mut st = load(&utf16le_file(), true);
    assert_eq!(st.get_line_count(), 3);
    assert_eq!(st.get_line_pos(0), 0);
    assert_eq!(st.get_line_pos(1), 14);
    assert_eq!(st.get_line_pos(2), 24);
}

#[test]
fn test_line_offsets_are_raw_byte_offsets_utf32le() {
    let mut st = load(&utf32le_file(), true);
    assert_eq!(st.get_line_count(), 3);
    assert_eq!(st.get_line_pos(0), 0);
    assert_eq!(st.get_line_pos(1), 28);
    assert_eq!(st.get_line_pos(2), 48);
}

#[test]
fn test_line_lengths_raw_bytes_utf16le() {
    let st = load(&utf16le_file(), true);
    assert_eq!(st.get_line_length(0), 12);
    assert_eq!(st.get_line_length(1), 8);
    assert_eq!(st.get_line_length(2), 0);
}

#[test]
fn test_line_lengths_raw_bytes_utf32le() {
    let st = load(&utf32le_file(), true);
    assert_eq!(st.get_line_length(0), 24);
    assert_eq!(st.get_line_length(1), 16);
    assert_eq!(st.get_line_length(2), 0);
}

#[test]
fn test_restart_scan_utf16le_explicit_mode() {
    let data = utf16le_file();
    let mut st = load(&data, true);
    restart(&mut st, &data, 0, UtfMode::Utf16Le).unwrap();
    assert_eq!(st.get_line_count(), 3);
    assert_eq!(st.get_line_pos(0), 0);
    assert_eq!(st.get_line_pos(1), 14);
    assert_eq!(st.get_utf_mode(), UtfMode::Utf16Le);
}

#[test]
fn test_restart_scan_utf32le_explicit_mode() {
    let data = utf32le_file();
    let mut st = load(&data, true);
    restart(&mut st, &data, 0, UtfMode::Utf32Le).unwrap();
    assert_eq!(st.get_line_count(), 3);
    assert_eq!(st.get_line_pos(0), 0);
    assert_eq!(st.get_line_pos(1), 28);
    assert_eq!(st.get_utf_mode(), UtfMode::Utf32Le);
}

#[test]
fn test_restart_scan_from_offset_utf16le() {
    let data = utf16le_file();
    let mut st = load(&data, true);
    restart(&mut st, &data, 14, UtfMode::Utf16Le).unwrap();
    assert_eq!(st.get_line_count(), 2);
    assert_eq!(st.get_line_pos(0), 14);
}

#[test]
fn test_restart_scan_from_offset_utf32le() {
    let data = utf32le_file();
    let mut st = load(&data, true);
    restart(&mut st, &data, 28, UtfMode::Utf32Le).unwrap();
    assert_eq!(st.get_line_count(), 2);
    assert_eq!(st.get_line_pos(0), 28);
}

#[test]
fn test_read_raw_then_convert_utf16le() {
    let data = utf16le_file();
    let mut st = load(&data, true);
    let pos = st.get_line_pos(0);
    let raw = read(&st, &data, pos, st.get_line_length(0) as usize).unwrap();
    assert_eq!(raw.len(), 12);
    let utf8 = fjiffyldg::convert_to_utf8(&raw, &fjiffyldg::TextEncoding::Utf16Le).unwrap();
    assert_eq!(utf8, b"alpha");
}

#[test]
fn test_read_raw_then_convert_utf32le() {
    let data = utf32le_file();
    let mut st = load(&data, true);
    let pos = st.get_line_pos(0);
    let raw = read(&st, &data, pos, st.get_line_length(0) as usize).unwrap();
    assert_eq!(raw.len(), 24);
    let utf8 = fjiffyldg::convert_to_utf8(&raw, &fjiffyldg::TextEncoding::Utf32Le).unwrap();
    assert_eq!(utf8, b"alpha");
}

#[test]
fn test_restart_scan_default_uses_file_bom_before_offset() {
    let mut data = vec![0xFF, 0xFE];
    for unit in "skip\nline\n".encode_utf16() {
        data.extend_from_slice(&unit.to_le_bytes());
    }
    let mut st = load(&data, true);
    restart(&mut st, &data, 12, UtfMode::Default).unwrap();
    assert_eq!(st.get_line_count(), 2);
    assert_eq!(st.get_line_pos(0), 12);
    assert_eq!(st.get_line_length(0), 8);
    assert_eq!(st.get_line_pos(1), 22);
}

#[test]
fn test_read_line_cut_batches_short_lines() {
    let text = b"a\nb\nc\n";
    let mut st = load(text, true);
    let (mut index, mut begin, mut end, mut len) = (0i64, -1i64, -1i64, 0usize);
    let data = read_line_cut(&mut st, text, &mut index, &mut begin, &mut end, &mut len).unwrap();
    assert_eq!(index, 3);
    assert_eq!(begin, 0);
    assert_eq!(end, 6);
    assert_eq!(len, 6);
    assert_eq!(data, b"a\nb\nc\n");

    let (mut index, mut begin, mut end, mut len) = (0i64, -1i64, -1i64, 1usize);
    let data = read_line_cut(&mut st, text, &mut index, &mut begin, &mut end, &mut len).unwrap();
    assert_eq!(index, 0);
    assert_eq!(begin, 0);
    assert_eq!(end, 2);
    assert_eq!(len, 2);
    assert_eq!(data, b"a\n");
}

// ---------------------------------------------------------------------------
// Further cases
// ---------------------------------------------------------------------------

#[test]
fn test_read_line_defaults_to_long_line_cutoff() {
    let mut text = vec![b'x'; 5 * 1024];
    text.extend_from_slice(b"\nnext\n");
    let mut st = load(&text, true);

    let mut begin = -1;
    let mut end = -1;
    let mut len = 0;
    let data = read_line(&mut st, &text, 0, &mut begin, &mut end, &mut len).unwrap();

    assert_eq!(begin, 0);
    assert_eq!(end, 4096);
    assert_eq!(len, 4096);
    assert_eq!(data.len(), 4096);

    let mut index = 0;
    let mut begin = -1;
    let mut end = -1;
    let mut len = 0;
    let data = read_line_cut(&mut st, &text, &mut index, &mut begin, &mut end, &mut len).unwrap();

    assert_eq!(index, 0);
    assert_eq!(begin, 0);
    assert_eq!(end, 4096);
    assert_eq!(len, 4096);
    assert_eq!(data.len(), 4096);
}

#[test]
fn a_long_line_after_short_ones_is_cut_and_kept() {
    let mut text = b"ab\n".to_vec();
    text.extend_from_slice(&vec![b'y'; 5000]);
    text.extend_from_slice(b"\nz");
    let mut st = load(&text, true);
    let (mut index, mut begin, mut end, mut len) = (0i64, -1i64, -1i64, 0usize);
    let data = read_line_cut(&mut st, &text, &mut index, &mut begin, &mut end, &mut len).unwrap();
    // line 1 is longer than the cut length: the batch stops on it, cut
    assert_eq!((index, begin, end, len), (1, 0, 3 + 4096, 3 + 4096));
    assert_eq!(&data[..3], b"ab\n");
}

#[test]
fn single_long_line_without_newline() {
    let text = vec![b'A'; 8 * 1024];
    let mut st = load(&text, true);
    assert_eq!(st.get_line_count(), 1);
    let (mut index, mut begin, mut end, mut len) = (0i64, -1i64, -1i64, 0usize);
    let data = read_line_cut(&mut st, &text, &mut index, &mut begin, &mut end, &mut len).unwrap();
    assert_eq!((index, begin, end, len), (1, 0, CRITICAL_LONGLINE_LEN as i64, CRITICAL_LONGLINE_LEN));
    assert!(data.iter().all(|&b| b == b'A'));
    let mut len = 0usize;
    let data = read_to_line_end(&mut st, &text, 0, 0, &mut len).unwrap();
    assert_eq!(len, CRITICAL_LONGLINE_LEN);
    assert_eq!(data.len(), CRITICAL_LONGLINE_LEN);
    assert_eq!(st.get_line_by_pos(text.len() as i64 - 1), 0);
}

#[test]
fn short_last_line_batch_ends_at_file_end() {
    let text = b"ab\ncd";
    let mut st = load(text, true);
    let (mut index, mut begin, mut end, mut len) = (1i64, -1i64, -1i64, 0usize);
    let data = read_line_cut(&mut st, text, &mut index, &mut begin, &mut end, &mut len).unwrap();
    assert_eq!((index, begin, end, len), (1, 3, 5, 2));
    assert_eq!(data, b"cd");
}

#[test]
fn line_reads_fail_outside_the_index() {
    let mut st = load(b"a\nb\n", true);
    let (mut index, mut begin, mut end, mut len) = (-1i64, 7i64, 8i64, 9usize);
    assert!(st.read_line_cut(&mut index, &mut begin, &mut end, &mut len).is_none());
    assert_eq!((index, begin, end, len), (-1, 7, 8, 0));
    let (mut begin, mut end, mut len) = (7i64, 8i64, 9usize);
    assert!(st.read_line(9, &mut begin, &mut end, &mut len).is_none());
    assert_eq!((begin, end, len), (7, 8, 0));
    assert!(st.read_line(-1, &mut begin, &mut end, &mut len).is_none());
    let mut len = 5usize;
    assert!(st.read_to_end_of_line(5, 0, &mut len).is_none());
    assert_eq!(len, 0);
}

#[test]
fn read_line_respects_the_asked_length() {
    let text = b"hello\nworld";
    let mut st = load(text, true);
    let (mut begin, mut end, mut len) = (-1i64, -1i64, 3usize);
    let data = read_line(&mut st, text, 1, &mut begin, &mut end, &mut len).unwrap();
    assert_eq!((begin, end, len), (6, 9, 3));
    assert_eq!(data, b"wor");
    let (mut begin, mut end, mut len) = (-1i64, -1i64, 99usize);
    let data = read_line(&mut st, text, 0, &mut begin, &mut end, &mut len).unwrap();
    assert_eq!((begin, end, len), (0, 5, 5));
    assert_eq!(data, b"hello");
}

#[test]
fn read_to_end_of_line_cases() {
    let text = b"line1\nline2\n";
    let mut st = load(text, true);
    // from inside the first line to its end, newline included
    let mut len = 0usize;
    assert_eq!(read_to_line_end(&mut st, text, 0, 2, &mut len).unwrap(), b"ne1\n");
    assert_eq!(len, 4);
    // at a line boundary: nothing
    let mut len = 0usize;
    assert_eq!(read_to_line_end(&mut st, text, 0, 6, &mut len).unwrap(), b"");
    assert_eq!(len, 0);
    // the last line runs to the end of the file
    let mut len = 0usize;
    assert_eq!(read_to_line_end(&mut st, text, 2, 12, &mut len).unwrap(), b"");
    // a position before the line, or beyond the file
    let mut len = 3usize;
    assert!(st.read_to_end_of_line(1, 2, &mut len).is_none());
    assert_eq!(len, 0);
    let mut len = 3usize;
    assert!(st.read_to_end_of_line(2, 13, &mut len).is_none());
    // a limit shorter than the rest of the line
    let mut len = 2usize;
    assert_eq!(read_to_line_end(&mut st, text, 1, 6, &mut len).unwrap(), b"li");
}

#[test]
fn data_reads_are_clamped_to_the_file() {
    let text = b"line1\nline2\n";
    let st = load(text, true);
    assert_eq!(st.read_range(-5, 3), Some((0, 3)));
    assert_eq!(st.read_range(0, 0), Some((0, 12)));
    assert_eq!(st.read_range(10, 100), Some((10, 2)));
    assert_eq!(st.read_range(999, 4), Some((12, 0)));
    assert_eq!(read(&st, text, -1, 0).unwrap(), text.to_vec());
    let big = vec![b'z'; BUFFER_SIZE + 10];
    let st = load(&big, false);
    assert_eq!(st.read_range(0, 0), Some((0, BUFFER_SIZE)));
    assert_eq!(FileState::new().read_range(0, 1), None);
}

#[test]
fn line_queries_need_a_loaded_file() {
    let mut st = FileState::new();
    assert_eq!(st.get_line_count(), -1);
    assert_eq!(st.get_line_pos(0), -1);
    assert_eq!(st.get_line_by_pos(0), -1);
    let mut st = load(b"a\nb", true);
    assert_eq!(st.get_line_by_pos(3), 1);
    assert_eq!(st.get_line_by_pos(4), -1);
    assert_eq!(st.get_line_by_pos(-1), -1);
    assert_eq!(st.get_line_pos(-3), -1);
    assert!(st.begin_window_scan(0, UtfMode::Default));
    assert_eq!(st.get_line_count(), -1);
}

#[test]
fn load_steps() {
    let mut st = FileState::new();
    st.begin_load();
    assert_eq!(st.opened(5, false, 64, true), Err(FjiffyldgError::FileInaccessible));
    assert_eq!(st.get_error_code(), 1);
    assert_eq!(st.get_load_status(), Err(FjiffyldgError::FileInaccessible));

    st.begin_load();
    assert_eq!(st.opened(5, true, 0, true), Ok(LoadStep::ReadWhole));
    assert_eq!(st.mmap_chunk_size(), 1);
    assert_eq!(st.get_load_status(), Err(FjiffyldgError::FileInaccessible));
    assert!(st.loaded_ok(true));
    assert_eq!(st.get_load_status(), Ok(true));
    assert_eq!(st.get_file_size(), 5);

    st.begin_load();
    let big = USUALLY_IO_SIZE_MAX + 1;
    assert_eq!(
        st.opened(big, true, 4096, true),
        Ok(LoadStep::MapWindow { offset: 0, len: 4096 })
    );
    assert_eq!(st.opened(big, true, big + 5, false), Ok(LoadStep::MapWindow { offset: 0, len: big }));
    assert_eq!(st.load_failed(FjiffyldgError::MmapError), FjiffyldgError::MmapError);
    assert_eq!(st.get_file_size(), 0);
    assert!(!st.is_loaded());
    assert_eq!(st.get_load_status(), Err(FjiffyldgError::MmapError));

    st.clear();
    assert_eq!(st.get_load_status(), Ok(false));
    assert_eq!(st.get_error_code(), 0);
}

#[test]
fn restart_checks() {
    let mut st = FileState::new();
    assert_eq!(st.check_restart(0), Err(FjiffyldgError::FileNotLoaded));
    assert_eq!(st.get_error_code(), -1);
    let mut st = load(b"abc\n", true);
    assert_eq!(st.check_restart(5), Err(FjiffyldgError::InvalidOffset));
    assert_eq!(st.get_error_code(), 4);
    assert_eq!(st.check_restart(4), Ok(()));
    assert_eq!(st.apply_restart(UtfMode::Utf16Be, false, UtfMode::Default), UtfMode::Utf16Be);
    assert_eq!(st.get_error_code(), 0);
    assert_eq!(st.get_line_count(), -1);
    st.stop_scan();
    assert_eq!(st.get_line_count(), 0);
    assert_eq!(st.get_line_pos(0), -1);
}

#[test]
fn scan_mode_resolution() {
    let file = UtfMode::Utf32Be;
    assert_eq!(resolve_scan_utf_mode(Some(UtfMode::Default), true, file, UtfMode::Default), file);
    assert_eq!(
        resolve_scan_utf_mode(Some(UtfMode::Default), false, file, UtfMode::Utf16Le),
        UtfMode::Default
    );
    assert_eq!(resolve_scan_utf_mode(Some(UtfMode::AutoDetect), false, file, UtfMode::Default), file);
    assert_eq!(
        resolve_scan_utf_mode(Some(UtfMode::Utf16Le), true, file, UtfMode::Default),
        UtfMode::Utf16Le
    );
    assert_eq!(resolve_scan_utf_mode(None, true, file, UtfMode::Utf16Be), UtfMode::Utf16Be);
    assert_eq!(resolve_scan_utf_mode(None, true, file, UtfMode::Default), file);
    assert_eq!(resolve_scan_utf_mode(None, false, file, UtfMode::Default), UtfMode::Default);
}

#[test]
fn mode_detection_from_marks() {
    assert_eq!(detect_utf_mode(&[0xFF, 0xFE, 0, 0]), UtfMode::Utf32Le);
    assert_eq!(detect_utf_mode(&[0, 0, 0xFE, 0xFF]), UtfMode::Utf32Be);
    assert_eq!(detect_utf_mode(&[0xFF, 0xFE, b'a', 0]), UtfMode::Utf16Le);
    assert_eq!(detect_utf_mode(&[0xFE, 0xFF]), UtfMode::Utf16Be);
    assert_eq!(detect_utf_mode(&[0xEF, 0xBB, 0xBF]), UtfMode::Default);
    assert_eq!(detect_utf_mode(b"plain"), UtfMode::Default);
}

#[test]
fn mapped_windows() {
    // aligned to the chunk, one chunk long
    assert_eq!(map_window_for(17, 5, 64, 4096), (0, 64));
    assert_eq!(map_window_for(100, 5, 64, 4096), (64, 64));
    // a read that runs past the chunk widens the window
    assert_eq!(map_window_for(100, 100, 64, 4096), (64, 136));
    // never past the end of the file
    assert_eq!(map_window_for(4090, 100, 64, 4096), (4032, 64));
    assert_eq!(map_window_for(5000, 1, 64, 4096), (4992, 0));
    // no overflow near the top of the range
    assert_eq!(map_window_for(u64::MAX, u64::MAX, u64::MAX, u64::MAX), (u64::MAX, 0));
    assert!(window_covers(64, 136, 100, 100));
    assert!(!window_covers(64, 64, 100, 100));
    assert!(!window_covers(64, 64, 10, 1));
    assert!(window_covers(0, 0, 0, 0));
}

#[test]
fn scanning_by_windows_matches_scanning_whole() {
    let text = b"one\r\ntwo\rthree\n\nfour";
    let cancel = AtomicBool::new(false);
    let mut windowed = LineIndex::new();
    let complete = windowed.build_from_windows_at_cancelable(
        0,
        text.len() as u64,
        3,
        UtfMode::Default,
        &cancel,
        |o, l| Some(text[o as usize..(o + l) as usize].to_vec()),
    );
    assert!(complete);
    let mut whole = LineIndex::new();
    whole.build_from_data(text, UtfMode::Default);
    assert_eq!(windowed.get_line_count(), 5);
    for line in 0..5 {
        assert_eq!(windowed.get_line_pos(line), whole.get_line_pos(line));
        assert_eq!(windowed.get_line_length(line), whole.get_line_length(line));
    }
    assert_eq!(windowed.get_line_pos(4), 16);
}

#[test]
fn a_cancelled_scan_installs_an_empty_index() {
    let cancel = AtomicBool::new(true);
    let mut st = load(b"a\nb\n", false);
    assert!(st.begin_window_scan(0, UtfMode::Default));
    assert!(st.is_scanning());
    assert!(!st.scan_window(b"a\nb\n".to_vec(), &cancel));
    assert!(!st.is_scanning());
    assert_eq!(st.get_line_count(), 0);
    assert_eq!(st.get_line_pos(0), -1);
}

#[test]
fn test_fjiffyldg_basic() {
    let st = load(b"line1\nline2\nline3\n", true);
    assert_eq!(st.get_load_status(), Ok(true));
    assert_eq!(st.get_line_count(), 4);
    assert_eq!(st.get_line_length(0), 5);
}

#[test]
fn test_restart_scan_from_offset() {
    let data = b"skip\nline1\nline2\n";
    let mut st = load(data, true);
    restart(&mut st, data, 5, UtfMode::Default).unwrap();
    assert_eq!(st.get_line_count(), 3);
    assert_eq!(st.get_line_pos(0), 5);
    assert_eq!(st.get_line_length(0), 5);
}

#[test]
fn test_request_stop_scan_is_safe_when_no_scan_is_running() {
    let mut st = FileState::new();
    st.stop_scan();
    assert!(!st.is_scanning());
}

#[test]
fn test_request_stop_scan_clears_index_after_background_scan() {
    let mut data = Vec::with_capacity(200_000);
    for _ in 0..100_000 {
        data.extend_from_slice(b"x\n");
    }
    let mut st = load(&data, true);
    assert!(st.begin_window_scan(0, UtfMode::Default));
    st.stop_scan();
    assert!(!st.is_scanning());
    assert_eq!(st.get_line_count(), 0);
    assert_eq!(st.get_line_pos(0), -1);
}

#[test]
fn line_positions_are_visible_while_scanning() {
    let data = b"x\n".repeat(1024 * 1024);
    let mut st = load(&data, false);
    let cancel = AtomicBool::new(false);
    assert!(st.begin_window_scan(0, UtfMode::Default));
    assert_eq!(st.get_line_pos(0), 0);
    assert_eq!(st.next_scan_window(), Some((0, SCAN_WINDOW_SIZE)));
    assert!(st.scan_window(data[..SCAN_WINDOW_SIZE as usize].to_vec(), &cancel));
    assert!(st.is_scanning());
    assert_eq!(st.get_line_count(), -1);
    assert_eq!(st.get_line_pos(0), 0);
    assert_eq!(st.get_line_pos(1), 2);
    assert_eq!(st.get_line_pos(1000), 2000);
    assert_eq!(st.get_line_by_pos(2001), 1000);
    let (pos, len) = st.next_scan_window().unwrap();
    assert_eq!((pos, len), (SCAN_WINDOW_SIZE, data.len() as u64 - SCAN_WINDOW_SIZE));
    assert!(!st.finish_window_scan());
    assert!(st.scan_window(data[pos as usize..].to_vec(), &cancel));
    assert_eq!(st.next_scan_window(), None);
    assert!(st.finish_window_scan());
    assert!(!st.is_scanning());
    assert_eq!(st.get_line_count(), 1024 * 1024 + 1);
    assert_eq!(st.get_line_pos(1000), 2000);
    assert_eq!(st.get_line_length(1000), 1);
    assert_eq!(st.get_line_length(1024 * 1024), 0);
}

#[test]
fn a_window_of_the_wrong_length_ends_the_scan() {
    let mut st = load(b"ab\ncd\n", false);
    let cancel = AtomicBool::new(false);
    assert!(st.begin_window_scan(0, UtfMode::Default));
    assert!(!st.scan_window(b"ab\n".to_vec(), &cancel));
    assert!(!st.is_scanning());
    assert_eq!(st.get_line_count(), 0);
    assert_eq!(st.next_scan_window(), None);
    assert!(!st.scan_window(b"ab\ncd\n".to_vec(), &cancel));
}

#[test]
fn a_scan_from_the_end_of_the_file_finds_no_line() {
    let data = b"ab\ncd\n";
    let mut st = load(data, true);
    assert!(!st.begin_window_scan(data.len() as u64, UtfMode::Default));
    assert!(!st.is_scanning());
    assert_eq!(st.get_line_count(), 0);
}

#[test]
fn line_count_after_loads() {
    assert_eq!(load(b"", true).get_line_count(), 1);
    assert_eq!(load(b"", false).get_line_count(), 0);
    assert_eq!(load(b"a\nb", false).get_line_count(), 0);
    assert_eq!(load(b"a\nb", true).get_line_count(), 2);
    assert_eq!(load(b"a\nb\n", true).get_line_count(), 3);
}

/// A file state that went through a load of `data` as a large file mapped
/// in windows of `window_size` bytes, with a finished line scan when `scan`
/// is set.
fn load_mapped(data: &[u8], scan: bool, window_size: u64) -> FileState {
    let mut st = FileState::new();
    st.begin_load();
    let step = st.opened(data.len() as u64, true, window_size, scan).unwrap();
    assert_eq!(step, LoadStep::MapWindow { offset: 0, len: window_size });
    if st.loaded_ok(scan) {
        rescan(&mut st, data, 0, None, true);
    }
    st
}

fn marked_large_text(window_size: u64) -> Vec<u8> {
    let mut data = vec![b'a'; (USUALLY_IO_SIZE_MAX as usize) + 64];
    data[8] = b'\n';
    data[window_size as usize + 17] = b'\n';
    data
}

#[test]
fn test_read_data_remaps_window_for_far_mmap_offset() {
    let window_size = 4096u64;
    let mut data = vec![b'a'; (USUALLY_IO_SIZE_MAX as usize) + 64];
    let target_pos = window_size as usize + 17;
    data[target_pos..target_pos + 5].copy_from_slice(b"hello");
    let st = load_mapped(&data, false, window_size);
    let (start, len) = st.read_range(target_pos as i64, 5).unwrap();
    assert!(!window_covers(0, window_size, start, len as u64));
    let (offset, map_len) = map_window_for(start, len as u64, window_size, data.len() as u64);
    assert_eq!(offset, window_size);
    assert!(window_covers(offset, map_len, start, len as u64));
    let begin = (start - offset) as usize;
    let window = &data[offset as usize..(offset + map_len) as usize];
    assert_eq!(&window[begin..begin + len], b"hello");
}

#[test]
fn test_scan_uses_all_mmap_windows() {
    let window_size = 4096u64;
    let data = marked_large_text(window_size);
    let mut st = load_mapped(&data, true, window_size);
    assert_eq!(st.get_line_count(), 3);
    assert_eq!(st.get_line_pos(1), 9);
    assert_eq!(st.get_line_pos(2), window_size as i64 + 18);
}

#[test]
fn test_windowed_scan_supports_unaligned_restart_offset() {
    let window_size = 4096u64;
    let data = marked_large_text(window_size);
    let mut st = load_mapped(&data, false, window_size);
    st.check_restart(3).unwrap();
    st.stop_scan();
    let resolved = st.apply_restart(UtfMode::Default, false, detect_utf_mode(&data));
    rescan(&mut st, &data, 3, Some(resolved), false);
    assert_eq!(st.get_line_count(), 3);
    assert_eq!(st.get_line_pos(0), 3);
    assert_eq!(st.get_line_pos(1), 9);
    assert_eq!(st.get_line_pos(2), window_size as i64 + 18);
}

#[test]
fn every_counted_line_can_be_read() {
    let data = b"one\r\ntwo\n\nthree";
    let mut st = load(data, true);
    let count = st.get_line_count();
    assert_eq!(count, 4);
    for line in 0..count {
        let (mut bpos, mut epos, mut len) = (-1i64, -1i64, 0usize);
        let (start, n) = st.read_line(line, &mut bpos, &mut epos, &mut len).unwrap();
        assert_eq!(start, st.get_line_pos(line));
        assert_eq!(n as i64, st.get_line_length(line));
        assert_eq!((bpos, epos, len), (start, start + n as i64, n));
        assert!(!data[start as usize..start as usize + n].contains(&b'\n'));
    }
}
