use fjiffyldg::line_index::{LineIndex, CHUNK_SIZE, DIRECT_LINES_MAX};
use fjiffyldg::UtfMode;
use std::sync::atomic::AtomicBool;

fn lines_of(n: usize) -> Vec<u8> {
    let mut data = Vec::with_capacity(n * 2);
    for _ in 0..n {
        data.extend_from_slice(b"x\n");
    }
    data
}

#[test]
fn test_line_index_basic() {
    let mut index = LineIndex::new();
    let data = b"line1\nline2\nline3\n";

    index.build_from_data(data, UtfMode::Default);

    assert_eq!(index.get_line_count(), 4);
    assert_eq!(index.get_line_length(0), 5);
    assert_eq!(index.get_line_length(1), 5);
    assert_eq!(index.get_line_length(2), 5);
    assert_eq!(index.get_line_length(3), 0);
}

#[test]
fn test_get_line_by_pos() {
    let mut index = LineIndex::new();
    let data = b"line1\nline2\nline3\n";

    index.build_from_data(data, UtfMode::Default);

    assert_eq!(index.get_line_by_pos(0), 0);
    assert_eq!(index.get_line_by_pos(5), 0);
    assert_eq!(index.get_line_by_pos(6), 1);
    assert_eq!(index.get_line_by_pos(12), 2);
}

#[test]
fn test_utf8_lines() {
    let mut index = LineIndex::new();
    let data = "你好\n世界\n".as_bytes();

    index.build_from_data(data, UtfMode::Default);

    assert_eq!(index.get_line_count(), 3);
    assert_eq!(index.get_line_length(0), 6);
    assert_eq!(index.get_line_length(1), 6);
    assert_eq!(index.get_line_length(2), 0);
}

#[test]
fn test_crlf_line_positions_and_lengths() {
    let mut index = LineIndex::new();
    let data = b"line1\r\nline2\r\n";

    index.build_from_data(data, UtfMode::Default);

    assert_eq!(index.get_line_count(), 3);
    assert_eq!(index.get_line_pos(0), 0);
    assert_eq!(index.get_line_pos(1), 7);
    assert_eq!(index.get_line_pos(2), 14);
    assert_eq!(index.get_line_length(0), 5);
    assert_eq!(index.get_line_length(1), 5);
    assert_eq!(index.get_line_length(2), 0);
}

#[test]
fn test_windowed_scan_preserves_crlf_across_boundary() {
    let mut index = LineIndex::new();
    let data = b"abc\r\ndef";
    let cancel_requested = AtomicBool::new(false);

    assert!(index.build_from_windows_at_cancelable(
        0,
        data.len() as u64,
        4,
        UtfMode::Default,
        &cancel_requested,
        |offset, len| Some(data[offset as usize..(offset + len) as usize].to_vec()),
    ));

    assert_eq!(index.get_line_count(), 2);
    assert_eq!(index.get_line_pos(0), 0);
    assert_eq!(index.get_line_pos(1), 5);
    assert_eq!(index.get_line_length(0), 3);
    assert_eq!(index.get_line_length(1), 3);
}

#[test]
fn test_unterminated_last_line_length() {
    let mut index = LineIndex::new();
    let data = b"first\nsecond";

    index.build_from_data(data, UtfMode::Default);

    assert_eq!(index.get_line_count(), 2);
    assert_eq!(index.get_line_pos(0), 0);
    assert_eq!(index.get_line_pos(1), 6);
    assert_eq!(index.get_line_length(0), 5);
    assert_eq!(index.get_line_length(1), 6);
}

#[test]
fn test_utf16le_line_positions_use_original_byte_offsets() {
    let mut index = LineIndex::new();
    let data = [b'a', 0, b'\r', 0, b'\n', 0, b'b', 0];

    index.build_from_data(&data, UtfMode::Utf16Le);

    assert_eq!(index.get_line_count(), 2);
    assert_eq!(index.get_line_pos(0), 0);
    assert_eq!(index.get_line_pos(1), 6);
    assert_eq!(index.get_line_length(0), 2);
    assert_eq!(index.get_line_length(1), 2);
}

#[test]
fn test_utf16be_crlf_positions_use_original_byte_offsets() {
    let mut index = LineIndex::new();
    let data = [0, b'a', 0, b'\r', 0, b'\n', 0, b'b'];

    index.build_from_data(&data, UtfMode::Utf16Be);

    assert_eq!(index.get_line_count(), 2);
    assert_eq!(index.get_line_pos(0), 0);
    assert_eq!(index.get_line_pos(1), 6);
    assert_eq!(index.get_line_length(0), 2);
    assert_eq!(index.get_line_length(1), 2);
}

#[test]
fn test_utf32le_lf_positions_use_original_byte_offsets() {
    let mut index = LineIndex::new();
    let data = [b'a', 0, 0, 0, b'\n', 0, 0, 0, b'b', 0, 0, 0];

    index.build_from_data_at(&data, 101, UtfMode::Utf32Le);

    assert_eq!(index.get_line_count(), 2);
    assert_eq!(index.get_line_pos(0), 101);
    assert_eq!(index.get_line_pos(1), 109);
    assert_eq!(index.get_line_length(0), 4);
    assert_eq!(index.get_line_length(1), 4);
}

#[test]
fn test_utf32be_crlf_positions_use_original_byte_offsets() {
    let mut index = LineIndex::new();
    let data = [0, 0, 0, b'a', 0, 0, 0, b'\r', 0, 0, 0, b'\n', 0, 0, 0, b'b'];

    index.build_from_data(&data, UtfMode::Utf32Be);

    assert_eq!(index.get_line_count(), 2);
    assert_eq!(index.get_line_pos(0), 0);
    assert_eq!(index.get_line_pos(1), 12);
    assert_eq!(index.get_line_length(0), 4);
    assert_eq!(index.get_line_length(1), 4);
}

#[test]
fn test_positions_after_direct_index_limit_are_preserved() {
    let mut index = LineIndex::new();
    let line_count = DIRECT_LINES_MAX + 2;
    let data = lines_of(line_count);

    index.build_from_data(&data, UtfMode::Default);

    assert_eq!(index.get_line_count(), (line_count + 1) as i64);
    assert_eq!(
        index.get_line_pos(DIRECT_LINES_MAX),
        (DIRECT_LINES_MAX * 2) as i64
    );
    assert_eq!(
        index.get_line_pos(DIRECT_LINES_MAX + 1),
        ((DIRECT_LINES_MAX + 1) * 2) as i64
    );
    assert_eq!(
        index.get_line_by_pos(((DIRECT_LINES_MAX + 1) * 2) as i64),
        (DIRECT_LINES_MAX + 1) as i64
    );
}

#[test]
fn test_chunk_index_is_populated_after_direct_limit() {
    let mut index = LineIndex::new();
    let line_count = DIRECT_LINES_MAX + 70_000;
    let data = lines_of(line_count);

    index.build_from_data(&data, UtfMode::Default);

    assert!(index.chunk_count() > 0);
    assert_eq!(
        index.get_line_pos(DIRECT_LINES_MAX),
        (DIRECT_LINES_MAX * 2) as i64
    );
    assert_eq!(
        index.get_line_by_pos(((DIRECT_LINES_MAX + 65_536) * 2) as i64),
        (DIRECT_LINES_MAX + 65_536) as i64
    );
}

#[test]
fn test_chunk_index_narrows_position_search_bounds() {
    let mut index = LineIndex::new();
    let line_count = DIRECT_LINES_MAX + 140_000;
    let data = lines_of(line_count);

    index.build_from_data(&data, UtfMode::Default);

    let (left, right) = index.search_bounds_by_pos(((DIRECT_LINES_MAX + 65_536) * 2) as u64);

    assert!(left >= DIRECT_LINES_MAX);
    assert!(right < line_count + 1);
    assert!(right - left < 140_000);
}

#[test]
fn test_chunk_index_narrows_line_search_bounds() {
    let mut index = LineIndex::new();
    let line_count = DIRECT_LINES_MAX + 140_000;
    let data = lines_of(line_count);

    index.build_from_data(&data, UtfMode::Default);

    let target = DIRECT_LINES_MAX + 65_536;
    let (left, right) = index.search_bounds_by_line(target);

    assert!(left >= DIRECT_LINES_MAX);
    assert!(left <= target);
    assert!(right > target);
    assert!(right - left < 140_000);
    assert_eq!(index.get_line_pos(target), (target * 2) as i64);
}

#[test]
fn test_overstep_position_records_first_chunk_overflow() {
    let mut index = LineIndex::new();

    index.update_chunk_index(DIRECT_LINES_MAX as u64, 1_000, 1);
    index.update_chunk_index((DIRECT_LINES_MAX + 1) as u64, 1_000 + CHUNK_SIZE + 10, 1);

    assert_eq!(index.chunk_count(), 1);
    assert_eq!(index.overstep_pos(), 1_000 + CHUNK_SIZE + 10);
}

#[test]
fn test_cancelled_build_leaves_empty_scanned_index() {
    let mut index = LineIndex::new();
    let cancel_requested = AtomicBool::new(true);

    let completed = index.build_from_data_at_cancelable(
        b"line1\nline2\n",
        0,
        UtfMode::Default,
        &cancel_requested,
    );

    assert!(!completed);
    assert!(index.is_scanned());
    assert_eq!(index.get_line_count(), 0);
    assert_eq!(index.get_line_pos(0), -1);
}

fn windowed(data: &[u8], chunk: u64, mode: UtfMode) -> (bool, LineIndex) {
    let mut index = LineIndex::new();
    let cancel = AtomicBool::new(false);
    let ok = index.build_from_windows_at_cancelable(
        0,
        data.len() as u64,
        chunk,
        mode,
        &cancel,
        |offset, len| Some(data[offset as usize..(offset + len) as usize].to_vec()),
    );
    (ok, index)
}

#[test]
fn test_crlf_across_window_boundary() {
    let (ok, mut index) = windowed(b"abc\r\ndef", 4, UtfMode::Default);
    assert!(ok);
    assert_eq!(index.get_line_count(), 2);
    assert_eq!(index.get_line_pos(0), 0);
    assert_eq!(index.get_line_pos(1), 5);
    assert_eq!(index.get_line_length(0), 3);
    assert_eq!(index.get_line_length(1), 3);
}

#[test]
fn test_crlf_boundary_at_exact_window_edge() {
    let (ok, index) = windowed(b"ab\r\ncd\r\nef", 5, UtfMode::Default);
    assert!(ok);
    assert_eq!(index.get_line_count(), 3);
    assert_eq!(index.get_line_length(0), 2);
    assert_eq!(index.get_line_length(1), 2);
    assert_eq!(index.get_line_length(2), 2);
}

#[test]
fn test_crlf_split_cr_at_window_end() {
    let (ok, mut index) = windowed(b"a\r\nb", 2, UtfMode::Default);
    assert!(ok);
    assert_eq!(index.get_line_count(), 2);
    assert_eq!(index.get_line_pos(0), 0);
    assert_eq!(index.get_line_pos(1), 3);
    assert_eq!(index.get_line_length(0), 1);
    assert_eq!(index.get_line_length(1), 1);
}

// ---------------------------------------------------------------------------
// Further cases
// ---------------------------------------------------------------------------

fn positions(index: &mut LineIndex) -> Vec<(i64, i64)> {
    let n = index.get_line_count();
    (0..n as usize)
        .map(|i| (index.get_line_pos(i), index.get_line_length(i)))
        .collect()
}

#[test]
fn windowed_scan_equals_whole_scan_for_every_window_size() {
    let texts: [(&[u8], UtfMode); 4] = [
        (b"a\r\nbb\rccc\n\r\n\ndd\r", UtfMode::Default),
        (
            &[b'a', 0, b'\r', 0, b'\n', 0, b'b', 0, b'\r', 0, b'c', 0, b'\n', 0],
            UtfMode::Utf16Le,
        ),
        (
            &[0, 0, 0, b'a', 0, 0, 0, b'\r', 0, 0, 0, b'\n', 0, 0, 0, b'\n', 0, 0, 0, b'z'],
            UtfMode::Utf32Be,
        ),
        (&[0, b'a', 0, b'\n', 0, b'\r', 0x0A, 0x00, 0], UtfMode::Utf16Be),
    ];
    for (data, mode) in texts {
        let mut whole = LineIndex::new();
        whole.build_from_data(data, mode);
        let expected = positions(&mut whole);
        for chunk in 0..=(data.len() as u64 + 1) {
            let (ok, mut index) = windowed(data, chunk, mode);
            assert!(ok);
            assert_eq!(positions(&mut index), expected, "chunk {chunk}");
        }
    }
}

#[test]
fn windowed_scan_from_an_offset() {
    let data = b"skip\nline1\nline2\n";
    let mut index = LineIndex::new();
    let cancel = AtomicBool::new(false);
    assert!(index.build_from_windows_at_cancelable(
        5,
        data.len() as u64,
        3,
        UtfMode::Default,
        &cancel,
        |offset, len| Some(data[offset as usize..(offset + len) as usize].to_vec()),
    ));
    assert_eq!(index.get_line_count(), 3);
    assert_eq!(index.get_line_pos(0), 5);
    assert_eq!(index.get_line_pos(1), 11);
    assert_eq!(index.get_line_pos(2), 17);
    assert_eq!(index.get_line_length(2), 0);
}

#[test]
fn windowed_scan_fails_on_a_bad_window() {
    let data = b"abc\ndef\n";
    let cancel = AtomicBool::new(false);

    let mut index = LineIndex::new();
    let ok = index.build_from_windows_at_cancelable(0, 8, 3, UtfMode::Default, &cancel, |o, _| {
        if o >= 3 { None } else { Some(data[0..3].to_vec()) }
    });
    assert!(!ok);
    assert!(index.is_scanned());
    assert_eq!(index.get_line_count(), 0);

    let mut index = LineIndex::new();
    let ok = index.build_from_windows_at_cancelable(0, 8, 3, UtfMode::Default, &cancel, |_, _| {
        Some(Vec::new())
    });
    assert!(!ok);
    assert_eq!(index.get_line_count(), 0);

    let mut index = LineIndex::new();
    let ok = index.build_from_windows_at_cancelable(0, 8, 3, UtfMode::Default, &cancel, |_, _| {
        Some(vec![b'x'; 2])
    });
    assert!(!ok);
    assert_eq!(index.get_line_count(), 0);
}

#[test]
fn windowed_scan_of_nothing() {
    let cancel = AtomicBool::new(false);
    let mut index = LineIndex::new();
    let ok = index.build_from_windows_at_cancelable(4, 4, 3, UtfMode::Default, &cancel, |_, _| None);
    assert!(ok);
    assert!(index.is_scanned());
    assert_eq!(index.get_line_count(), 0);

    let cancelled = AtomicBool::new(true);
    let ok = index.build_from_windows_at_cancelable(0, 4, 3, UtfMode::Default, &cancelled, |_, _| {
        Some(b"abc".to_vec())
    });
    assert!(!ok);
    assert_eq!(index.get_line_count(), 0);
}

#[test]
fn empty_data_has_no_lines() {
    let mut index = LineIndex::new();
    index.build_from_data(b"", UtfMode::Default);
    assert!(index.is_scanned());
    assert_eq!(index.get_line_count(), 0);
    assert_eq!(index.get_line_pos(0), -1);
    assert_eq!(index.get_line_by_pos(0), -1);
}

#[test]
fn empty_file_state_has_one_empty_line() {
    let mut index = LineIndex::new();
    index.mark_empty_file();
    assert_eq!(index.get_line_count(), 1);
    assert_eq!(index.get_line_pos(0), 0);
    assert_eq!(index.get_line_length(0), 0);
    index.clear();
    assert!(!index.is_scanned());
    assert_eq!(index.get_line_count(), -1);
}

#[test]
fn lone_cr_ends_a_line() {
    let mut index = LineIndex::new();
    index.build_from_data(b"a\rb\n\rc", UtfMode::Default);
    assert_eq!(index.get_line_count(), 4);
    assert_eq!(positions(&mut index), vec![(0, 1), (2, 1), (4, 0), (5, 1)]);
}

#[test]
fn wide_newline_bytes_off_the_unit_grid_are_not_endings() {
    // UTF-16LE text whose code units hold 0x0A in the high byte (U+0A61)
    let data = [0x61, 0x0A, 0x0A, 0x00, 0x62, 0x00];
    let mut index = LineIndex::new();
    index.build_from_data(&data, UtfMode::Utf16Le);
    assert_eq!(positions(&mut index), vec![(0, 2), (4, 2)]);
    // an odd trailing byte stays in the last line
    let mut index = LineIndex::new();
    index.build_from_data(&[0x61, 0x00, 0x0A], UtfMode::Utf16Le);
    assert_eq!(positions(&mut index), vec![(0, 3)]);
}

#[test]
fn every_byte_of_a_line_maps_back_to_it() {
    let data = b"ab\ncde\r\n\nf";
    let mut index = LineIndex::new();
    index.build_from_data(data, UtfMode::Default);
    let n = index.get_line_count() as usize;
    for line in 0..n {
        let start = index.get_line_pos(line);
        let end = if line + 1 < n { index.get_line_pos(line + 1) } else { data.len() as i64 };
        for pos in start..end {
            assert_eq!(index.get_line_by_pos(pos), line as i64, "pos {pos}");
        }
    }
    assert_eq!(index.get_line_by_pos(-1), -1);
    assert_eq!(index.get_line_by_pos(1_000), (n - 1) as i64);
}

#[test]
fn positions_before_the_first_line_map_to_line_zero() {
    let mut index = LineIndex::new();
    index.build_from_data_at(b"x\ny", 100, UtfMode::Default);
    assert_eq!(index.get_line_by_pos(3), 0);
    assert_eq!(index.get_line_by_pos(102), 1);
}

#[test]
fn line_queries_outside_the_index() {
    let mut index = LineIndex::new();
    index.build_from_data(b"a\nb", UtfMode::Default);
    assert_eq!(index.get_line_pos(2), -1);
    assert_eq!(index.get_line_length(2), -1);
    let mut fresh = LineIndex::new();
    assert_eq!(fresh.get_line_count(), -1);
    assert_eq!(fresh.get_line_length(0), -1);
    assert_eq!(fresh.get_line_pos(0), -1);
}

#[test]
fn repeated_lookups_use_the_cache_consistently() {
    let mut index = LineIndex::new();
    index.build_from_data(b"a\nbb\nccc\n", UtfMode::Default);
    for _ in 0..3 {
        assert_eq!(index.get_line_pos(2), 5);
        assert_eq!(index.get_line_pos(1), 2);
    }
    index.build_from_data(b"zz\ny", UtfMode::Default);
    assert_eq!(index.get_line_pos(1), 3);
    assert_eq!(index.get_line_pos(2), -1);
}

#[test]
fn chunk_update_rules() {
    let mut index = LineIndex::new();
    // lines before the chunked range are ignored
    index.update_chunk_index(5, 10, 4);
    assert_eq!(index.chunk_count(), 0);
    index.update_chunk_index(DIRECT_LINES_MAX as u64, 100, 4);
    assert_eq!(index.chunk_count(), 1);
    // within one chunk size of the last chunk's start: the chunk grows
    index.update_chunk_index(DIRECT_LINES_MAX as u64 + 1, 100 + CHUNK_SIZE - 1, 4);
    assert_eq!(index.chunk_count(), 1);
    // further: a new chunk
    index.update_chunk_index(DIRECT_LINES_MAX as u64 + 2, 100 + CHUNK_SIZE, 4);
    assert_eq!(index.chunk_count(), 2);
    assert_eq!(index.overstep_pos(), 0);
}

#[test]
fn set_utf_mode_changes_nothing() {
    let mut index = LineIndex::new();
    index.build_from_data(b"a\nb", UtfMode::Default);
    index.set_utf_mode(UtfMode::Utf32Be);
    assert_eq!(index.get_line_count(), 2);
    assert_eq!(index.get_line_pos(1), 2);
}

/// An index of `DIRECT_LINES_MAX` one-byte lines followed by three lines
/// that start at `x`, `x + CHUNK_SIZE + 10` and `x + CHUNK_SIZE + 20`,
/// where `x` is the start of the first line past the direct offsets.
/// Line starts increase, so the direct lines take a byte each and
/// `x == DIRECT_LINES_MAX`.
fn index_past_direct_lines() -> (LineIndex, u64) {
    let mut data = vec![b'\n'; DIRECT_LINES_MAX];
    data.extend(std::iter::repeat(b'a').take(CHUNK_SIZE as usize + 9));
    data.push(b'\n');
    data.extend_from_slice(b"aaaaaaaaa\n");
    data.extend_from_slice(b"aaaaa");
    let mut index = LineIndex::new();
    index.build_from_data(&data, UtfMode::Default);
    (index, DIRECT_LINES_MAX as u64)
}

#[test]
fn test_overstep_position_narrows_search_after_last_chunk() {
    let (index, x) = index_past_direct_lines();
    assert_eq!(index.get_line_count(), (DIRECT_LINES_MAX + 3) as i64);

    let (left, right) = index.search_bounds_by_pos(x + CHUNK_SIZE + 20);

    assert_eq!(left, DIRECT_LINES_MAX + 1);
    assert_eq!(right, DIRECT_LINES_MAX + 3);
    assert_eq!(
        index.get_line_by_pos((x + CHUNK_SIZE + 20) as i64),
        (DIRECT_LINES_MAX + 2) as i64
    );
}

#[test]
fn test_overstep_position_narrows_line_search_after_last_chunk() {
    let (mut index, x) = index_past_direct_lines();

    let (left, right) = index.search_bounds_by_line(DIRECT_LINES_MAX + 2);

    assert_eq!(left, DIRECT_LINES_MAX + 1);
    assert_eq!(right, DIRECT_LINES_MAX + 3);
    assert_eq!(
        index.get_line_pos(DIRECT_LINES_MAX + 2),
        (x + CHUNK_SIZE + 20) as i64
    );
}
