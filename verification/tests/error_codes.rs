use fjiffyldg::error::{check_written_size, file_helper_code, result_code};
use fjiffyldg::{FjiffyldgError, UtfMode};

const ALL_ERRORS: [FjiffyldgError; 10] = [
    FjiffyldgError::FileNotLoaded,
    FjiffyldgError::FileInaccessible,
    FjiffyldgError::StreamError,
    FjiffyldgError::IncompleteWrite,
    FjiffyldgError::MmapError,
    FjiffyldgError::InvalidOffset,
    FjiffyldgError::InvalidLineIndex,
    FjiffyldgError::BufferTooSmall,
    FjiffyldgError::EncodingError,
    FjiffyldgError::IoError,
];

#[test]
fn error_codes_match_the_table() {
    assert_eq!(FjiffyldgError::FileNotLoaded.to_error_code(), -1);
    assert_eq!(FjiffyldgError::FileInaccessible.to_error_code(), 1);
    assert_eq!(FjiffyldgError::StreamError.to_error_code(), 2);
    assert_eq!(FjiffyldgError::MmapError.to_error_code(), 3);
    assert_eq!(FjiffyldgError::InvalidOffset.to_error_code(), 4);
    assert_eq!(FjiffyldgError::InvalidLineIndex.to_error_code(), 5);
    assert_eq!(FjiffyldgError::BufferTooSmall.to_error_code(), 6);
    assert_eq!(FjiffyldgError::EncodingError.to_error_code(), 7);
    assert_eq!(FjiffyldgError::IncompleteWrite.to_error_code(), 8);
    assert_eq!(FjiffyldgError::IoError.to_error_code(), -2);
    assert_eq!(FjiffyldgError::from_error_code(2), Some(FjiffyldgError::StreamError));
}

#[test]
fn error_codes_round_trip() {
    for e in ALL_ERRORS {
        assert_eq!(FjiffyldgError::from_error_code(e.to_error_code()), Some(e));
    }
}

#[test]
fn unknown_error_codes_have_no_error() {
    for code in [0, 9, -3, 100, i32::MIN, i32::MAX] {
        assert_eq!(FjiffyldgError::from_error_code(code), None);
    }
}

#[test]
fn result_codes() {
    assert_eq!(result_code(&Ok(())), 0);
    assert_eq!(result_code(&Err(FjiffyldgError::MmapError)), 3);
    assert_eq!(file_helper_code(&Ok(())), 0);
    assert_eq!(file_helper_code(&Err(FjiffyldgError::FileNotLoaded)), -1);
    assert_eq!(file_helper_code(&Err(FjiffyldgError::IncompleteWrite)), 1);
}

#[test]
fn written_size_check() {
    assert_eq!(check_written_size(Ok(11), 11), Ok(()));
    assert_eq!(
        check_written_size(Ok(10), 11),
        Err(FjiffyldgError::IncompleteWrite)
    );
    assert_eq!(
        check_written_size(Err(FjiffyldgError::FileInaccessible), 11),
        Err(FjiffyldgError::FileInaccessible)
    );
}

#[test]
fn utf_mode_codes() {
    assert_eq!(UtfMode::Default.code(), 0);
    assert_eq!(UtfMode::Utf16Le.code(), 1);
    assert_eq!(UtfMode::Utf16Be.code(), 2);
    assert_eq!(UtfMode::Utf32Le.code(), 3);
    assert_eq!(UtfMode::Utf32Be.code(), 4);
    assert_eq!(UtfMode::AutoDetect.code(), -1);
    for m in [
        UtfMode::Default,
        UtfMode::Utf16Le,
        UtfMode::Utf16Be,
        UtfMode::Utf32Le,
        UtfMode::Utf32Be,
        UtfMode::AutoDetect,
    ] {
        assert_eq!(UtfMode::from_code(m.code()), m);
    }
    assert_eq!(UtfMode::from_code(42), UtfMode::Default);
}
