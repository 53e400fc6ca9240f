use categories::codec::{decode_cursor, encode_cursor};
use categories::error::CategoryError;

#[test]
fn cursor_round_trip() {
    assert_eq!(decode_cursor(&encode_cursor(7, 99)), Ok((7, 99)));
    assert_eq!(decode_cursor(&encode_cursor(0, 0)), Ok((0, 0)));
    assert_eq!(
        decode_cursor(&encode_cursor(u64::MAX, u64::MAX)),
        Ok((u64::MAX, u64::MAX))
    );
}

#[test]
fn cursor_is_stable() {
    assert_eq!(encode_cursor(5, 6), encode_cursor(5, 6));
    assert_eq!(encode_cursor(12, 345), "12:345".to_string());
}

#[test]
fn cursor_without_separator_is_invalid() {
    assert_eq!(decode_cursor("12345"), Err(CategoryError::InvalidCursor));
    assert_eq!(decode_cursor(""), Err(CategoryError::InvalidCursor));
}

#[test]
fn cursor_with_bad_digits_is_invalid() {
    assert_eq!(decode_cursor("12x:5"), Err(CategoryError::InvalidCursor));
    assert_eq!(decode_cursor(":5"), Err(CategoryError::InvalidCursor));
    assert_eq!(decode_cursor("5:"), Err(CategoryError::InvalidCursor));
    assert_eq!(decode_cursor("abc:def"), Err(CategoryError::InvalidCursor));
}

#[test]
fn cursor_with_overflowing_timestamp_is_invalid() {
    assert_eq!(
        decode_cursor("1:99999999999999999999999"),
        Err(CategoryError::InvalidCursor)
    );
    assert_eq!(
        decode_cursor("99999999999999999999999:1"),
        Err(CategoryError::InvalidCursor)
    );
}

#[test]
fn cursor_accepts_leading_zeros() {
    assert_eq!(decode_cursor("007:042"), Ok((7, 42)));
}
