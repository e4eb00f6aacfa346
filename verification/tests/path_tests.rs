//! Tests of segment file name parsing.

use bitcask::path::parse_file_id;

#[test]
fn parses_zero_padded_segment_names() {
    assert_eq!(parse_file_id("000001.data"), Some(1));
    assert_eq!(parse_file_id("000042.data"), Some(42));
    assert_eq!(parse_file_id("123456.hint"), Some(123456));
}

#[test]
fn parses_digits_without_suffix() {
    assert_eq!(parse_file_id("123"), Some(123));
    assert_eq!(parse_file_id("18446744073709551615.data"), Some(u64::MAX));
}

#[test]
fn rejects_names_without_a_numeric_prefix() {
    assert_eq!(parse_file_id(""), None);
    assert_eq!(parse_file_id(".data"), None);
    assert_eq!(parse_file_id("abc.data"), None);
    assert_eq!(parse_file_id("12a34.data"), None);
    // one past u64::MAX
    assert_eq!(parse_file_id("18446744073709551616.data"), None);
}
