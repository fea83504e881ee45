use dupdirfinder::bytesize::{is_well_shaped, parse_byte_size, validate_byte_size, ByteSizeError};

#[test]
fn plain_number_is_a_number_of_bytes() {
    assert_eq!(parse_byte_size("1"), Ok(1));
    assert_eq!(parse_byte_size("500"), Ok(500));
    assert_eq!(parse_byte_size(" 42 "), Ok(42));
}

#[test]
fn unit_multiplies_by_a_power_of_1024() {
    assert_eq!(parse_byte_size("1K"), Ok(1024));
    assert_eq!(parse_byte_size("1.5K"), Ok(1536));
    assert_eq!(parse_byte_size("2M"), Ok(2 * 1024 * 1024));
    assert_eq!(parse_byte_size("1GiB"), Ok(1024 * 1024 * 1024));
}

#[test]
fn text_that_is_no_number_is_invalid() {
    assert_eq!(parse_byte_size("1O"), Err(ByteSizeError::Invalid));
    assert_eq!(parse_byte_size("-1"), Err(ByteSizeError::Invalid));
    assert_eq!(parse_byte_size("abc"), Err(ByteSizeError::Invalid));
}

#[test]
fn too_many_bytes_overflow() {
    assert_eq!(parse_byte_size("42E"), Err(ByteSizeError::Overflow));
}

#[test]
fn blank_text_is_invalid() {
    assert_eq!(parse_byte_size(""), Err(ByteSizeError::Invalid));
    assert_eq!(parse_byte_size("  \t "), Err(ByteSizeError::Invalid));
    assert_eq!(parse_byte_size("\u{a0}\u{2003}"), Err(ByteSizeError::Invalid));
    assert!(!is_well_shaped(""));
    assert!(!is_well_shaped(" \n"));
    assert!(!is_well_shaped("\u{a0}"));
    assert!(is_well_shaped(" 1"));
}

#[test]
fn white_space_of_unicode_is_trimmed() {
    assert!(is_well_shaped("\u{a0}1K\u{a0}"));
    assert_eq!(parse_byte_size("\u{a0}1K\u{a0}"), Ok(1024));
    assert_eq!(parse_byte_size("\u{2003}7"), Ok(7));
    assert_eq!(validate_byte_size("1K\u{a0}"), Ok(()));
}

#[test]
fn unit_beyond_ascii_is_lowered() {
    assert!(is_well_shaped("1\u{212a}"));
    assert_eq!(parse_byte_size("1\u{212a}"), Ok(1024));
    assert_eq!(validate_byte_size("1\u{212a}"), Ok(()));
    assert_eq!(parse_byte_size("1\u{e9}"), Err(ByteSizeError::Invalid));
}

#[test]
fn text_that_starts_beyond_ascii_is_invalid() {
    assert!(!is_well_shaped("\u{e9}1"));
    assert!(!is_well_shaped(" \u{212a}"));
    assert_eq!(parse_byte_size("\u{e9}1"), Err(ByteSizeError::Invalid));
    assert_eq!(parse_byte_size("\u{212a}"), Err(ByteSizeError::Invalid));
    assert_eq!(validate_byte_size("\u{130}1"), Err(ByteSizeError::Invalid));
}

#[test]
fn validation_accepts_what_parses() {
    assert_eq!(validate_byte_size("1"), Ok(()));
    assert_eq!(validate_byte_size("10M"), Ok(()));
    assert_eq!(validate_byte_size("ten"), Err(ByteSizeError::Invalid));
    assert_eq!(validate_byte_size("42E"), Err(ByteSizeError::Overflow));
    assert_eq!(validate_byte_size(""), Err(ByteSizeError::Invalid));
}
