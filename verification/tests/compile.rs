//! The signature compiler.

use sigscan::pattern::{Part, Pattern, PatternCompileError};

#[test]
fn pattern_new() {
    let pattern = Pattern::new("?? 02 A1 9B FF");
    let expected = vec![
        Part::Skip,
        Part::Byte(0x02),
        Part::Byte(0xA1),
        Part::Byte(0x9B),
        Part::Byte(0xFF),
    ];
    assert_eq!(&expected, pattern.unwrap().parts());
}

#[test]
fn lower_case_hex_accepted() {
    let pattern = Pattern::new("ff 0a").unwrap();
    assert_eq!(&vec![Part::Byte(0xFF), Part::Byte(0x0A)], pattern.parts());
}

#[test]
fn invalid_token_too_short() {
    let err = Pattern::new("A").unwrap_err();
    assert_eq!(PatternCompileError::InvalidToken(vec![0x41]), err);
}

#[test]
fn invalid_token_not_hex() {
    let err = Pattern::new("GG").unwrap_err();
    assert_eq!(PatternCompileError::InvalidToken(vec![0x47, 0x47]), err);
}

#[test]
fn first_invalid_token_reported() {
    let err = Pattern::new("FF G2 XX").unwrap_err();
    assert_eq!(PatternCompileError::InvalidToken(vec![0x47, 0x32]), err);
}

#[test]
fn empty_text_rejected() {
    let err = Pattern::new("").unwrap_err();
    assert_eq!(PatternCompileError::InvalidToken(vec![]), err);
}

#[test]
fn double_space_rejected() {
    // Tokens are separated by single spaces: two in a row make an empty,
    // invalid token.
    let err = Pattern::new("FF  01").unwrap_err();
    assert_eq!(PatternCompileError::InvalidToken(vec![]), err);
}

#[test]
fn mixed_wildcards_rejected() {
    let err = Pattern::new("?*").unwrap_err();
    assert_eq!(PatternCompileError::InvalidToken(vec![0x3F, 0x2A]), err);
}

#[test]
fn compile_twice_equal() {
    let first = Pattern::new("FF ?? 01 ** 9b").unwrap();
    let second = Pattern::new("FF ?? 01 ** 9b").unwrap();
    assert_eq!(first, second);
    assert_eq!(first.parts(), second.parts());
}
