//! The forward scanner over byte sources.

use sigscan::pattern::Pattern;
use sigscan::{ScanPtr, Scanner};

#[test]
fn scan() {
    let bytes = vec![0x3, 0x12, 0x58, 0xFF, 0x0, 0x1, 0x2, 0x3];
    let mut scanner = Scanner::scan(ScanPtr::new(bytes), Pattern::new("FF ?? 01").unwrap());
    let found = scanner.next();
    assert_eq!(Some(3), found);
}

#[test]
fn scan_ptr() {
    let bytes: Vec<u8> = vec![0x4, 0x2, 0x0, 0x6, 0x9];
    let mut scanner = Scanner::scan_ptr(bytes, Pattern::new("04 ?? 00 ?? 09").unwrap());
    assert_eq!(Some(0), scanner.next())
}

#[test]
fn take() {
    let bytes: Vec<u8> = vec![0x4, 0x2, 0x9, 0x1, 0x8];
    let mut scanner = Scanner::scan(ScanPtr::new(bytes), Pattern::new("04 ** 09 ?? **").unwrap());
    let found = scanner.next();
    assert_eq!(Some(0), found);
    assert_eq!(scanner.store, vec![0x2, 0x8]);
}

#[test]
fn scan_finds_exactly_one_match() {
    let bytes = vec![0x3, 0x12, 0x58, 0xFF, 0x0, 0x1, 0x2, 0x3];
    let mut scanner = Scanner::scan(ScanPtr::new(bytes), Pattern::new("FF ?? 01").unwrap());
    assert_eq!(Some(3), scanner.next());
    assert_eq!(None, scanner.next());
}

#[test]
fn exhausted_source_yields_none() {
    let bytes: Vec<u8> = vec![0x1, 0x2];
    let mut scanner = Scanner::scan(ScanPtr::new(bytes), Pattern::new("01 02 03").unwrap());
    assert_eq!(None, scanner.next());
    assert_eq!(None, scanner.next());
}

#[test]
fn attempt_index_is_not_byte_offset() {
    // The first attempt gets past the 0x07 and fails on the second part,
    // consuming two bytes; the next attempt starts where the source now
    // stands. The match is at byte offset 2 but is attempt number 1.
    let bytes: Vec<u8> = vec![0x7, 0x9, 0x7, 0x8];
    let mut scanner = Scanner::scan(ScanPtr::new(bytes), Pattern::new("07 08").unwrap());
    assert_eq!(Some(1), scanner.next());
}

#[test]
fn store_survives_exhaustion() {
    let bytes: Vec<u8> = vec![0xAA, 0x5, 0x1];
    let mut scanner = Scanner::scan(ScanPtr::new(bytes), Pattern::new("AA **").unwrap());
    assert_eq!(Some(0), scanner.next());
    assert_eq!(scanner.store, vec![0x5]);
    assert_eq!(None, scanner.next());
    assert_eq!(scanner.store, vec![0x5]);
}

#[test]
fn scan_twice_same_sequence() {
    // A fresh scanner over the same bytes yields the same matches in the
    // same order.
    let bytes: Vec<u8> = vec![0x1, 0x2, 0x1, 0x2, 0x1, 0x2];
    let pattern = Pattern::new("01 02").unwrap();
    let mut first: Vec<(usize, Vec<u8>)> = Vec::new();
    let mut scanner = Scanner::scan(ScanPtr::new(bytes.clone()), pattern.clone());
    while let Some(idx) = scanner.next() {
        first.push((idx, scanner.store.clone()));
    }
    let mut second: Vec<(usize, Vec<u8>)> = Vec::new();
    let mut scanner = Scanner::scan(ScanPtr::new(bytes), pattern);
    while let Some(idx) = scanner.next() {
        second.push((idx, scanner.store.clone()));
    }
    // The counter counts abandoned attempts only, so back-to-back clean
    // matches all report index 0.
    assert_eq!(first, vec![(0, vec![]), (0, vec![]), (0, vec![])]);
    assert_eq!(first, second);
}
