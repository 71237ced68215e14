//! The process-memory scanner over addressable regions.

use sigscan::mem::{BufferRegion, MaskedRegion, ProcessInfo, ProcessScanner};
use sigscan::pattern::Pattern;

#[test]
fn single_fixed_match_at_absolute_address() {
    // An all-byte pattern that stands at exactly one position is found
    // once, at base + position.
    let region = BufferRegion::new(vec![0x0, 0x1, 0x2, 0x3, 0x4, 0x5]);
    let info = ProcessInfo::new(0x1000, 6);
    let mut scanner = ProcessScanner::scan(info, region, Pattern::new("02 03").unwrap());
    assert_eq!(Some(0x1002), scanner.next());
    assert_eq!(None, scanner.next());
}

#[test]
fn overlapping_starts_all_tried() {
    // A sliding window: every candidate start is tried, overlapping ones
    // included, in ascending address order.
    let region = BufferRegion::new(vec![0x1, 0x1, 0x1]);
    let info = ProcessInfo::new(0x40, 3);
    let mut scanner = ProcessScanner::scan(info, region, Pattern::new("01 01").unwrap());
    assert_eq!(Some(0x40), scanner.next());
    assert_eq!(Some(0x41), scanner.next());
    assert_eq!(None, scanner.next());
}

#[test]
fn captures_at_match() {
    let region = BufferRegion::new(vec![0x4, 0x2, 0x9, 0x1, 0x8]);
    let info = ProcessInfo::new(0, 5);
    let mut scanner = ProcessScanner::scan(info, region, Pattern::new("04 ** 09 ?? **").unwrap());
    assert_eq!(Some(0), scanner.next());
    assert_eq!(scanner.store, vec![0x2, 0x8]);
}

#[test]
fn unreadable_page_skipped_scan_goes_on() {
    // Candidate starts 0 and 1 overlap the unreadable location; both are
    // skipped without ending the scan, and the match behind them is still
    // found.
    let slots = vec![Some(0xFF), None, Some(0xFF), Some(0x01)];
    let region = MaskedRegion::new(slots);
    let info = ProcessInfo::new(0x2000, 4);
    let mut scanner = ProcessScanner::scan(info, region, Pattern::new("FF ??").unwrap());
    assert_eq!(Some(0x2002), scanner.next());
    assert_eq!(None, scanner.next());
}

#[test]
fn fully_unreadable_region_yields_nothing() {
    let region = MaskedRegion::new(vec![None, None, None]);
    let info = ProcessInfo::new(0x3000, 3);
    let mut scanner = ProcessScanner::scan(info, region, Pattern::new("??").unwrap());
    assert_eq!(None, scanner.next());
}

#[test]
fn region_scan_twice_same_sequence() {
    let bytes = vec![0x7, 0x8, 0x7, 0x8];
    let pattern = Pattern::new("07 08").unwrap();
    let info = ProcessInfo::new(0x500, 4);
    let mut first: Vec<(usize, Vec<u8>)> = Vec::new();
    let mut scanner = ProcessScanner::scan(info, BufferRegion::new(bytes.clone()), pattern.clone());
    while let Some(addr) = scanner.next() {
        first.push((addr, scanner.store.clone()));
    }
    let mut second: Vec<(usize, Vec<u8>)> = Vec::new();
    let mut scanner = ProcessScanner::scan(info, BufferRegion::new(bytes), pattern);
    while let Some(addr) = scanner.next() {
        second.push((addr, scanner.store.clone()));
    }
    assert_eq!(first, vec![(0x500, vec![]), (0x502, vec![])]);
    assert_eq!(first, second);
}
