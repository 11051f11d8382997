use sig_scan::sig_scan_data;
use sig_scan::Signature;

#[test]
fn parses_exact_and_wildcard_tokens() {
    let sig = Signature::new("68 ?? 6C").unwrap();
    assert_eq!(sig.len(), 3);
    assert_eq!(sig.get(0), Some(0x68));
    assert_eq!(sig.get(1), None);
    assert_eq!(sig.get(2), Some(0x6C));
}

#[test]
fn parses_lower_and_upper_hex() {
    let sig = Signature::new("aB 0f F0 00 99").unwrap();
    assert_eq!(sig.len(), 5);
    assert_eq!(sig.get(0), Some(0xAB));
    assert_eq!(sig.get(1), Some(0x0F));
    assert_eq!(sig.get(2), Some(0xF0));
    assert_eq!(sig.get(3), Some(0x00));
    assert_eq!(sig.get(4), Some(0x99));
}

#[test]
fn rejects_malformed_tokens() {
    assert!(Signature::new("GG").is_none());
    assert!(Signature::new("6").is_none());
    assert!(Signature::new("6C8").is_none());
    assert!(Signature::new("?").is_none());
    assert!(Signature::new("???").is_none());
    assert!(Signature::new("6?").is_none());
    assert!(Signature::new("?6").is_none());
    assert!(Signature::new("68 ?? zz").is_none());
}

#[test]
fn empty_pattern_gives_empty_signature() {
    let sig = Signature::new("").unwrap();
    assert_eq!(sig.len(), 0);
    assert_eq!(sig_scan_data(&[1, 2, 3], &sig), Some(0));
    assert_eq!(sig_scan_data(&[], &sig), Some(0));
}

#[test]
fn whitespace_only_pattern_gives_empty_signature() {
    let sig = Signature::new(" \t\r\n ").unwrap();
    assert_eq!(sig.len(), 0);
}

#[test]
fn extra_whitespace_between_tokens_is_ignored() {
    let sig = Signature::new("  68   ??\t6C ").unwrap();
    assert_eq!(sig.len(), 3);
    assert_eq!(sig.get(0), Some(0x68));
    assert_eq!(sig.get(1), None);
    assert_eq!(sig.get(2), Some(0x6C));
}

#[test]
fn finds_pattern_at_known_offset() {
    let sig = Signature::new("12 ?? 56").unwrap();
    let data = [0u8, 1, 2, 0x12, 0x99, 0x56, 7];
    assert_eq!(sig_scan_data(&data, &sig), Some(3));
}

#[test]
fn all_wildcards_match_at_offset_zero() {
    let sig = Signature::new("?? ?? ??").unwrap();
    assert_eq!(sig_scan_data(&[9, 8, 7, 6], &sig), Some(0));
    assert_eq!(sig_scan_data(&[0, 0, 0], &sig), Some(0));
}

#[test]
fn short_buffer_is_not_found() {
    let sig = Signature::new("68 65 78").unwrap();
    assert_eq!(sig_scan_data(&[0x68, 0x65], &sig), None);
    assert_eq!(sig_scan_data(&[], &sig), None);
}

#[test]
fn round_trip_parse_then_match() {
    let sig = Signature::new("68 ?? 6C 6C 6F").unwrap();
    let data = [0x68, 0x00, 0x6C, 0x6C, 0x6F];
    assert_eq!(sig_scan_data(&data, &sig), Some(0));
}

#[test]
fn returns_first_of_several_matches() {
    let sig = Signature::new("AA BB").unwrap();
    let data = [0x00, 0xAA, 0xBB, 0xAA, 0xBB];
    assert_eq!(sig_scan_data(&data, &sig), Some(1));
}

#[test]
fn no_match_in_long_buffer() {
    let sig = Signature::new("FF FF").unwrap();
    let data = [0xFF, 0xFE, 0xFF, 0xFE];
    assert_eq!(sig_scan_data(&data, &sig), None);
}

#[test]
fn wildcard_positions_accept_any_byte() {
    let sig = Signature::new("10 ?? 30").unwrap();
    assert_eq!(sig_scan_data(&[0x10, 0x00, 0x30], &sig), Some(0));
    assert_eq!(sig_scan_data(&[0x10, 0xFF, 0x30], &sig), Some(0));
    assert_eq!(sig_scan_data(&[0x10, 0xFF, 0x31], &sig), None);
}

#[test]
fn compare_checks_the_window_start() {
    let sig = Signature::new("01 ?? 03").unwrap();
    assert!(sig.compare(&[0x01, 0xAA, 0x03, 0xFF]));
    assert!(!sig.compare(&[0x00, 0xAA, 0x03]));
}
