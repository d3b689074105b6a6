use qmkonnect::hid_id::{matches_qmk_signature, read_le, syspath_from_devpath};
use std::path::PathBuf;

#[test]
fn detects_known_signature() {
    assert!(matches_qmk_signature(&[0x06, 0x60, 0xff, 0x09, 0x61]));
}

#[test]
fn detects_signature_with_items_in_between() {
    assert!(matches_qmk_signature(&[
        0x06, 0x60, 0xff, 0x85, 0x01, 0x75, 0x08, 0x09, 0x61,
    ]));
}

#[test]
fn ignores_wrong_usage_page() {
    assert!(!matches_qmk_signature(&[0x06, 0x61, 0xff, 0x09, 0x61]));
}

#[test]
fn ignores_wrong_usage() {
    assert!(!matches_qmk_signature(&[0x06, 0x60, 0xff, 0x09, 0x62]));
}

#[test]
fn ignores_usage_without_qmk_page() {
    assert!(!matches_qmk_signature(&[0x06, 0x01, 0x00, 0x09, 0x61]));
}

#[test]
fn truncated_descriptor_is_no_match() {
    assert!(!matches_qmk_signature(&[0x06, 0x60]));
}

#[test]
fn empty_descriptor_is_no_match() {
    assert!(!matches_qmk_signature(&[]));
}

#[test]
fn long_item_is_skipped_without_panic() {
    assert!(matches_qmk_signature(&[
        0xFE, 0x02, 0xAA, 0x11, 0x22, 0x06, 0x60, 0xff, 0x09, 0x61,
    ]));
}

#[test]
fn read_le_is_little_endian() {
    assert_eq!(read_le(&[]), 0);
    assert_eq!(read_le(&[0x61]), 0x61);
    assert_eq!(read_le(&[0x60, 0xff]), 0xff60);
    assert_eq!(read_le(&[0x01, 0x02, 0x03, 0x04]), 0x04030201);
}

#[test]
fn syspath_from_absolute_devpath() {
    assert_eq!(
        PathBuf::from(syspath_from_devpath("/devices/foo/hidraw/hidraw9")),
        PathBuf::from("/sys/devices/foo/hidraw/hidraw9")
    );
    assert_eq!(
        PathBuf::from(syspath_from_devpath("devices/x")),
        PathBuf::from("/sys/devices/x")
    );
}

#[test]
fn read_le_reads_at_most_four_bytes() {
    assert_eq!(read_le(&[0x01, 0x02, 0x03, 0x04, 0x05]), 0x04030201);
}

#[test]
fn usage_before_page_is_no_match() {
    assert!(!matches_qmk_signature(&[0x09, 0x61, 0x06, 0x60, 0xff]));
}

#[test]
fn later_page_item_overrides_earlier_page() {
    assert!(!matches_qmk_signature(&[0x06, 0x60, 0xff, 0x05, 0x01, 0x09, 0x61]));
    assert!(matches_qmk_signature(&[0x05, 0x01, 0x06, 0x60, 0xff, 0x09, 0x61]));
}

#[test]
fn truncated_long_item_header_is_no_match() {
    assert!(!matches_qmk_signature(&[0xFE]));
}

#[test]
fn four_byte_usage_page_item_is_read() {
    assert!(matches_qmk_signature(&[0x07, 0x60, 0xff, 0x00, 0x00, 0x09, 0x61]));
}

#[test]
fn syspath_strips_every_leading_slash_and_keeps_empty_tail() {
    assert_eq!(syspath_from_devpath("///devices/y"), "/sys/devices/y");
    assert_eq!(syspath_from_devpath(""), "/sys/");
}
