//! Rings: names, equality, display.

use std::collections::HashSet;

use iroh_rings::{Error, Ring, OPEN_RING_NAME};

#[test]
fn new_valid_name_succeeds() {
    let ring = Ring::new("friends").unwrap();
    assert_eq!(ring.as_str(), "friends");
}

#[test]
fn new_empty_name_errors() {
    assert!(Ring::new("").is_err());
}

#[test]
fn new_name_with_space_errors() {
    assert!(Ring::new("my ring").is_err());
}

#[test]
fn new_name_with_tab_errors() {
    assert!(Ring::new("ring\there").is_err());
}

#[test]
fn new_name_with_nul_errors() {
    assert!(Ring::new("ring\0name").is_err());
}

#[test]
fn new_open_creates_open_ring() {
    let ring = Ring::new_open();
    assert_eq!(ring.as_str(), OPEN_RING_NAME);
    assert!(ring.is_open());
}

#[test]
fn is_open_returns_false_for_non_open_ring() {
    let ring = Ring::new("friends").unwrap();
    assert!(!ring.is_open());
}

#[test]
fn display_shows_name() {
    let ring = Ring::new("friends").unwrap();
    assert_eq!(ring.to_string(), "friends");
}

#[test]
fn equality_is_based_on_name_not_timestamp() {
    let a = Ring::new("friends").unwrap();
    let b = Ring::new("friends").unwrap();
    assert_eq!(a, b);
}

#[test]
fn rings_with_different_names_are_not_equal() {
    let a = Ring::new("friends").unwrap();
    let b = Ring::new("work").unwrap();
    assert_ne!(a, b);
}

#[test]
fn hash_is_consistent_with_equality() {
    let a = Ring::new("friends").unwrap();
    let b = Ring::new("friends").unwrap();
    let mut set = HashSet::new();
    set.insert(a);
    set.insert(b);
    assert_eq!(set.len(), 1);
}

#[test]
fn new_says_what_is_wrong_with_a_name() {
    assert_eq!(Ring::new("").unwrap_err(), Error::RingNameEmpty);
    assert_eq!(Ring::new("a b").unwrap_err(), Error::RingNameInvalidChars);
    assert_eq!(Ring::new("a\u{3000}b").unwrap_err(), Error::RingNameInvalidChars);
    assert_eq!(Ring::new("a\u{2028}").unwrap_err(), Error::RingNameInvalidChars);
    assert_eq!(Ring::new("\u{85}").unwrap_err(), Error::RingNameInvalidChars);
    assert_eq!(Ring::new("\0").unwrap_err(), Error::RingNameInvalidChars);
}

#[test]
fn new_accepts_whatever_is_not_white_space() {
    for name in ["open", "caf\u{e9}", "\u{200b}", "\u{1f600}", "a-b_c.d", "\u{1}"] {
        assert_eq!(Ring::new(name).unwrap().as_str(), name);
    }
    assert!(Ring::new("open").unwrap().is_open());
}

#[test]
fn clone_keeps_name_and_timestamp() {
    let ring = Ring::new("friends").unwrap();
    let copy = ring.clone();
    assert_eq!(copy, ring);
    assert_eq!(copy.timestamp(), ring.timestamp());
}

#[test]
fn timestamps_do_not_go_backwards() {
    let a = Ring::new("a").unwrap();
    let b = Ring::new("b").unwrap();
    assert!(a.timestamp() <= b.timestamp());
}

#[test]
fn a_ring_can_be_made_for_a_given_time() {
    let first = Ring::new("first").unwrap();
    let ring = Ring::with_timestamp("second", first.timestamp()).unwrap();
    assert_eq!(ring.as_str(), "second");
    assert_eq!(ring.timestamp(), first.timestamp());
    assert!(matches!(Ring::with_timestamp("", first.timestamp()), Err(Error::RingNameEmpty)));
    assert!(matches!(Ring::with_timestamp("a b", first.timestamp()), Err(Error::RingNameInvalidChars)));
}

#[test]
fn error_messages_say_what_happened() {
    let cases = [
        (Error::RingNameEmpty, "ring name must not be empty"),
        (Error::RingNameInvalidChars, "ring name must not contain whitespace or NUL bytes"),
        (Error::RingNameReserved("open".to_string()), "'open' is a reserved ring name"),
        (Error::RingAlreadyExists("r".to_string()), "ring 'r' already exists"),
        (Error::RingNotFound("r".to_string()), "ring 'r' not found"),
        (Error::ResourceIdTooLong(257), "resource id length 257 exceeds maximum"),
        (Error::ResourceIdTooLong(1000), "resource id length 1000 exceeds maximum"),
        (Error::UnknownStatusByte(0x02), "unexpected status byte: 0x02"),
        (Error::UnknownOperationByte(0xfe), "unknown operation byte: 0xfe"),
        (Error::OpenRingReadOnly, "the open ring may only be associated with Read permission"),
        (Error::EmptyPermissionSet, "permission set must not be empty"),
        (Error::Storage("disk on fire".to_string()), "storage error: disk on fire"),
    ];
    for (error, text) in cases {
        assert_eq!(error.to_string(), text);
    }
}
