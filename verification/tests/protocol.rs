//! The wire format of requests and responses.

use iroh_rings::protocol::{
    encode_operation, encode_request, parse_operation, Status, MAX_RESOURCE_ID_BYTES,
};
use iroh_rings::{Error, Permission, ALPN};

#[test]
fn status_denied_parses_from_byte() {
    assert!(matches!(Status::try_from(0x00).unwrap(), Status::Denied));
}

#[test]
fn status_allowed_parses_from_byte() {
    assert!(matches!(Status::try_from(0x01).unwrap(), Status::Allowed));
}

#[test]
fn status_unknown_byte_errors() {
    assert!(Status::try_from(0x02).is_err());
    assert!(Status::try_from(0xff).is_err());
}

#[test]
fn encode_request_empty_resource_id_writes_zero_length_header() {
    let encoded = encode_request(&[], Permission::Read).unwrap();
    assert_eq!(encoded.len(), 3); // 2B len + 0B id + 1B op
    assert_eq!(u16::from_le_bytes(encoded[..2].try_into().unwrap()), 0);
    assert_eq!(encoded[2], encode_operation(Permission::Read));
}

#[test]
fn encode_request_32_byte_id_round_trips() {
    let id = [0xabu8; 32];
    let encoded = encode_request(&id, Permission::Read).unwrap();
    let len = u16::from_le_bytes(encoded[..2].try_into().unwrap()) as usize;
    assert_eq!(len, 32);
    assert_eq!(&encoded[2..2 + 32], &id);
    assert_eq!(encoded[2 + 32], encode_operation(Permission::Read));
}

#[test]
fn encode_request_write_operation_sets_correct_byte() {
    let id = [0x01u8; 16];
    let encoded = encode_request(&id, Permission::Write).unwrap();
    assert_eq!(*encoded.last().unwrap(), encode_operation(Permission::Write));
}

#[test]
fn encode_request_delete_operation_sets_correct_byte() {
    let id = [0x01u8; 16];
    let encoded = encode_request(&id, Permission::Delete).unwrap();
    assert_eq!(*encoded.last().unwrap(), encode_operation(Permission::Delete));
}

#[test]
fn encode_request_rejects_oversized_resource_id() {
    let id = vec![0u8; MAX_RESOURCE_ID_BYTES + 1];
    assert!(encode_request(&id, Permission::Read).is_err());
}

#[test]
fn encode_request_accepts_maximum_size_resource_id() {
    let id = vec![0u8; MAX_RESOURCE_ID_BYTES];
    assert!(encode_request(&id, Permission::Read).is_ok());
}

#[test]
fn operation_bytes_are_distinct() {
    assert_ne!(encode_operation(Permission::Read), encode_operation(Permission::Write));
    assert_ne!(encode_operation(Permission::Write), encode_operation(Permission::Delete));
}

#[test]
fn parse_operation_round_trips() {
    for p in [Permission::Read, Permission::Write, Permission::Delete] {
        assert_eq!(parse_operation(encode_operation(p)).unwrap(), p);
    }
}

#[test]
fn parse_operation_unknown_byte_errors() {
    assert!(parse_operation(0x00).is_err());
    assert!(parse_operation(0xff).is_err());
}

#[test]
fn alpn_is_the_protocol_name() {
    assert_eq!(&ALPN, b"/iroh-rings/2");
}

#[test]
fn requests_have_the_documented_bytes() {
    assert_eq!(encode_request(b"ab", Permission::Read).unwrap(), vec![2, 0, b'a', b'b', 1]);
    assert_eq!(encode_request(b"ab", Permission::Write).unwrap(), vec![2, 0, b'a', b'b', 2]);
    assert_eq!(encode_request(b"ab", Permission::Delete).unwrap(), vec![2, 0, b'a', b'b', 3]);
    let long = vec![7u8; 256];
    let encoded = encode_request(&long, Permission::Read).unwrap();
    assert_eq!(encoded.len(), 259);
    assert_eq!(&encoded[..2], &[0, 1]);
}

#[test]
fn an_oversized_id_is_reported_with_its_length() {
    let id = vec![0u8; 300];
    assert_eq!(encode_request(&id, Permission::Read).unwrap_err(), Error::ResourceIdTooLong(300));
}

#[test]
fn unknown_bytes_are_reported() {
    assert_eq!(parse_operation(0x04).unwrap_err(), Error::UnknownOperationByte(0x04));
    assert_eq!(Status::try_from(0x7f).unwrap_err(), Error::UnknownStatusByte(0x7f));
}

#[test]
fn statuses_round_trip_and_have_names() {
    for status in [Status::Denied, Status::Allowed] {
        assert_eq!(Status::try_from(status.to_byte()).unwrap(), status);
    }
    assert_eq!(Status::Denied.to_byte(), 0x00);
    assert_eq!(Status::Allowed.to_byte(), 0x01);
    assert_eq!(Status::Denied.to_string(), "Denied");
    assert_eq!(Status::Allowed.to_string(), "Allowed");
}
