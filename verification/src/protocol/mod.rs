//! Wire protocol for `/iroh-rings/2`.
//!
//! ```text
//! Request (initiator peer -> gate)
//!  [ 2 B]  u16-le: resource id length (N)
//!  [ N B]  resource id bytes
//!  [ 1 B]  operation: 0x01 = Read, 0x02 = Write, 0x03 = Delete
//!
//! Response (gate -> initiator peer)
//!  [ 1 B]  status: 0x00 = DENIED, 0x01 = ALLOWED
//!  if DENIED: stream closes.
//!  if ALLOWED: the rest of both streams is handed to the transfer, which
//!              defines its own sub-protocol from this point.
//! ```

use vstd::prelude::*;

use crate::error::{Error, ErrorView};
use crate::octets;
use crate::registry::Permission;

pub mod gate;

verus! {

/// ALPN identifier used to negotiate the iroh-rings protocol during the QUIC handshake:
/// the bytes of `/iroh-rings/2`.
pub const RINGS_ALPN: [u8; 13] = [
    0x2f, 0x69, 0x72, 0x6f, 0x68, 0x2d, 0x72, 0x69, 0x6e, 0x67, 0x73, 0x2f, 0x32,
];

/// Maximum number of bytes accepted for a resource id on the wire.
///
/// Enforced before any allocation, so that a length field cannot trigger an
/// unbounded allocation.
pub const MAX_RESOURCE_ID_BYTES: usize = 256;

/// The wire byte of an operation.
pub open spec fn operation_byte(permission: Permission) -> u8 {
    match permission {
        Permission::Read => 0x01,
        Permission::Write => 0x02,
        Permission::Delete => 0x03,
    }
}

/// The bytes of a request.
pub open spec fn request_bytes(id: Seq<u8>, permission: Permission) -> Seq<u8> {
    octets::le_bytes(id.len(), 2) + id + seq![operation_byte(permission)]
}

/// Encodes a resource request for sending to a gate.
///
/// Writes `[u16-le length][resource_id bytes][operation byte]` into a new buffer.
///
/// # Errors
///
/// Returns an error if `resource_id.len()` exceeds [`MAX_RESOURCE_ID_BYTES`].
pub fn encode_request(resource_id: &[u8], permission: Permission) -> (result: Result<Vec<u8>, Error>)
    ensures
        match result {
            Ok(bytes) => {
                &&& resource_id@.len() <= MAX_RESOURCE_ID_BYTES
                &&& bytes@ == request_bytes(resource_id@, permission)
            },
            Err(e) => {
                &&& resource_id@.len() > MAX_RESOURCE_ID_BYTES
                &&& e@ == ErrorView::ResourceIdTooLong(resource_id@.len() as int)
            },
        },
{
    if resource_id.len() > MAX_RESOURCE_ID_BYTES {
        return Err(Error::ResourceIdTooLong(resource_id.len()));
    }
    let mut out: Vec<u8> = Vec::new();
    octets::push_le(&mut out, resource_id.len() as u64, 2);
    octets::append(&mut out, resource_id);
    out.push(encode_operation(permission));
    assert(out@ =~= request_bytes(resource_id@, permission));
    Ok(out)
}

/// Maps a [`Permission`] to its wire byte representation.
pub fn encode_operation(permission: Permission) -> (byte: u8)
    ensures
        byte == operation_byte(permission),
{
    match permission {
        Permission::Read => 0x01,
        Permission::Write => 0x02,
        Permission::Delete => 0x03,
    }
}

/// Parses a wire operation byte into a [`Permission`].
///
/// # Errors
///
/// Returns [`Error::UnknownOperationByte`] if the byte does not map to a known operation.
pub fn parse_operation(byte: u8) -> (result: Result<Permission, Error>)
    ensures
        match result {
            Ok(permission) => byte == operation_byte(permission),
            Err(e) => {
                &&& e@ == ErrorView::UnknownOperationByte(byte)
                &&& forall|permission: Permission| byte != operation_byte(permission)
            },
        },
{
    match byte {
        0x01 => Ok(Permission::Read),
        0x02 => Ok(Permission::Write),
        0x03 => Ok(Permission::Delete),
        _ => Err(Error::UnknownOperationByte(byte)),
    }
}

/// No two operations have the same wire byte.
pub proof fn law_operation_bytes_distinct(a: Permission, b: Permission)
    ensures
        operation_byte(a) == operation_byte(b) <==> a == b,
{
}

/// Gate response byte sent to the initiator after a resource request.
#[non_exhaustive]
#[derive(Debug, Clone, Copy, PartialEq, Eq, Structural)]
pub enum Status {
    /// Access denied; the stream is closed immediately after this byte.
    Denied,
    /// Access granted; the transfer takes over both streams.
    Allowed,
}

/// The wire byte of a status.
pub open spec fn status_byte(status: Status) -> u8 {
    match status {
        Status::Denied => 0x00,
        Status::Allowed => 0x01,
    }
}

impl Status {
    /// The byte that stands for this status on the wire.
    pub fn to_byte(self) -> (byte: u8)
        ensures
            byte == status_byte(self),
    {
        match self {
            Status::Denied => 0x00,
            Status::Allowed => 0x01,
        }
    }

    /// The name of the status, for display.
    pub fn to_string(&self) -> (text: String)
        ensures
            text@ == (match *self {
                Status::Denied => "Denied"@,
                Status::Allowed => "Allowed"@,
            }),
    {
        match self {
            Status::Denied => "Denied".to_string(),
            Status::Allowed => "Allowed".to_string(),
        }
    }
}

impl vstd::std_specs::convert::TryFromSpecImpl<u8> for Status {
    open spec fn obeys_try_from_spec() -> bool {
        true
    }

    open spec fn try_from_spec(b: u8) -> Result<Status, Error> {
        if b == 0x00 {
            Ok(Status::Denied)
        } else if b == 0x01 {
            Ok(Status::Allowed)
        } else {
            Err(Error::UnknownStatusByte(b))
        }
    }
}

impl TryFrom<u8> for Status {
    type Error = Error;

    fn try_from(b: u8) -> (result: Result<Status, Error>) {
        match b {
            0x00 => Ok(Status::Denied),
            0x01 => Ok(Status::Allowed),
            _ => Err(Error::UnknownStatusByte(b)),
        }
    }
}

/// What a request looks like on the wire, byte by byte: the length of the resource id, low byte
/// first, then the id, and last `1` for `Read`, `2` for `Write` or `3` for `Delete`. It is refused if
/// the id has more than 256 bytes.
pub proof fn law_request_on_the_wire(id: &[u8], permission: Permission, result: Result<Vec<u8>, Error>)
    requires
        call_ensures(encode_request, (id, permission), result),
    ensures
        result is Ok <==> id@.len() <= 256,
        result matches Err(e) ==> e == Error::ResourceIdTooLong(id@.len() as usize),
        result matches Ok(bytes) ==> {
            let n = id@.len() as int;
            &&& bytes@.len() == n + 3
            &&& bytes@[0] + 256 * bytes@[1] == n
            &&& forall|i: int| 0 <= i < n ==> #[trigger] bytes@[2 + i] == id@[i]
            &&& bytes@[n + 2] == match permission {
                Permission::Read => 1u8,
                Permission::Write => 2u8,
                Permission::Delete => 3u8,
            }
        },
{
    if id@.len() <= 256 {
        octets::lemma_le_widths();
        octets::lemma_le_round_trip(id@.len(), 2);
        let length = octets::le_bytes(id@.len(), 2);
        octets::law_little_endian(length);
        assert(request_bytes(id@, permission).subrange(0, 2) =~= length);
        assert(request_bytes(id@, permission)[0] == length[0]);
        assert(request_bytes(id@, permission)[1] == length[1]);
    }
}

/// An operation is read back from the byte that it was written as, which is `1`, `2` or `3`; every
/// other byte is refused, and named in the refusal.
pub proof fn law_operations_on_the_wire(
    permission: Permission,
    written: u8,
    back: Result<Permission, Error>,
    byte: u8,
    parsed: Result<Permission, Error>,
)
    requires
        call_ensures(encode_operation, (permission,), written),
        call_ensures(parse_operation, (written,), back),
        call_ensures(parse_operation, (byte,), parsed),
    ensures
        back == Ok::<Permission, Error>(permission),
        written == match permission {
            Permission::Read => 1u8,
            Permission::Write => 2u8,
            Permission::Delete => 3u8,
        },
        parsed == if byte == 1 {
            Ok(Permission::Read)
        } else if byte == 2 {
            Ok(Permission::Write)
        } else if byte == 3 {
            Ok(Permission::Delete)
        } else {
            Err(Error::UnknownOperationByte(byte))
        },
{
    law_operation_bytes_distinct(Permission::Read, permission);
    assert(operation_byte(Permission::Read) == 1);
    assert(operation_byte(Permission::Write) == 2);
    assert(operation_byte(Permission::Delete) == 3);
    if let Ok(p) = parsed {
        match p {
            Permission::Read => {},
            Permission::Write => {},
            Permission::Delete => {},
        }
    }
    if let Ok(p) = back {
        law_operation_bytes_distinct(p, permission);
    }
}

/// A status is read back from the byte that it was written as, `0` for a denial and `1` otherwise;
/// every other byte is refused, and named in the refusal.
pub proof fn law_statuses_on_the_wire(
    status: Status,
    written: u8,
    back: Result<Status, Error>,
    byte: u8,
    parsed: Result<Status, Error>,
)
    requires
        call_ensures(Status::to_byte, (status,), written),
        call_ensures(<Status as TryFrom<u8>>::try_from, (written,), back),
        call_ensures(<Status as TryFrom<u8>>::try_from, (byte,), parsed),
    ensures
        back == Ok::<Status, Error>(status),
        written == match status {
            Status::Denied => 0u8,
            Status::Allowed => 1u8,
        },
        byte == 0 <==> parsed == Ok::<Status, Error>(Status::Denied),
        byte == 1 <==> parsed == Ok::<Status, Error>(Status::Allowed),
        byte > 1 <==> parsed == Err::<Status, Error>(Error::UnknownStatusByte(byte)),
{
}

/// The identifier of the protocol is the bytes of `/iroh-rings/2`, and a resource id has at most 256
/// bytes.
pub proof fn law_protocol_constants()
    ensures
        RINGS_ALPN@ == seq![
            0x2fu8,
            0x69u8,
            0x72u8,
            0x6fu8,
            0x68u8,
            0x2du8,
            0x72u8,
            0x69u8,
            0x6eu8,
            0x67u8,
            0x73u8,
            0x2fu8,
            0x32u8,
        ],
        MAX_RESOURCE_ID_BYTES == 256,
{
}

} // verus!
