//! Peer identities.

use vstd::prelude::*;

use crate::error::Error;
use crate::octets;

verus! {

/// What `iroh::EndpointId::from_bytes` accepts: the encodings of ed25519 curve points.
pub uninterp spec fn encodes_point(bytes: Seq<u8>) -> bool;

/// `iroh::EndpointId::from_bytes` takes 32 bytes for a public key exactly if they encode a
/// point of the curve; that property of the bytes is given a name.
#[verifier::external_body]
fn is_endpoint_id(bytes: &[u8; 32]) -> (yes: bool)
    ensures
        yes == encodes_point(bytes@),
{
    iroh::EndpointId::from_bytes(bytes).is_ok()
}

/// The identity of a peer: the 32 bytes of its public key.
///
/// Peers are authenticated by the transport before the registry sees them,
/// so the bytes are known to be those of a key.
#[derive(Debug, Clone, Copy, PartialEq, Eq, Hash)]
pub struct EndpointId {
    bytes: [u8; 32],
}

impl View for EndpointId {
    type V = Seq<u8>;

    closed spec fn view(&self) -> Seq<u8> {
        self.bytes@
    }
}

impl EndpointId {
    #[verifier::type_invariant]
    spec fn is_key(&self) -> bool {
        encodes_point(self.bytes@)
    }

    /// The identity that `bytes` encode; `None` if they encode none.
    pub fn from_bytes(bytes: &[u8; 32]) -> (id: Option<EndpointId>)
        ensures
            encodes_point(bytes@) <==> id is Some,
            id matches Some(peer) ==> peer@ == bytes@,
    {
        if is_endpoint_id(bytes) {
            Some(EndpointId { bytes: *bytes })
        } else {
            None
        }
    }

    /// The bytes of the public key.
    pub fn as_bytes(&self) -> (bytes: &[u8; 32])
        ensures
            bytes@ == self@,
            encodes_point(self@),
            self@.len() == 32,
    {
        proof {
            use_type_invariant(self);
        }
        &self.bytes
    }

    /// Whether both are the same peer.
    pub fn same(&self, other: &EndpointId) -> (yes: bool)
        ensures
            yes == (self@ == other@),
    {
        octets::bytes_eq(self.bytes.as_slice(), other.bytes.as_slice())
    }
}

/// The identity that bytes read back from storage encode.
///
/// A failure means that the stored bytes are corrupt, not that the caller
/// passed something invalid, so it is an [`Error::Storage`].
pub(crate) fn decode_endpoint_id(bytes: &[u8; 32]) -> (id: Result<EndpointId, Error>)
    ensures
        encodes_point(bytes@) <==> id is Ok,
        id matches Ok(peer) ==> peer@ == bytes@,
        id matches Err(e) ==> e is Storage,
{
    match EndpointId::from_bytes(bytes) {
        Some(peer) => Ok(peer),
        None => Err(Error::Storage("invalid peer id".to_string())),
    }
}

} // verus!
