//! The decisions of a transfer that streams blobs from a store.
//!
//! ```text
//! peer initiator -> sender  [ 4 B]  u32-le: number of already-have chunk ranges (N)
//!                           [N×16B] N × (start u64-le, end u64-le) chunk numbers
//! sender -> peer initiator  [ 8 B]  u64-le: total blob size
//!                           [rest]  bao-encoded stream for the missing ranges
//! ```
//!
//! The transfer's own access check allows a blob that the peer may read directly, and a blob
//! that is an entry of a tagged collection which the peer may read. It goes through the tags of
//! the store one by one: whoever drives it performs the [`AccessAction`] and reports what came
//! of it as an [`AccessEvent`].

use vstd::prelude::*;

use super::ranges;
use super::ranges::{ChunkRanges, RANGE_ENTRY_BYTES};
use crate::endpoint::EndpointId;
use crate::octets;
use crate::protocol::gate;
use crate::registry::{Permission, Registry};
use crate::time::Timestamp;

verus! {

/// Why a transfer cannot be served.
#[derive(Debug, Clone, Copy, PartialEq, Eq, Structural)]
pub enum TransferError {
    /// The range data ends before the range at this index does.
    RangeDataTruncated(usize),
    /// The resource id is not the hash of a blob: it has this many bytes, and not 32.
    ResourceIdLength(usize),
}

/// What is to be sent: the missing chunks of a blob.
#[derive(Debug, PartialEq, Eq)]
pub struct TransferPlan {
    /// The hash of the blob.
    pub hash: [u8; 32],
    /// The chunks that the peer does not have.
    pub missing: ChunkRanges,
}

/// The number of ranges that the header of the range data announces.
pub fn range_count(header: &[u8; 4]) -> (count: u32)
    ensures
        count == octets::le_value(header@),
{
    let raw = header.as_slice();
    proof {
        octets::lemma_le_value_bounded(header@);
        octets::lemma_le_widths();
        assert(raw@.subrange(0, 4) =~= header@);
    }
    octets::read_le(raw, 0, 4) as u32
}

/// The number of bytes that range data takes.
pub fn range_data_len(count: u32) -> (len: u64)
    ensures
        len == 16 * count,
{
    assert(RANGE_ENTRY_BYTES == 16);
    (RANGE_ENTRY_BYTES as u64) * (count as u64)
}

/// The bytes of a blob's hash; `None` if there are not 32.
fn hash_bytes(id: &[u8]) -> (hash: Option<[u8; 32]>)
    ensures
        hash is Some <==> id@.len() == 32,
        hash matches Some(h) ==> h@ == id@,
{
    if id.len() != 32 {
        return None;
    }
    let mut hash: [u8; 32] = [0u8; 32];
    let mut i: usize = 0;
    while i < 32
        invariant
            i <= 32,
            id@.len() == 32,
            forall|j: int| 0 <= j < i ==> hash@[j] == id@[j],
        decreases 32 - i,
    {
        hash[i] = id[i];
        i = i + 1;
    }
    assert(hash@ =~= id@);
    Some(hash)
}

/// Works out what is to be sent, from the resource id that was asked for and the ranges that the
/// peer says it already has.
///
/// # Errors
///
/// Fails if the range data is incomplete, and otherwise if the resource id is not a hash.
pub fn plan_transfer(resource_id: &[u8], count: u32, range_data: &[u8]) -> (result: Result<
    TransferPlan,
    TransferError,
>)
    ensures
        match result {
            Ok(plan) => {
                &&& 16 * count <= range_data@.len()
                &&& resource_id@.len() == 32
                &&& plan.hash@ == resource_id@
                &&& ranges::sorted(ranges::boundaries(plan.missing))
                &&& forall|chunk: u64| #[trigger]
                    ranges::covers(ranges::boundaries(plan.missing), chunk) <==> !ranges::in_ranges(
                        range_data@,
                        count as int,
                        chunk,
                    )
            },
            Err(TransferError::RangeDataTruncated(index)) => {
                &&& 16 * count > range_data@.len()
                &&& index == range_data@.len() / 16
            },
            Err(TransferError::ResourceIdLength(len)) => {
                &&& 16 * count <= range_data@.len()
                &&& resource_id@.len() != 32
                &&& len == resource_id@.len()
            },
        },
{
    let already_have = match ranges::decode_ranges_wire(count, range_data) {
        Ok(already_have) => already_have,
        Err(e) => return Err(TransferError::RangeDataTruncated(e.index)),
    };
    let missing = ranges::missing_ranges(already_have);
    match hash_bytes(resource_id) {
        Some(hash) => Ok(TransferPlan { hash, missing }),
        None => Err(TransferError::ResourceIdLength(resource_id.len())),
    }
}

/// How far an access check has come.
#[derive(Debug, PartialEq, Eq)]
pub enum AccessState {
    /// The registry is to be asked whether the peer may read the resource itself.
    Direct { id: Vec<u8> },
    /// The next tag of the store is to be looked at.
    Scanning { target: [u8; 32] },
    /// The registry is to be asked whether the peer may read a collection.
    Asking { target: [u8; 32], collection: [u8; 32] },
    /// The entries of a collection are to be read.
    Fetching { target: [u8; 32], collection: [u8; 32] },
    /// The check is over.
    Closed,
}

/// What happened.
#[derive(Debug, PartialEq, Eq)]
pub enum AccessEvent {
    /// Whether the registry lets the peer read.
    Readable(bool),
    /// A tag: whether it is for a collection, and the hash it is for.
    Tag { collection: bool, hash: [u8; 32] },
    /// There are no more tags, or they cannot be listed.
    EndOfTags,
    /// The bytes of a collection, if they can be read.
    Content(Option<Vec<u8>>),
}

/// What is to be done next.
#[derive(Debug, PartialEq, Eq)]
pub enum AccessAction {
    /// Ask the registry whether the peer may read this.
    AskRegistry(Vec<u8>),
    /// Look at the next tag.
    NextTag,
    /// Read the bytes of a collection.
    Fetch([u8; 32]),
    /// The check is over, with this verdict.
    Decide(bool),
}

/// [`AccessState`] with byte sequences.
pub enum AccessStateView {
    Direct { id: Seq<u8> },
    Scanning { target: Seq<u8> },
    Asking { target: Seq<u8>, collection: Seq<u8> },
    Fetching { target: Seq<u8>, collection: Seq<u8> },
    Closed,
}

/// [`AccessEvent`] with byte sequences.
pub enum AccessEventView {
    Readable(bool),
    Tag { collection: bool, hash: Seq<u8> },
    EndOfTags,
    Content(Option<Seq<u8>>),
}

/// [`AccessAction`] with byte sequences.
pub enum AccessActionView {
    AskRegistry(Seq<u8>),
    NextTag,
    Fetch(Seq<u8>),
    Decide(bool),
}

impl View for AccessState {
    type V = AccessStateView;

    open spec fn view(&self) -> AccessStateView {
        match *self {
            AccessState::Direct { id } => AccessStateView::Direct { id: id@ },
            AccessState::Scanning { target } => AccessStateView::Scanning { target: target@ },
            AccessState::Asking { target, collection } => AccessStateView::Asking {
                target: target@,
                collection: collection@,
            },
            AccessState::Fetching { target, collection } => AccessStateView::Fetching {
                target: target@,
                collection: collection@,
            },
            AccessState::Closed => AccessStateView::Closed,
        }
    }
}

impl View for AccessEvent {
    type V = AccessEventView;

    open spec fn view(&self) -> AccessEventView {
        match *self {
            AccessEvent::Readable(yes) => AccessEventView::Readable(yes),
            AccessEvent::Tag { collection, hash } => AccessEventView::Tag { collection, hash: hash@ },
            AccessEvent::EndOfTags => AccessEventView::EndOfTags,
            AccessEvent::Content(Some(bytes)) => AccessEventView::Content(Some(bytes@)),
            AccessEvent::Content(None) => AccessEventView::Content(None),
        }
    }
}

impl View for AccessAction {
    type V = AccessActionView;

    open spec fn view(&self) -> AccessActionView {
        match *self {
            AccessAction::AskRegistry(id) => AccessActionView::AskRegistry(id@),
            AccessAction::NextTag => AccessActionView::NextTag,
            AccessAction::Fetch(hash) => AccessActionView::Fetch(hash@),
            AccessAction::Decide(verdict) => AccessActionView::Decide(verdict),
        }
    }
}

/// Whether bytes are those of a collection that has `target` among its entries: hashes, one
/// after the other.
pub open spec fn has_entry(bytes: Seq<u8>, target: Seq<u8>) -> bool {
    bytes.len() % 32 == 0 && octets::chunks(bytes).contains(target)
}

/// One step of an access check. An event that the state does not wait for ends it with no.
pub open spec fn next(state: AccessStateView, event: AccessEventView) -> (AccessStateView, AccessActionView) {
    match (state, event) {
        (AccessStateView::Direct { id }, AccessEventView::Readable(yes)) => if yes {
            (AccessStateView::Closed, AccessActionView::Decide(true))
        } else if id.len() == 32 {
            (AccessStateView::Scanning { target: id }, AccessActionView::NextTag)
        } else {
            (AccessStateView::Closed, AccessActionView::Decide(false))
        },
        (AccessStateView::Scanning { target }, AccessEventView::Tag { collection, hash }) => if collection {
            (AccessStateView::Asking { target, collection: hash }, AccessActionView::AskRegistry(hash))
        } else {
            (AccessStateView::Scanning { target }, AccessActionView::NextTag)
        },
        (AccessStateView::Asking { target, collection }, AccessEventView::Readable(yes)) => if yes {
            (AccessStateView::Fetching { target, collection }, AccessActionView::Fetch(collection))
        } else {
            (AccessStateView::Scanning { target }, AccessActionView::NextTag)
        },
        (AccessStateView::Fetching { target, .. }, AccessEventView::Content(content)) => {
            if content matches Some(bytes) && has_entry(bytes, target) {
                (AccessStateView::Closed, AccessActionView::Decide(true))
            } else {
                (AccessStateView::Scanning { target }, AccessActionView::NextTag)
            }
        },
        _ => (AccessStateView::Closed, AccessActionView::Decide(false)),
    }
}

/// `HashSeq::try_from` takes bytes for a sequence of hashes if they are whole hashes of 32 bytes
/// each, and iterating it gives those hashes in order.
#[verifier::external_body]
fn hash_seq(bytes: &[u8]) -> (hashes: Option<Vec<[u8; 32]>>)
    ensures
        match hashes {
            Some(list) => bytes@.len() % 32 == 0 && octets::ids_of(list@) == octets::chunks(bytes@),
            None => bytes@.len() % 32 != 0,
        },
{
    let seq = iroh_blobs::hashseq::HashSeq::try_from(bytes::Bytes::copy_from_slice(bytes)).ok()?;
    Some(seq.into_iter().map(|hash| *hash.as_bytes()).collect())
}

/// Whether bytes are those of a collection that has `target` among its entries.
pub fn collection_has(bytes: &[u8], target: &[u8; 32]) -> (yes: bool)
    ensures
        yes == has_entry(bytes@, target@),
{
    let hashes = match hash_seq(bytes) {
        Some(hashes) => hashes,
        None => return false,
    };
    let ghost all = octets::chunks(bytes@);
    let mut i: usize = 0;
    while i < hashes.len()
        invariant
            i <= hashes@.len(),
            bytes@.len() % 32 == 0,
            all == octets::chunks(bytes@),
            octets::ids_of(hashes@) == all,
            forall|j: int| 0 <= j < i ==> all[j] != target@,
        decreases hashes@.len() - i,
    {
        assert(octets::ids_of(hashes@)[i as int] == hashes@[i as int]@);
        if octets::bytes_eq(hashes[i].as_slice(), target.as_slice()) {
            assert(all.contains(target@));
            return true;
        }
        i = i + 1;
    }
    assert(hashes@.len() == octets::ids_of(hashes@).len());
    false
}

/// Begins an access check: the registry is to be asked first.
pub fn open(resource_id: &[u8]) -> (begun: (AccessState, AccessAction))
    ensures
        begun.0@ == (AccessStateView::Direct { id: resource_id@ }),
        begun.1@ == AccessActionView::AskRegistry(resource_id@),
{
    let id = vstd::slice::slice_to_vec(resource_id);
    let asked = vstd::slice::slice_to_vec(resource_id);
    (AccessState::Direct { id }, AccessAction::AskRegistry(asked))
}

/// Takes one step of an access check.
pub fn advance(state: AccessState, event: AccessEvent) -> (after: (AccessState, AccessAction))
    ensures
        (after.0@, after.1@) == next(state@, event@),
{
    match (state, event) {
        (AccessState::Direct { id }, AccessEvent::Readable(yes)) => {
            if yes {
                return (AccessState::Closed, AccessAction::Decide(true));
            }
            match hash_bytes(id.as_slice()) {
                Some(target) => (AccessState::Scanning { target }, AccessAction::NextTag),
                None => (AccessState::Closed, AccessAction::Decide(false)),
            }
        },
        (AccessState::Scanning { target }, AccessEvent::Tag { collection, hash }) => if collection {
            (
                AccessState::Asking { target, collection: hash },
                AccessAction::AskRegistry(vstd::slice::slice_to_vec(hash.as_slice())),
            )
        } else {
            (AccessState::Scanning { target }, AccessAction::NextTag)
        },
        (AccessState::Asking { target, collection }, AccessEvent::Readable(yes)) => if yes {
            (AccessState::Fetching { target, collection }, AccessAction::Fetch(collection))
        } else {
            (AccessState::Scanning { target }, AccessAction::NextTag)
        },
        (AccessState::Fetching { target, .. }, AccessEvent::Content(content)) => {
            match content {
                Some(bytes) => if collection_has(bytes.as_slice(), &target) {
                    return (AccessState::Closed, AccessAction::Decide(true));
                },
                None => {},
            }
            (AccessState::Scanning { target }, AccessAction::NextTag)
        },
        _ => (AccessState::Closed, AccessAction::Decide(false)),
    }
}

/// Whether `after` is what becomes of a step that led to `reached`: that itself, or where the
/// registry is to be asked, the step that follows from an answer. The answer is not yes unless
/// the registry lets `peer` read at `now`, and it is yes then if the registry does not fail;
/// nothing is said of a registry that is not coherent.
pub open spec fn settles<R: Registry>(
    registry: R,
    peer: Seq<u8>,
    reached: (AccessStateView, AccessActionView),
    now: int,
    after: (AccessStateView, AccessActionView),
) -> bool {
    match reached.1 {
        AccessActionView::AskRegistry(id) => {
            let readable = registry.state().allows(peer, id, Permission::Read, now);
            let described = registry.coherent();
            &&& {
                ||| after == next(reached.0, AccessEventView::Readable(true)) && (described ==> readable)
                ||| after == next(reached.0, AccessEventView::Readable(false))
            }
            &&& R::reliable() && described ==> after == next(reached.0, AccessEventView::Readable(readable))
        },
        _ => after == reached,
    }
}

/// Where a step leads to a question for the registry, asks it and takes the step that follows
/// from its answer. A registry that fails lets nobody read.
fn settle<R: Registry>(
    registry: &R,
    peer: &EndpointId,
    reached: (AccessState, AccessAction),
    now: Timestamp,
) -> (after: (AccessState, AccessAction))
    ensures
        settles(*registry, peer@, (reached.0@, reached.1@), now@, (after.0@, after.1@)),
{
    let (state, action) = reached;
    match action {
        AccessAction::AskRegistry(id) => {
            let answer = registry.has_permission_at(peer, &id, Permission::Read, now);
            let yes = gate::permitted(answer);
            advance(state, AccessEvent::Readable(yes))
        },
        other => (state, other),
    }
}

/// Begins the access check of a request that `peer` makes, at the time `now`.
pub fn begin_at<R: Registry>(registry: &R, peer: &EndpointId, resource_id: &[u8], now: Timestamp) -> (after: (
    AccessState,
    AccessAction,
))
    ensures
        settles(
            *registry,
            peer@,
            (
                AccessStateView::Direct { id: resource_id@ },
                AccessActionView::AskRegistry(resource_id@),
            ),
            now@,
            (after.0@, after.1@),
        ),
{
    let begun = open(resource_id);
    settle(registry, peer, begun, now)
}

/// Takes one step of an access check for `peer`, at the time `now`; where the registry is to be
/// asked, asks it and takes the step that follows from its answer.
pub fn step_at<R: Registry>(
    registry: &R,
    peer: &EndpointId,
    state: AccessState,
    event: AccessEvent,
    now: Timestamp,
) -> (after: (AccessState, AccessAction))
    ensures
        settles(*registry, peer@, next(state@, event@), now@, (after.0@, after.1@)),
{
    let reached = advance(state, event);
    settle(registry, peer, reached, now)
}

/// Access is granted only because the peer may read the resource itself, or because the resource
/// is an entry of a collection that was fetched.
pub proof fn law_grant_reasons(state: AccessStateView, event: AccessEventView)
    ensures
        next(state, event).1 == AccessActionView::Decide(true) <==> {
            ||| state is Direct && event == AccessEventView::Readable(true)
            ||| state matches AccessStateView::Fetching { target, .. } && event matches AccessEventView::Content(
                Some(bytes),
            ) && has_entry(bytes, target)
        },
{
}

/// A collection is fetched only if it is tagged as one and the peer may read it.
pub proof fn law_fetch_needs_read(state: AccessStateView, event: AccessEventView)
    ensures
        next(state, event).1 is Fetch ==> {
            &&& state is Asking
            &&& event == AccessEventView::Readable(true)
            &&& next(state, event).1 == AccessActionView::Fetch(state->Asking_collection)
        },
        next(state, event).0 is Asking ==> {
            &&& event matches AccessEventView::Tag { collection, hash }
            &&& collection
            &&& next(state, event).0->Asking_collection == hash
        },
{
}

/// The verdict of a check that goes through `tags`, where `readable` is what the registry
/// answers, and `content` what is read for a collection.
pub open spec fn scan(
    target: Seq<u8>,
    tags: Seq<(bool, Seq<u8>)>,
    readable: spec_fn(Seq<u8>) -> bool,
    content: spec_fn(Seq<u8>) -> Option<Seq<u8>>,
) -> bool
    decreases tags.len(),
{
    let scanning = AccessStateView::Scanning { target };
    if tags.len() == 0 {
        next(scanning, AccessEventView::EndOfTags).1 == AccessActionView::Decide(true)
    } else {
        let rest = tags.drop_first();
        let looked = next(scanning, AccessEventView::Tag { collection: tags[0].0, hash: tags[0].1 });
        match looked.1 {
            AccessActionView::AskRegistry(id) => {
                let asked = next(looked.0, AccessEventView::Readable(readable(id)));
                match asked.1 {
                    AccessActionView::Fetch(hash) => {
                        match next(asked.0, AccessEventView::Content(content(hash))).1 {
                            AccessActionView::Decide(verdict) => verdict,
                            _ => scan(target, rest, readable, content),
                        }
                    },
                    _ => scan(target, rest, readable, content),
                }
            },
            _ => scan(target, rest, readable, content),
        }
    }
}

/// The search grants access to a blob exactly if one of the tags is for a collection that the
/// peer may read and that has the blob among its entries.
pub proof fn law_scan_is_exact(
    target: Seq<u8>,
    tags: Seq<(bool, Seq<u8>)>,
    readable: spec_fn(Seq<u8>) -> bool,
    content: spec_fn(Seq<u8>) -> Option<Seq<u8>>,
)
    ensures
        scan(target, tags, readable, content) <==> exists|i: int| {
            &&& 0 <= i < tags.len()
            &&& (#[trigger] tags[i]).0
            &&& readable(tags[i].1)
            &&& content(tags[i].1) matches Some(bytes)
            &&& has_entry(bytes, target)
        },
    decreases tags.len(),
{
    if tags.len() > 0 {
        let rest = tags.drop_first();
        law_scan_is_exact(target, rest, readable, content);
        if exists|i: int| {
            &&& 0 <= i < rest.len()
            &&& (#[trigger] rest[i]).0
            &&& readable(rest[i].1)
            &&& content(rest[i].1) matches Some(bytes)
            &&& has_entry(bytes, target)
        } {
            let i = choose|i: int| {
                &&& 0 <= i < rest.len()
                &&& (#[trigger] rest[i]).0
                &&& readable(rest[i].1)
                &&& content(rest[i].1) matches Some(bytes)
                &&& has_entry(bytes, target)
            };
            assert(tags[i + 1] == rest[i]);
        }
        if exists|i: int| {
            &&& 1 <= i < tags.len()
            &&& (#[trigger] tags[i]).0
            &&& readable(tags[i].1)
            &&& content(tags[i].1) matches Some(bytes)
            &&& has_entry(bytes, target)
        } {
            let i = choose|i: int| {
                &&& 1 <= i < tags.len()
                &&& (#[trigger] tags[i]).0
                &&& readable(tags[i].1)
                &&& content(tags[i].1) matches Some(bytes)
                &&& has_entry(bytes, target)
            };
            assert(rest[i - 1] == tags[i]);
        }
    }
}

/// A collection has a blob if and only if its bytes are whole hashes and one of them, wherever it
/// stands, is the hash of the blob.
pub proof fn law_collection_entries(bytes: &[u8], target: &[u8; 32], yes: bool)
    requires
        call_ensures(collection_has, (bytes, target), yes),
    ensures
        yes <==> bytes@.len() % 32 == 0 && exists|i: int|
            0 <= i < bytes@.len() / 32 && #[trigger] bytes@.subrange(32 * i, 32 * i + 32) == target@,
        forall|i: int|
            bytes@.len() % 32 == 0 && 0 <= i < bytes@.len() / 32 && #[trigger] bytes@.subrange(32 * i, 32 * i + 32)
                == target@ ==> yes,
{
    let all = octets::chunks(bytes@);
    assert forall|i: int| 0 <= i < bytes@.len() / 32 implies #[trigger] bytes@.subrange(32 * i, 32 * i + 32)
        == all[i] by {}
    if yes {
        let i = choose|i: int| 0 <= i < all.len() && all[i] == target@;
        assert(bytes@.subrange(32 * i, 32 * i + 32) == target@);
    }
    assert forall|i: int|
        bytes@.len() % 32 == 0 && 0 <= i < bytes@.len() / 32 && #[trigger] bytes@.subrange(32 * i, 32 * i + 32)
            == target@ implies yes by {
        assert(all[i] == target@);
    }
}

/// A check begins with the question whether the peer may read the resource itself. A yes grants
/// access. A no ends the check, unless the resource is named by a hash: then the tags of the store
/// are looked at.
pub proof fn law_direct_access(
    id: &[u8],
    yes: bool,
    begun: (AccessState, AccessAction),
    after: (AccessState, AccessAction),
)
    requires
        call_ensures(open, (id,), begun),
        call_ensures(advance, (begun.0, AccessEvent::Readable(yes)), after),
    ensures
        begun.1 matches AccessAction::AskRegistry(asked) && asked@ == id@,
        yes ==> after == (AccessState::Closed, AccessAction::Decide(true)),
        !yes && id@.len() != 32 ==> after == (AccessState::Closed, AccessAction::Decide(false)),
        !yes && id@.len() == 32 ==> after.1 is NextTag && (after.0 matches AccessState::Scanning { target }
            && target@ == id@),
{
}

/// A tag grants access if and only if it is for a collection, the peer may read that collection, and
/// the blob is among its entries. Any other tag is passed over: the next one is looked at, for the
/// same blob.
pub proof fn law_access_by_collection(
    target: [u8; 32],
    collection: bool,
    hash: [u8; 32],
    yes: bool,
    content: Option<Vec<u8>>,
    tagged: (AccessState, AccessAction),
    asked: (AccessState, AccessAction),
    read: (AccessState, AccessAction),
)
    requires
        call_ensures(advance, (AccessState::Scanning { target }, AccessEvent::Tag { collection, hash }), tagged),
        collection ==> call_ensures(advance, (tagged.0, AccessEvent::Readable(yes)), asked),
        collection && yes ==> call_ensures(advance, (asked.0, AccessEvent::Content(content)), read),
    ensures
        !collection ==> tagged.0@ == (AccessStateView::Scanning { target: target@ }) && tagged.1 is NextTag,
        collection ==> (tagged.1 matches AccessAction::AskRegistry(id) && id@ == hash@),
        collection && !yes ==> asked.0@ == (AccessStateView::Scanning { target: target@ }) && asked.1 is NextTag,
        collection && yes ==> (asked.1 matches AccessAction::Fetch(wanted) && wanted@ == hash@),
        collection && yes ==> {
            let found = content matches Some(bytes) && bytes@.len() % 32 == 0 && exists|i: int|
                0 <= i < bytes@.len() / 32 && #[trigger] bytes@.subrange(32 * i, 32 * i + 32) == target@;
            if found {
                read == (AccessState::Closed, AccessAction::Decide(true))
            } else {
                read.0@ == (AccessStateView::Scanning { target: target@ }) && read.1 is NextTag
            }
        },
{
    if let Some(bytes) = content {
        law_entries(bytes@, target@);
    }
}

/// Which bytes have an entry: whole hashes, one of which is that entry.
pub proof fn law_entries(bytes: Seq<u8>, target: Seq<u8>)
    ensures
        has_entry(bytes, target) <==> bytes.len() % 32 == 0 && exists|i: int|
            0 <= i < bytes.len() / 32 && #[trigger] bytes.subrange(32 * i, 32 * i + 32) == target,
{
    let all = octets::chunks(bytes);
    assert forall|i: int| 0 <= i < bytes.len() / 32 implies #[trigger] bytes.subrange(32 * i, 32 * i + 32) == all[i] by {}
    if has_entry(bytes, target) {
        let i = choose|i: int| 0 <= i < all.len() && all[i] == target;
        assert(bytes.subrange(32 * i, 32 * i + 32) == target);
    }
    if bytes.len() % 32 == 0 && exists|i: int|
        0 <= i < bytes.len() / 32 && #[trigger] bytes.subrange(32 * i, 32 * i + 32) == target {
        let i = choose|i: int|
            0 <= i < bytes.len() / 32 && #[trigger] bytes.subrange(32 * i, 32 * i + 32) == target;
        assert(all[i] == target);
    }
}

/// Whatever nobody waits for ends a check with a no: the end of the tags does, an answer that was not
/// asked for, and every event after the end.
pub proof fn law_other_events_deny(state: AccessState, event: AccessEvent, after: (AccessState, AccessAction))
    requires
        call_ensures(advance, (state, event), after),
        match event {
            AccessEvent::Readable(_) => state !is Direct && state !is Asking,
            AccessEvent::Tag { .. } => state !is Scanning,
            AccessEvent::EndOfTags => true,
            AccessEvent::Content(_) => state !is Fetching,
        },
    ensures
        after == (AccessState::Closed, AccessAction::Decide(false)),
{
}

/// The check of a request is decided at once for a peer who may read the resource; a coherent
/// registry that does not let it read never grants access at the beginning.
pub proof fn law_beginning<R: Registry>(
    registry: &R,
    peer: &EndpointId,
    id: &[u8],
    now: Timestamp,
    after: (AccessState, AccessAction),
)
    requires
        registry.coherent(),
        call_ensures(begin_at::<R>, (registry, peer, id, now), after),
    ensures
        ({
            let readable = registry.state().allows(peer@, id@, Permission::Read, now@);
            &&& after.1 == AccessAction::Decide(true) ==> readable
            &&& R::reliable() && readable ==> after == (AccessState::Closed, AccessAction::Decide(true))
            &&& after.1 != AccessAction::Decide(true) && id@.len() != 32 ==> after == (
                AccessState::Closed,
                AccessAction::Decide(false),
            )
            &&& after.1 != AccessAction::Decide(true) && id@.len() == 32 ==> after.1 is NextTag && after.0@ == (
            AccessStateView::Scanning { target: id@ })
        }),
{
}

/// At a tag for a collection the registry is asked about that collection: its bytes are read only if
/// a coherent registry lets the peer read it, and always then if it does not fail; otherwise the
/// next tag is looked at.
pub proof fn law_collections_are_asked_for<R: Registry>(
    registry: &R,
    peer: &EndpointId,
    target: [u8; 32],
    hash: [u8; 32],
    now: Timestamp,
    after: (AccessState, AccessAction),
)
    requires
        registry.coherent(),
        call_ensures(
            step_at::<R>,
            (registry, peer, AccessState::Scanning { target }, AccessEvent::Tag { collection: true, hash }, now),
            after,
        ),
    ensures
        ({
            let readable = registry.state().allows(peer@, hash@, Permission::Read, now@);
            &&& after.1 is Fetch || after.1 is NextTag
            &&& after.1 matches AccessAction::Fetch(wanted) ==> readable && wanted@ == hash@ && after.0@ == (
            AccessStateView::Fetching { target: target@, collection: hash@ })
            &&& after.1 is NextTag ==> after.0@ == (AccessStateView::Scanning { target: target@ })
            &&& R::reliable() && readable ==> after.1 is Fetch
        }),
{
}

/// Where no question for the registry comes up, a step with a registry is the step without one.
pub proof fn law_other_steps<R: Registry>(
    registry: &R,
    peer: &EndpointId,
    state: AccessState,
    event: AccessEvent,
    now: Timestamp,
    plain: (AccessState, AccessAction),
    after: (AccessState, AccessAction),
)
    requires
        !(state is Scanning && event matches AccessEvent::Tag { collection: true, .. }),
        call_ensures(advance, (state, event), plain),
        call_ensures(step_at::<R>, (registry, peer, state, event, now), after),
    ensures
        after.0@ == plain.0@,
        after.1@ == plain.1@,
{
}

/// The header gives the number of ranges, low byte first, and each range takes sixteen bytes.
pub proof fn law_range_header(header: &[u8; 4], count: u32, len: u64)
    requires
        call_ensures(range_count, (header,), count),
        call_ensures(range_data_len, (count,), len),
    ensures
        count == header@[0] + 0x100 * header@[1] + 0x1_0000 * header@[2] + 0x100_0000 * header@[3],
        len == 16 * count,
{
    octets::law_little_endian(header@);
}

/// A plan is made for exactly the complete requests for a blob, and sends a chunk if and only if no
/// range of the range data holds it. What is incomplete is refused at the first range that is cut
/// off, and otherwise an id that is no hash by its length.
pub proof fn law_plans(
    id: &[u8],
    count: u32,
    data: &[u8],
    result: Result<TransferPlan, TransferError>,
    chunk: u64,
)
    requires
        call_ensures(plan_transfer, (id, count, data), result),
    ensures
        result is Ok <==> 16 * count <= data@.len() && id@.len() == 32,
        16 * count > data@.len() ==> result == Err::<TransferPlan, TransferError>(
            TransferError::RangeDataTruncated((data@.len() / 16) as usize),
        ),
        16 * count <= data@.len() && id@.len() != 32 ==> result == Err::<TransferPlan, TransferError>(
            TransferError::ResourceIdLength(id@.len() as usize),
        ),
        result matches Ok(plan) ==> {
            &&& plan.hash@ == id@
            &&& ranges::covers(ranges::boundaries(plan.missing), chunk) <==> forall|i: int|
                0 <= i < count ==> !(octets::le_value(#[trigger] data@.subrange(16 * i, 16 * i + 8)) <= chunk
                    < octets::le_value(data@.subrange(16 * i + 8, 16 * i + 16)))
        },
{
    ranges::law_in_ranges(data@, count as int, chunk);
}

} // verus!
