//! The decisions of the blob transfer.

use iroh_rings::transfers::fs::{
    advance, begin_at, collection_has, open, plan_transfer, range_count, range_data_len, step_at, AccessAction,
    AccessEvent, AccessState, TransferError,
};
use iroh_rings::{EndpointId, InMemoryRegistry, Permission, Registry, Timestamp};

const BLOB: [u8; 32] = [0x01; 32];
const COLLECTION: [u8; 32] = [0xc0; 32];
const SECRET_COLLECTION: [u8; 32] = [0xc1; 32];

fn make_peer() -> EndpointId {
    EndpointId::from_bytes(iroh::SecretKey::generate().public().as_bytes()).unwrap()
}

fn entries(hashes: &[[u8; 32]]) -> Vec<u8> {
    hashes.concat()
}

/// A registry in which the members of one ring may read `COLLECTION`.
fn registry_with_collection() -> (InMemoryRegistry, EndpointId) {
    let mut registry = InMemoryRegistry::new();
    let member = make_peer();
    registry.create_ring("r").unwrap();
    registry.add_peer_to_ring("r", member, None, None).unwrap();
    registry.add_ring_to_resource(COLLECTION, "r", &[Permission::Read]).unwrap();
    (registry, member)
}

/// Runs the access check over a list of tags, reading collections with `content`.
fn check(
    registry: &InMemoryRegistry,
    peer: &EndpointId,
    id: &[u8],
    tags: &[(bool, [u8; 32])],
    content: impl Fn([u8; 32]) -> Option<Vec<u8>>,
) -> bool {
    let now = Timestamp::now();
    let mut tags = tags.iter();
    let (mut state, mut action) = begin_at(registry, peer, id, now);
    loop {
        let event = match action {
            AccessAction::NextTag => match tags.next() {
                Some((collection, hash)) => AccessEvent::Tag { collection: *collection, hash: *hash },
                None => AccessEvent::EndOfTags,
            },
            AccessAction::Fetch(hash) => AccessEvent::Content(content(hash)),
            AccessAction::Decide(verdict) => return verdict,
            AccessAction::AskRegistry(_) => unreachable!(),
        };
        (state, action) = step_at(registry, peer, state, event, now);
    }
}

#[test]
fn a_directly_readable_blob_is_accessible() {
    let (mut registry, member) = registry_with_collection();
    registry.add_ring_to_resource(BLOB, "r", &[Permission::Read]).unwrap();
    assert!(check(&registry, &member, &BLOB, &[], |_| None));
    assert!(!check(&registry, &make_peer(), &BLOB, &[], |_| None));
}

#[test]
fn an_entry_of_a_readable_collection_is_accessible() {
    let (registry, member) = registry_with_collection();
    let tags = [(false, COLLECTION), (true, SECRET_COLLECTION), (true, COLLECTION)];
    let content = |hash| {
        assert_eq!(hash, COLLECTION); // the secret one is never read
        Some(entries(&[[0x02; 32], BLOB]))
    };
    assert!(check(&registry, &member, &BLOB, &tags, content));
    assert!(!check(&registry, &member, &[0x03; 32], &tags, content));
    assert!(!check(&registry, &make_peer(), &BLOB, &tags, |_| unreachable!()));
}

#[test]
fn a_collection_that_cannot_be_read_is_passed_over() {
    let (registry, member) = registry_with_collection();
    assert!(!check(&registry, &member, &BLOB, &[(true, COLLECTION)], |_| None));
    assert!(!check(&registry, &member, &BLOB, &[(true, COLLECTION)], |_| Some(vec![1; 33])));
}

#[test]
fn an_id_that_is_no_hash_is_not_looked_for() {
    let (registry, member) = registry_with_collection();
    assert!(!check(&registry, &member, b"short", &[(true, COLLECTION)], |_| unreachable!()));
    let (state, action) = open(b"short");
    assert_eq!(action, AccessAction::AskRegistry(b"short".to_vec()));
    assert_eq!(
        advance(state, AccessEvent::Readable(false)),
        (AccessState::Closed, AccessAction::Decide(false))
    );
}

#[test]
fn an_access_event_out_of_turn_decides_no() {
    assert_eq!(
        advance(AccessState::Closed, AccessEvent::Readable(true)),
        (AccessState::Closed, AccessAction::Decide(false))
    );
    assert_eq!(
        advance(AccessState::Scanning { target: BLOB }, AccessEvent::Content(Some(entries(&[BLOB])))),
        (AccessState::Closed, AccessAction::Decide(false))
    );
}

#[test]
fn collections_are_whole_hashes() {
    assert!(collection_has(&entries(&[[9; 32], BLOB]), &BLOB));
    assert!(!collection_has(&entries(&[[9; 32]]), &BLOB));
    assert!(!collection_has(&[], &BLOB));
    let mut odd = entries(&[BLOB]);
    odd.push(0);
    assert!(!collection_has(&odd, &BLOB));
    let mut shifted = vec![0u8];
    shifted.extend_from_slice(&BLOB);
    shifted.extend_from_slice(&[0; 31]);
    assert!(!collection_has(&shifted, &BLOB));
}

#[test]
fn range_header_is_little_endian() {
    assert_eq!(range_count(&[0x02, 0x01, 0, 0]), 0x102);
    assert_eq!(range_count(&[0xff; 4]), u32::MAX);
    assert_eq!(range_data_len(0), 0);
    assert_eq!(range_data_len(u32::MAX), 68_719_476_720);
}

#[test]
fn a_plan_sends_what_the_peer_does_not_have() {
    let mut raw = Vec::new();
    for n in [0u64, 4] {
        raw.extend_from_slice(&n.to_le_bytes());
    }
    let plan = plan_transfer(&BLOB, 1, &raw).unwrap();
    assert_eq!(plan.hash, BLOB);
    assert_eq!(plan.missing.ranges(), vec![(4, None)]);
    let all = plan_transfer(&BLOB, 0, &[]).unwrap();
    assert_eq!(all.missing.ranges(), vec![(0, None)]);
}

#[test]
fn a_plan_needs_whole_ranges_and_a_hash() {
    assert_eq!(plan_transfer(&BLOB, 1, &[0; 8]).unwrap_err(), TransferError::RangeDataTruncated(0));
    assert_eq!(plan_transfer(b"short", 1, &[0; 8]).unwrap_err(), TransferError::RangeDataTruncated(0));
    assert_eq!(plan_transfer(b"short", 0, &[]).unwrap_err(), TransferError::ResourceIdLength(5));
}
