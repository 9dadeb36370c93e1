//! Access control on requests: ring membership and the transfer's own check are both required.

use iroh_rings::protocol::gate::{advance, open, permitted, GateAction, GateEvent, GateState};
use iroh_rings::protocol::{encode_request, Status};
use iroh_rings::{EndpointId, Error, InMemoryRegistry, Permission, Registry, RingGate};

const RESOURCE: &[u8] = b"gate-test-resource";

fn make_peer() -> EndpointId {
    EndpointId::from_bytes(iroh::SecretKey::generate().public().as_bytes()).unwrap()
}

/// A gate with one ring member registered on `RESOURCE`; the transfer is its verdict.
fn start_gate(can_access: bool) -> (RingGate<InMemoryRegistry, bool>, EndpointId) {
    let member = make_peer();
    let mut registry = InMemoryRegistry::new();
    registry.create_ring("members").unwrap();
    registry
        .add_ring_to_resource(RESOURCE.to_vec(), "members", &[Permission::Read])
        .unwrap();
    registry.add_peer_to_ring("members", member, None, None).unwrap();
    (RingGate::new(registry, can_access), member)
}

/// Hands over the bytes of a request as they are asked for, and returns the status of the answer,
/// and what follows.
fn fetch(gate: &RingGate<InMemoryRegistry, bool>, peer: &EndpointId, request: &[u8]) -> (Option<Status>, GateState) {
    let mut rest = request;
    let (mut state, mut action) = open();
    loop {
        let event = match &action {
            GateAction::Read(n) => {
                let (head, tail) = rest.split_at(*n);
                rest = tail;
                GateEvent::Received(head.to_vec())
            }
            GateAction::AskTransfer => GateEvent::Accessible(*gate.transfer()),
            other => return (other.status(), state),
        };
        (state, action) = gate.step(peer, state, event);
    }
}

#[test]
fn member_with_can_access_true_is_allowed() {
    let (gate, member) = start_gate(true);
    let request = encode_request(RESOURCE, Permission::Read).unwrap();
    assert_eq!(fetch(&gate, &member, &request).0, Some(Status::Allowed));
}

#[test]
fn member_with_can_access_false_is_denied() {
    let (gate, member) = start_gate(false);
    let request = encode_request(RESOURCE, Permission::Read).unwrap();
    assert_eq!(fetch(&gate, &member, &request).0, Some(Status::Denied));
}

#[test]
fn stranger_with_can_access_true_is_denied() {
    let (gate, _) = start_gate(true);
    let stranger = make_peer();
    let request = encode_request(RESOURCE, Permission::Read).unwrap();
    assert_eq!(fetch(&gate, &stranger, &request).0, Some(Status::Denied));
}

#[test]
fn stranger_with_can_access_false_is_denied() {
    let (gate, _) = start_gate(false);
    let stranger = make_peer();
    let request = encode_request(RESOURCE, Permission::Read).unwrap();
    assert_eq!(fetch(&gate, &stranger, &request).0, Some(Status::Denied));
}

#[test]
fn the_requested_permission_is_the_one_checked() {
    let (gate, member) = start_gate(true);
    for permission in [Permission::Write, Permission::Delete] {
        let request = encode_request(RESOURCE, permission).unwrap();
        let (status, state) = fetch(&gate, &member, &request);
        assert_eq!(status, Some(Status::Denied));
        assert_eq!(state, GateState::Closed);
    }
    let (_, state) = fetch(&gate, &member, &encode_request(RESOURCE, Permission::Read).unwrap());
    assert_eq!(
        state,
        GateState::Streaming { id: RESOURCE.to_vec(), permission: Permission::Read }
    );
}

#[test]
fn another_resource_is_denied() {
    let (gate, member) = start_gate(true);
    let request = encode_request(b"another", Permission::Read).unwrap();
    assert_eq!(fetch(&gate, &member, &request).0, Some(Status::Denied));
}

#[test]
fn an_oversized_length_field_fails_before_the_id_is_read() {
    let (state, action) = open();
    assert_eq!(action, GateAction::Read(2));
    let (state, action) = advance(state, GateEvent::Received(vec![0x01, 0x01]));
    assert_eq!(action, GateAction::Fail(Error::ResourceIdTooLong(257)));
    assert_eq!(state, GateState::Closed);
    let (_, action) = advance(GateState::AwaitLength, GateEvent::Received(vec![0x00, 0x01]));
    assert_eq!(action, GateAction::Read(256));
}

#[test]
fn an_unknown_operation_fails() {
    let state = GateState::AwaitOperation { id: vec![1, 2] };
    let (state, action) = advance(state, GateEvent::Received(vec![0x09]));
    assert_eq!(action, GateAction::Fail(Error::UnknownOperationByte(0x09)));
    assert_eq!(state, GateState::Closed);
}

#[test]
fn an_empty_resource_id_is_a_resource_id() {
    let (state, _) = open();
    let (state, action) = advance(state, GateEvent::Received(vec![0, 0]));
    assert_eq!(action, GateAction::Read(0));
    let (state, action) = advance(state, GateEvent::Received(vec![]));
    assert_eq!(action, GateAction::Read(1));
    let (state, action) = advance(state, GateEvent::Received(vec![2]));
    assert_eq!(action, GateAction::AskRegistry);
    assert_eq!(state, GateState::AwaitRegistry { id: vec![], permission: Permission::Write });
}

#[test]
fn a_closed_request_stays_closed() {
    for event in [
        GateEvent::Received(vec![1, 0]),
        GateEvent::Permitted(true),
        GateEvent::Accessible(true),
        GateEvent::Transferred(true),
    ] {
        let (state, action) = advance(GateState::Closed, event);
        assert_eq!(state, GateState::Closed);
        assert_eq!(action, GateAction::Abort);
        assert_eq!(action.status(), None);
    }
}

#[test]
fn an_event_out_of_turn_drops_the_stream() {
    let (state, action) = advance(GateState::AwaitLength, GateEvent::Permitted(true));
    assert_eq!((state, action), (GateState::Closed, GateAction::Abort));
    let (state, action) = advance(GateState::AwaitLength, GateEvent::Received(vec![1]));
    assert_eq!((state, action), (GateState::Closed, GateAction::Abort));
}

#[test]
fn a_transfer_that_succeeds_finishes_the_stream() {
    let streaming = || GateState::Streaming { id: vec![1], permission: Permission::Read };
    assert_eq!(
        advance(streaming(), GateEvent::Transferred(true)),
        (GateState::Closed, GateAction::Finish)
    );
    assert_eq!(
        advance(streaming(), GateEvent::Transferred(false)),
        (GateState::Closed, GateAction::Abort)
    );
}

#[test]
fn a_registry_that_fails_grants_nothing() {
    assert!(permitted(Ok(true)));
    assert!(!permitted(Ok(false)));
    assert!(!permitted(Err(Error::Storage("gone".to_string()))));
}

#[test]
fn a_gate_gives_back_what_it_was_made_of() {
    let (gate, _) = start_gate(true);
    assert!(*gate.transfer());
    assert_eq!(gate.registry().list_rings().unwrap().len(), 2);
}
