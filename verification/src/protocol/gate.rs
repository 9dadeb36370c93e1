//! [`RingGate`]: ring-based access control on every request.
//!
//! A request is handled as a sequence of steps. [`RingGate`] asks for bytes of the request,
//! consults the registry, asks the transfer for its own verdict, and then either denies the
//! request or hands the streams over. [`advance`] takes one step; [`RingGate::step`] takes it
//! together with the consultation of the registry. Whoever drives it performs the
//! [`GateAction`] and reports what came of it as a [`GateEvent`].
//!
//! Both checks must pass: a request reaches the transfer only if the registry grants the
//! permission and the transfer's own check says yes.

use vstd::prelude::*;

use crate::endpoint::EndpointId;
use crate::error::{Error, ErrorView};
use crate::octets;
use crate::protocol;
use crate::protocol::{Status, MAX_RESOURCE_ID_BYTES};
use crate::registry::{Permission, Registry};
use crate::time;
use crate::time::Timestamp;

verus! {

/// How far a request has come.
#[derive(Debug, PartialEq, Eq)]
pub enum GateState {
    /// The length of the resource id is to be read.
    AwaitLength,
    /// The resource id is to be read.
    AwaitId { len: usize },
    /// The operation byte is to be read.
    AwaitOperation { id: Vec<u8> },
    /// The registry is to be consulted.
    AwaitRegistry { id: Vec<u8>, permission: Permission },
    /// The transfer is to be asked for its verdict.
    AwaitTransfer { id: Vec<u8>, permission: Permission },
    /// Access was granted; the transfer has the streams.
    Streaming { id: Vec<u8>, permission: Permission },
    /// The request is over.
    Closed,
}

/// What happened.
#[derive(Debug, PartialEq, Eq)]
pub enum GateEvent {
    /// The bytes that were asked for have arrived.
    Received(Vec<u8>),
    /// Whether the registry grants the requested permission.
    Permitted(bool),
    /// Whether the transfer's own check allows the request.
    Accessible(bool),
    /// The transfer is over; whether it succeeded.
    Transferred(bool),
}

/// What is to be done next.
#[derive(Debug, PartialEq, Eq)]
pub enum GateAction {
    /// Read exactly this many bytes from the initiator.
    Read(usize),
    /// Consult the registry.
    AskRegistry,
    /// Ask the transfer for its verdict.
    AskTransfer,
    /// Send `DENIED` and close the stream.
    Deny,
    /// Send `ALLOWED` and hand both streams to the transfer.
    Transfer,
    /// Finish the stream: the transfer is done.
    Finish,
    /// Drop the stream without a word.
    Abort,
    /// Drop the stream and report the error.
    Fail(Error),
}

/// [`GateState`] with the resource id as a byte sequence.
pub enum GateStateView {
    AwaitLength,
    AwaitId { len: nat },
    AwaitOperation { id: Seq<u8> },
    AwaitRegistry { id: Seq<u8>, permission: Permission },
    AwaitTransfer { id: Seq<u8>, permission: Permission },
    Streaming { id: Seq<u8>, permission: Permission },
    Closed,
}

/// [`GateEvent`] with what was received as a byte sequence.
pub enum GateEventView {
    Received(Seq<u8>),
    Permitted(bool),
    Accessible(bool),
    Transferred(bool),
}

/// [`GateAction`] with the error as [`ErrorView`].
pub enum GateActionView {
    Read(nat),
    AskRegistry,
    AskTransfer,
    Deny,
    Transfer,
    Finish,
    Abort,
    Fail(ErrorView),
}

impl View for GateState {
    type V = GateStateView;

    open spec fn view(&self) -> GateStateView {
        match *self {
            GateState::AwaitLength => GateStateView::AwaitLength,
            GateState::AwaitId { len } => GateStateView::AwaitId { len: len as nat },
            GateState::AwaitOperation { id } => GateStateView::AwaitOperation { id: id@ },
            GateState::AwaitRegistry { id, permission } => GateStateView::AwaitRegistry { id: id@, permission },
            GateState::AwaitTransfer { id, permission } => GateStateView::AwaitTransfer { id: id@, permission },
            GateState::Streaming { id, permission } => GateStateView::Streaming { id: id@, permission },
            GateState::Closed => GateStateView::Closed,
        }
    }
}

impl View for GateEvent {
    type V = GateEventView;

    open spec fn view(&self) -> GateEventView {
        match *self {
            GateEvent::Received(bytes) => GateEventView::Received(bytes@),
            GateEvent::Permitted(yes) => GateEventView::Permitted(yes),
            GateEvent::Accessible(yes) => GateEventView::Accessible(yes),
            GateEvent::Transferred(yes) => GateEventView::Transferred(yes),
        }
    }
}

impl View for GateAction {
    type V = GateActionView;

    open spec fn view(&self) -> GateActionView {
        match *self {
            GateAction::Read(len) => GateActionView::Read(len as nat),
            GateAction::AskRegistry => GateActionView::AskRegistry,
            GateAction::AskTransfer => GateActionView::AskTransfer,
            GateAction::Deny => GateActionView::Deny,
            GateAction::Transfer => GateActionView::Transfer,
            GateAction::Finish => GateActionView::Finish,
            GateAction::Abort => GateActionView::Abort,
            GateAction::Fail(error) => GateActionView::Fail(error@),
        }
    }
}

impl GateAction {
    /// The status that is sent with this action, if one is.
    pub fn status(&self) -> (status: Option<Status>)
        ensures
            status == (match *self {
                GateAction::Deny => Some(Status::Denied),
                GateAction::Transfer => Some(Status::Allowed),
                _ => None,
            }),
    {
        match self {
            GateAction::Deny => Some(Status::Denied),
            GateAction::Transfer => Some(Status::Allowed),
            _ => None,
        }
    }
}

/// How a request begins.
pub open spec fn opening() -> (GateStateView, GateActionView) {
    (GateStateView::AwaitLength, GateActionView::Read(2))
}

/// The operation that a wire byte stands for.
pub open spec fn operation_of(byte: u8) -> Option<Permission> {
    if byte == protocol::operation_byte(Permission::Read) {
        Some(Permission::Read)
    } else if byte == protocol::operation_byte(Permission::Write) {
        Some(Permission::Write)
    } else if byte == protocol::operation_byte(Permission::Delete) {
        Some(Permission::Delete)
    } else {
        None
    }
}

/// One step of a request. An event that the state does not wait for drops the stream.
pub open spec fn next(state: GateStateView, event: GateEventView) -> (GateStateView, GateActionView) {
    match (state, event) {
        (GateStateView::AwaitLength, GateEventView::Received(bytes)) if bytes.len() == 2 => {
            let len = octets::le_value(bytes);
            if len > MAX_RESOURCE_ID_BYTES {
                (
                    GateStateView::Closed,
                    GateActionView::Fail(ErrorView::ResourceIdTooLong(len as int)),
                )
            } else {
                (GateStateView::AwaitId { len }, GateActionView::Read(len))
            }
        },
        (GateStateView::AwaitId { len }, GateEventView::Received(id)) if id.len() == len => {
            (GateStateView::AwaitOperation { id }, GateActionView::Read(1))
        },
        (GateStateView::AwaitOperation { id }, GateEventView::Received(bytes)) if bytes.len() == 1 => {
            match operation_of(bytes[0]) {
                Some(permission) => (
                    GateStateView::AwaitRegistry { id, permission },
                    GateActionView::AskRegistry,
                ),
                None => (
                    GateStateView::Closed,
                    GateActionView::Fail(ErrorView::UnknownOperationByte(bytes[0])),
                ),
            }
        },
        (GateStateView::AwaitRegistry { id, permission }, GateEventView::Permitted(yes)) => if yes {
            (GateStateView::AwaitTransfer { id, permission }, GateActionView::AskTransfer)
        } else {
            (GateStateView::Closed, GateActionView::Deny)
        },
        (GateStateView::AwaitTransfer { id, permission }, GateEventView::Accessible(yes)) => if yes {
            (GateStateView::Streaming { id, permission }, GateActionView::Transfer)
        } else {
            (GateStateView::Closed, GateActionView::Deny)
        },
        (GateStateView::Streaming { .. }, GateEventView::Transferred(yes)) => if yes {
            (GateStateView::Closed, GateActionView::Finish)
        } else {
            (GateStateView::Closed, GateActionView::Abort)
        },
        _ => (GateStateView::Closed, GateActionView::Abort),
    }
}

/// Where a request stands after `events`, and what is to be done then.
pub open spec fn run(events: Seq<GateEventView>) -> (GateStateView, GateActionView)
    decreases events.len(),
{
    if events.len() == 0 {
        opening()
    } else {
        next(run(events.drop_last()).0, events.last())
    }
}

/// Begins a request: the length of the resource id is to be read first.
pub fn open() -> (begun: (GateState, GateAction))
    ensures
        (begun.0@, begun.1@) == opening(),
{
    (GateState::AwaitLength, GateAction::Read(2))
}

/// Takes one step of a request.
pub fn advance(state: GateState, event: GateEvent) -> (after: (GateState, GateAction))
    ensures
        (after.0@, after.1@) == next(state@, event@),
{
    match (state, event) {
        (GateState::AwaitLength, GateEvent::Received(bytes)) => {
            if bytes.len() != 2 {
                return (GateState::Closed, GateAction::Abort);
            }
            let len = octets::read_le(bytes.as_slice(), 0, 2) as usize;
            proof {
                assert(bytes@.subrange(0, 2) =~= bytes@);
                octets::lemma_le_value_bounded(bytes@);
                octets::lemma_le_widths();
            }
            if len > MAX_RESOURCE_ID_BYTES {
                (GateState::Closed, GateAction::Fail(Error::ResourceIdTooLong(len)))
            } else {
                (GateState::AwaitId { len }, GateAction::Read(len))
            }
        },
        (GateState::AwaitId { len }, GateEvent::Received(id)) => {
            if id.len() != len {
                return (GateState::Closed, GateAction::Abort);
            }
            (GateState::AwaitOperation { id }, GateAction::Read(1))
        },
        (GateState::AwaitOperation { id }, GateEvent::Received(bytes)) => {
            if bytes.len() != 1 {
                return (GateState::Closed, GateAction::Abort);
            }
            match protocol::parse_operation(bytes[0]) {
                Ok(permission) => (GateState::AwaitRegistry { id, permission }, GateAction::AskRegistry),
                Err(error) => {
                    assert(bytes@[0] != protocol::operation_byte(Permission::Read));
                    assert(bytes@[0] != protocol::operation_byte(Permission::Write));
                    assert(bytes@[0] != protocol::operation_byte(Permission::Delete));
                    (GateState::Closed, GateAction::Fail(error))
                },
            }
        },
        (GateState::AwaitRegistry { id, permission }, GateEvent::Permitted(yes)) => if yes {
            (GateState::AwaitTransfer { id, permission }, GateAction::AskTransfer)
        } else {
            (GateState::Closed, GateAction::Deny)
        },
        (GateState::AwaitTransfer { id, permission }, GateEvent::Accessible(yes)) => if yes {
            (GateState::Streaming { id, permission }, GateAction::Transfer)
        } else {
            (GateState::Closed, GateAction::Deny)
        },
        (GateState::Streaming { .. }, GateEvent::Transferred(yes)) => if yes {
            (GateState::Closed, GateAction::Finish)
        } else {
            (GateState::Closed, GateAction::Abort)
        },
        _ => (GateState::Closed, GateAction::Abort),
    }
}

/// What the registry's answer means for a request: a registry that fails grants nothing.
pub fn permitted(answer: Result<bool, Error>) -> (yes: bool)
    ensures
        yes == (answer == Ok::<bool, Error>(true)),
{
    match answer {
        Ok(yes) => yes,
        Err(_) => false,
    }
}

/// A gate: a registry that says who may do what, and a transfer that serves whoever may.
pub struct RingGate<R, T> {
    registry: R,
    transfer: T,
}

impl<R, T> RingGate<R, T> {
    /// The registry.
    pub closed spec fn spec_registry(&self) -> R {
        self.registry
    }

    /// The transfer.
    pub closed spec fn spec_transfer(&self) -> T {
        self.transfer
    }
}

impl<R: Clone, T: Clone> Clone for RingGate<R, T> {
    fn clone(&self) -> (copy: RingGate<R, T>)
        ensures
            cloned::<R>(self.spec_registry(), copy.spec_registry()),
            cloned::<T>(self.spec_transfer(), copy.spec_transfer()),
    {
        RingGate { registry: self.registry.clone(), transfer: self.transfer.clone() }
    }
}

impl<R, T> RingGate<R, T> {
    /// Creates a gate that consults `registry` and hands granted requests to `transfer`.
    pub fn new(registry: R, transfer: T) -> (gate: RingGate<R, T>)
        ensures
            gate.spec_registry() == registry,
            gate.spec_transfer() == transfer,
    {
        RingGate { registry, transfer }
    }

    /// The registry that is consulted.
    pub fn registry(&self) -> (registry: &R)
        ensures
            *registry == self.spec_registry(),
    {
        &self.registry
    }

    /// The transfer that granted requests are handed to.
    pub fn transfer(&self) -> (transfer: &T)
        ensures
            *transfer == self.spec_transfer(),
    {
        &self.transfer
    }
}

/// Whether `after` is what becomes of a request by `peer` at `now` in one step: the step
/// itself, or where that leads to a consultation of the registry, the step that follows from
/// an answer. The answer is not yes unless the registry grants the permission, and it is yes
/// then if the registry does not fail; nothing is said of a registry that is not coherent.
pub open spec fn settles<R: Registry>(
    registry: R,
    peer: Seq<u8>,
    state: GateStateView,
    event: GateEventView,
    now: int,
    after: (GateStateView, GateActionView),
) -> bool {
    match next(state, event) {
        (GateStateView::AwaitRegistry { id, permission }, _) => {
            let asked = GateStateView::AwaitRegistry { id, permission };
            let granted = registry.state().allows(peer, id, permission, now);
            let described = registry.coherent();
            &&& {
                ||| after == next(asked, GateEventView::Permitted(true)) && (described ==> granted)
                ||| after == next(asked, GateEventView::Permitted(false))
            }
            &&& R::reliable() && described ==> after == next(asked, GateEventView::Permitted(granted))
        },
        settled => after == settled,
    }
}

/// Takes one step of a request that `peer` makes, at the time `now`; where `registry` is to be
/// consulted, consults it and takes the step that follows from its answer.
///
/// A registry that fails grants nothing.
pub fn step_at<R: Registry>(
    registry: &R,
    peer: &EndpointId,
    state: GateState,
    event: GateEvent,
    now: Timestamp,
) -> (after: (GateState, GateAction))
    ensures
        settles(*registry, peer@, state@, event@, now@, (after.0@, after.1@)),
{
    let (reached, action) = advance(state, event);
    match reached {
        GateState::AwaitRegistry { id, permission } => {
            let answer = registry.has_permission_at(peer, &id, permission, now);
            let yes = permitted(answer);
            advance(GateState::AwaitRegistry { id, permission }, GateEvent::Permitted(yes))
        },
        other => (other, action),
    }
}

impl<R: Registry, T> RingGate<R, T> {
    /// Takes one step of a request that `peer` makes, at the time `now`; where the registry is
    /// to be consulted, consults it and takes the step that follows from its answer.
    ///
    /// A registry that fails grants nothing.
    pub fn step_at(&self, peer: &EndpointId, state: GateState, event: GateEvent, now: Timestamp) -> (after: (
        GateState,
        GateAction,
    ))
        ensures
            settles(self.spec_registry(), peer@, state@, event@, now@, (after.0@, after.1@)),
    {
        step_at(&self.registry, peer, state, event, now)
    }

    /// Takes one step of a request that `peer` makes, now.
    pub fn step(&self, peer: &EndpointId, state: GateState, event: GateEvent) -> (after: (GateState, GateAction))
        ensures
            exists|now: Timestamp| #[trigger]
                call_ensures(Timestamp::now, (), now) && time::representable(now@) && settles(
                    self.spec_registry(),
                    peer@,
                    state@,
                    event@,
                    now@,
                    (after.0@, after.1@),
                ),
    {
        let now = Timestamp::now();
        self.step_at(peer, state, event, now)
    }
}

/// The events that lead to a state in which the request is not over.
pub open spec fn path_to(state: GateStateView) -> Seq<GateEventView> {
    match state {
        GateStateView::AwaitLength => seq![],
        GateStateView::AwaitId { len } => seq![GateEventView::Received(octets::le_bytes(len, 2))],
        GateStateView::AwaitOperation { id } => {
            path_to_id(id)
        },
        GateStateView::AwaitRegistry { id, permission } => path_to_operation(id, permission),
        GateStateView::AwaitTransfer { id, permission } => path_to_operation(id, permission).push(
            GateEventView::Permitted(true),
        ),
        GateStateView::Streaming { id, permission } => path_to_operation(id, permission).push(
            GateEventView::Permitted(true),
        ).push(GateEventView::Accessible(true)),
        GateStateView::Closed => seq![],
    }
}

/// The length and the resource id have arrived.
pub open spec fn path_to_id(id: Seq<u8>) -> Seq<GateEventView> {
    seq![GateEventView::Received(octets::le_bytes(id.len(), 2)), GateEventView::Received(id)]
}

/// The length, the resource id and the operation byte have arrived.
pub open spec fn path_to_operation(id: Seq<u8>, permission: Permission) -> Seq<GateEventView> {
    path_to_id(id).push(GateEventView::Received(seq![protocol::operation_byte(permission)]))
}

/// The length that a state holds, or the length of its resource id, does not exceed the maximum.
pub open spec fn bounded(state: GateStateView) -> bool {
    match state {
        GateStateView::AwaitLength => true,
        GateStateView::AwaitId { len } => len <= MAX_RESOURCE_ID_BYTES,
        GateStateView::AwaitOperation { id } => id.len() <= MAX_RESOURCE_ID_BYTES,
        GateStateView::AwaitRegistry { id, .. } => id.len() <= MAX_RESOURCE_ID_BYTES,
        GateStateView::AwaitTransfer { id, .. } => id.len() <= MAX_RESOURCE_ID_BYTES,
        GateStateView::Streaming { id, .. } => id.len() <= MAX_RESOURCE_ID_BYTES,
        GateStateView::Closed => true,
    }
}

/// A request that is not over has seen exactly the events that lead to its state, and asks for
/// no more bytes than the maximum.
pub proof fn law_one_path(events: Seq<GateEventView>)
    ensures
        run(events).0 !is Closed ==> events == path_to(run(events).0),
        bounded(run(events).0),
        run(events).1 matches GateActionView::Read(len) ==> len <= MAX_RESOURCE_ID_BYTES,
    decreases events.len(),
{
    if events.len() == 0 {
        assert(events =~= seq![]);
    } else {
        let init = events.drop_last();
        let last = events.last();
        law_one_path(init);
        assert(events =~= init.push(last));
        match (run(init).0, last) {
            (GateStateView::AwaitLength, GateEventView::Received(bytes)) if bytes.len() == 2 => {
                octets::lemma_le_value_bounded(bytes);
                assert(init.push(last) =~= seq![last]);
            },
            (GateStateView::AwaitId { len }, GateEventView::Received(id)) if id.len() == len => {
                assert(init.push(last) =~= path_to_id(id));
            },
            (GateStateView::AwaitOperation { id }, GateEventView::Received(bytes)) if bytes.len() == 1 => {
                assert(bytes =~= seq![bytes[0]]);
            },
            _ => {},
        }
    }
}

/// A request reaches the transfer only if the registry granted the permission that was asked
/// for, on the resource that was asked for, and the transfer's own check said yes; and it always
/// does then.
pub proof fn law_transfer_needs_both_checks(events: Seq<GateEventView>)
    ensures
        run(events).1 is Transfer <==> exists|id: Seq<u8>, permission: Permission| {
            &&& id.len() <= MAX_RESOURCE_ID_BYTES
            &&& events == #[trigger] path_to(GateStateView::Streaming { id, permission })
        },
{
    if run(events).1 is Transfer {
        law_one_path(events);
        let id = run(events).0->Streaming_id;
        let permission = run(events).0->Streaming_permission;
        assert(events == path_to(GateStateView::Streaming { id, permission }));
    }
    if exists|id: Seq<u8>, permission: Permission| {
        &&& id.len() <= MAX_RESOURCE_ID_BYTES
        &&& events == #[trigger] path_to(GateStateView::Streaming { id, permission })
    } {
        let (id, permission) = choose|id: Seq<u8>, permission: Permission| {
            &&& id.len() <= MAX_RESOURCE_ID_BYTES
            &&& events == #[trigger] path_to(GateStateView::Streaming { id, permission })
        };
        lemma_request_path(id, permission);
        let asked = path_to_operation(id, permission);
        let granted = asked.push(GateEventView::Permitted(true));
        assert(granted.drop_last() =~= asked);
        assert(run(granted).0 == (GateStateView::AwaitTransfer { id, permission }));
        assert(events.drop_last() =~= granted);
        assert(events.last() == GateEventView::Accessible(true));
    }
}

/// A request is denied exactly if it is complete and one of the two checks said no.
pub proof fn law_denied_requests(events: Seq<GateEventView>)
    ensures
        run(events).1 is Deny <==> exists|id: Seq<u8>, permission: Permission| {
            &&& id.len() <= MAX_RESOURCE_ID_BYTES
            &&& {
                ||| events == (#[trigger] path_to_operation(id, permission)).push(GateEventView::Permitted(false))
                ||| events == path_to_operation(id, permission).push(GateEventView::Permitted(true)).push(
                    GateEventView::Accessible(false),
                )
            }
        },
        run(events).1 is Deny ==> run(events).0 is Closed,
{
    if run(events).1 is Deny {
        let init = events.drop_last();
        law_one_path(init);
        assert(events =~= init.push(events.last()));
        match run(init).0 {
            GateStateView::AwaitRegistry { id, permission } => {
                assert(events == path_to_operation(id, permission).push(GateEventView::Permitted(false)));
            },
            GateStateView::AwaitTransfer { id, permission } => {
                assert(events == path_to_operation(id, permission).push(GateEventView::Permitted(true)).push(
                    GateEventView::Accessible(false),
                ));
            },
            _ => {},
        }
    }
    if exists|id: Seq<u8>, permission: Permission| {
        &&& id.len() <= MAX_RESOURCE_ID_BYTES
        &&& {
            ||| events == (#[trigger] path_to_operation(id, permission)).push(GateEventView::Permitted(false))
            ||| events == path_to_operation(id, permission).push(GateEventView::Permitted(true)).push(
                GateEventView::Accessible(false),
            )
        }
    } {
        let (id, permission) = choose|id: Seq<u8>, permission: Permission| {
            &&& id.len() <= MAX_RESOURCE_ID_BYTES
            &&& {
                ||| events == (#[trigger] path_to_operation(id, permission)).push(GateEventView::Permitted(false))
                ||| events == path_to_operation(id, permission).push(GateEventView::Permitted(true)).push(
                    GateEventView::Accessible(false),
                )
            }
        };
        lemma_request_path(id, permission);
        let asked = path_to_operation(id, permission);
        let granted = asked.push(GateEventView::Permitted(true));
        assert(granted.drop_last() =~= asked);
        assert(run(granted).0 == (GateStateView::AwaitTransfer { id, permission }));
        if events == asked.push(GateEventView::Permitted(false)) {
            assert(events.drop_last() =~= asked);
            assert(events.last() == GateEventView::Permitted(false));
        } else {
            assert(events.drop_last() =~= granted);
            assert(events.last() == GateEventView::Accessible(false));
        }
    }
}

/// A peer to whom the registry does not grant the permission is denied before the transfer is
/// asked anything, whatever the transfer would say.
pub proof fn law_refused_peers_are_denied<R: Registry>(
    registry: R,
    peer: Seq<u8>,
    state: GateStateView,
    event: GateEventView,
    now: int,
    after: (GateStateView, GateActionView),
    id: Seq<u8>,
    permission: Permission,
)
    requires
        settles(registry, peer, state, event, now, after),
        next(state, event).0 == (GateStateView::AwaitRegistry { id, permission }),
        registry.coherent(),
        !registry.state().allows(peer, id, permission, now),
    ensures
        after == (GateStateView::Closed, GateActionView::Deny),
{
}

/// A peer to whom the registry grants the permission gets as far as the transfer's own check,
/// if the registry does not fail.
pub proof fn law_granted_peers_reach_the_transfer_check<R: Registry>(
    registry: R,
    peer: Seq<u8>,
    state: GateStateView,
    event: GateEventView,
    now: int,
    after: (GateStateView, GateActionView),
    id: Seq<u8>,
    permission: Permission,
)
    requires
        settles(registry, peer, state, event, now, after),
        next(state, event).0 == (GateStateView::AwaitRegistry { id, permission }),
        registry.coherent(),
        R::reliable(),
        registry.state().allows(peer, id, permission, now),
    ensures
        after == (GateStateView::AwaitTransfer { id, permission }, GateActionView::AskTransfer),
{
}

/// A request that is over stays over: after a denial, a failure or a finished transfer nothing
/// is read, granted or sent.
pub proof fn law_closed_is_final(events: Seq<GateEventView>, event: GateEventView)
    requires
        run(events).0 is Closed,
    ensures
        run(events.push(event)) == (GateStateView::Closed, GateActionView::Abort),
{
    assert(events.push(event).drop_last() =~= events);
}

/// What was asked is what is understood: the bytes of a request, read piece by piece as
/// [`GateAction::Read`] asks for them, lead to the consultation of the registry about that
/// resource and that permission.
pub proof fn law_request_round_trip(id: Seq<u8>, permission: Permission)
    requires
        id.len() <= MAX_RESOURCE_ID_BYTES,
    ensures
        ({
            let raw = protocol::request_bytes(id, permission);
            let n = id.len() as int;
            &&& raw.len() == n + 3
            &&& run(
                seq![
                    GateEventView::Received(raw.subrange(0, 2)),
                    GateEventView::Received(raw.subrange(2, 2 + n)),
                    GateEventView::Received(raw.subrange(2 + n, 3 + n)),
                ],
            ) == (GateStateView::AwaitRegistry { id, permission }, GateActionView::AskRegistry)
        }),
{
    let raw = protocol::request_bytes(id, permission);
    let n = id.len() as int;
    octets::lemma_le_bytes_len(id.len(), 2);
    assert(raw.subrange(0, 2) =~= octets::le_bytes(id.len(), 2));
    assert(raw.subrange(2, 2 + n) =~= id);
    assert(raw.subrange(2 + n, 3 + n) =~= seq![protocol::operation_byte(permission)]);
    lemma_request_path(id, permission);
    assert(seq![
        GateEventView::Received(raw.subrange(0, 2)),
        GateEventView::Received(raw.subrange(2, 2 + n)),
        GateEventView::Received(raw.subrange(2 + n, 3 + n)),
    ] =~= path_to_operation(id, permission));
}

/// The pieces of a request lead to the consultation of the registry.
proof fn lemma_request_path(id: Seq<u8>, permission: Permission)
    requires
        id.len() <= MAX_RESOURCE_ID_BYTES,
    ensures
        run(path_to_operation(id, permission)) == (
            GateStateView::AwaitRegistry { id, permission },
            GateActionView::AskRegistry,
        ),
{
    let length = seq![GateEventView::Received(octets::le_bytes(id.len(), 2))];
    octets::lemma_le_widths();
    octets::lemma_le_round_trip(id.len(), 2);
    assert(length.drop_last() =~= seq![]);
    assert(run(seq![]) == opening());
    assert(run(length) == (GateStateView::AwaitId { len: id.len() }, GateActionView::Read(id.len())));
    assert(path_to_id(id).drop_last() =~= length);
    assert(run(path_to_id(id)) == (GateStateView::AwaitOperation { id }, GateActionView::Read(1)));
    assert(path_to_operation(id, permission).drop_last() =~= path_to_id(id));
    assert(path_to_operation(id, permission).last() == GateEventView::Received(
        seq![protocol::operation_byte(permission)],
    ));
}

/// An oversized length field ends the request before anything of that length is read.
pub proof fn law_oversized_length_fails(bytes: Seq<u8>)
    requires
        bytes.len() == 2,
        octets::le_value(bytes) > MAX_RESOURCE_ID_BYTES,
    ensures
        run(seq![GateEventView::Received(bytes)]) == (
            GateStateView::Closed,
            GateActionView::Fail(ErrorView::ResourceIdTooLong(octets::le_value(bytes) as int)),
        ),
{
    assert(seq![GateEventView::Received(bytes)].drop_last() =~= seq![]);
    assert(run(seq![]) == opening());
}

/// A whole request. The two bytes of the length, the resource id and the operation byte are asked
/// for one after the other; then the registry is consulted about this very resource and this very
/// permission. If it says no, the request is denied, whatever the transfer would say. If it says
/// yes, the transfer is asked: its yes hands the streams over, and its no is a denial.
pub proof fn law_whole_request(
    length: Vec<u8>,
    id: Vec<u8>,
    operation: Vec<u8>,
    permission: Permission,
    yes: bool,
    accessible: bool,
    begun: (GateState, GateAction),
    steps: Seq<(GateState, GateAction)>,
)
    requires
        length@.len() == 2,
        length@[0] + 256 * length@[1] == id@.len(),
        id@.len() <= 256,
        operation@ == match permission {
            Permission::Read => seq![1u8],
            Permission::Write => seq![2u8],
            Permission::Delete => seq![3u8],
        },
        steps.len() == 5,
        call_ensures(open, (), begun),
        call_ensures(advance, (begun.0, GateEvent::Received(length)), steps[0]),
        call_ensures(advance, (steps[0].0, GateEvent::Received(id)), steps[1]),
        call_ensures(advance, (steps[1].0, GateEvent::Received(operation)), steps[2]),
        call_ensures(advance, (steps[2].0, GateEvent::Permitted(yes)), steps[3]),
        call_ensures(advance, (steps[3].0, GateEvent::Accessible(accessible)), steps[4]),
    ensures
        begun.1 == GateAction::Read(2),
        steps[0].1 == GateAction::Read(id@.len() as usize),
        steps[1].1 == GateAction::Read(1),
        steps[2].1 == GateAction::AskRegistry,
        steps[2].0 matches GateState::AwaitRegistry { id: asked, permission: wanted } && asked@ == id@ && wanted
            == permission,
        !yes ==> steps[3] == (GateState::Closed, GateAction::Deny) && steps[4] == (
            GateState::Closed,
            GateAction::Abort,
        ),
        yes ==> steps[3].1 == GateAction::AskTransfer,
        yes && !accessible ==> steps[4] == (GateState::Closed, GateAction::Deny),
        yes && accessible ==> steps[4].1 == GateAction::Transfer && (steps[4].0 matches GateState::Streaming {
            id: served,
            permission: used,
        } && served@ == id@ && used == permission),
{
    octets::law_little_endian(length@);
    protocol::law_protocol_constants();
}

/// A length of more than 256 ends a request with the error that names it, before the id is read. A
/// byte that is no operation ends it with the error that names that byte.
pub proof fn law_malformed_requests(
    length: Vec<u8>,
    id: Vec<u8>,
    operation: Vec<u8>,
    long: (GateState, GateAction),
    unknown: (GateState, GateAction),
)
    requires
        length@.len() == 2,
        operation@.len() == 1,
        call_ensures(advance, (GateState::AwaitLength, GateEvent::Received(length)), long),
        call_ensures(advance, (GateState::AwaitOperation { id }, GateEvent::Received(operation)), unknown),
    ensures
        length@[0] + 256 * length@[1] > 256 ==> long == (
            GateState::Closed,
            GateAction::Fail(Error::ResourceIdTooLong((length@[0] + 256 * length@[1]) as usize)),
        ),
        length@[0] + 256 * length@[1] <= 256 ==> long == (
            GateState::AwaitId { len: (length@[0] + 256 * length@[1]) as usize },
            GateAction::Read((length@[0] + 256 * length@[1]) as usize),
        ),
        operation@[0] == 0 || operation@[0] > 3 ==> unknown == (
            GateState::Closed,
            GateAction::Fail(Error::UnknownOperationByte(operation@[0])),
        ),
        1 <= operation@[0] <= 3 ==> unknown.1 == GateAction::AskRegistry,
{
    octets::law_little_endian(length@);
    protocol::law_protocol_constants();
}

/// Bytes that are not as many as were asked for end a request without a word.
pub proof fn law_wrong_amounts(
    state: GateState,
    bytes: Vec<u8>,
    wanted: int,
    after: (GateState, GateAction),
)
    requires
        state is AwaitLength ==> wanted == 2,
        state matches GateState::AwaitId { len } ==> wanted == len,
        state is AwaitOperation ==> wanted == 1,
        state is AwaitLength || state is AwaitId || state is AwaitOperation,
        bytes@.len() != wanted,
        call_ensures(advance, (state, GateEvent::Received(bytes)), after),
    ensures
        after == (GateState::Closed, GateAction::Abort),
{
}

/// The streams are finished when the transfer succeeded, and dropped when it did not.
pub proof fn law_transfer_end(id: Vec<u8>, permission: Permission, done: bool, after: (GateState, GateAction))
    requires
        call_ensures(advance, (GateState::Streaming { id, permission }, GateEvent::Transferred(done)), after),
    ensures
        after == if done {
            (GateState::Closed, GateAction::Finish)
        } else {
            (GateState::Closed, GateAction::Abort)
        },
{
}

/// An event that nobody waits for ends a request without a word: so does every event after the end,
/// an answer before the question, and bytes where an answer is due.
pub proof fn law_unexpected_events(state: GateState, event: GateEvent, after: (GateState, GateAction))
    requires
        call_ensures(advance, (state, event), after),
        match event {
            GateEvent::Received(_) => !(state is AwaitLength || state is AwaitId || state is AwaitOperation),
            GateEvent::Permitted(_) => state !is AwaitRegistry,
            GateEvent::Accessible(_) => state !is AwaitTransfer,
            GateEvent::Transferred(_) => state !is Streaming,
        },
    ensures
        after == (GateState::Closed, GateAction::Abort),
{
}

/// `ALLOWED` is sent with the streams, `DENIED` with a denial, and nothing otherwise.
pub proof fn law_statuses(action: GateAction, status: Option<Status>)
    requires
        call_ensures(GateAction::status, (&action,), status),
    ensures
        status == Some(Status::Allowed) <==> action is Transfer,
        status == Some(Status::Denied) <==> action is Deny,
        status is None <==> action !is Transfer && action !is Deny,
{
}

/// The answer of the registry decides over the step in which the operation byte arrives: the
/// transfer is asked only if a coherent registry grants this permission on this resource to this
/// peer at this time, and always then if it does not fail; in every other case the request is
/// denied.
pub proof fn law_step_consults_the_registry<R: Registry, T>(
    gate: &RingGate<R, T>,
    peer: &EndpointId,
    id: Vec<u8>,
    operation: Vec<u8>,
    permission: Permission,
    now: Timestamp,
    after: (GateState, GateAction),
)
    requires
        gate.spec_registry().coherent(),
        operation@ == match permission {
            Permission::Read => seq![1u8],
            Permission::Write => seq![2u8],
            Permission::Delete => seq![3u8],
        },
        call_ensures(
            RingGate::<R, T>::step_at,
            (gate, peer, GateState::AwaitOperation { id }, GateEvent::Received(operation), now),
            after,
        ),
    ensures
        after == (GateState::Closed, GateAction::Deny) || after.1 is AskTransfer,
        after.1 is AskTransfer ==> {
            &&& gate.spec_registry().state().allows(peer@, id@, permission, now@)
            &&& after.0 matches GateState::AwaitTransfer { id: asked, permission: wanted } && asked@ == id@ && wanted
                == permission
        },
        R::reliable() && gate.spec_registry().state().allows(peer@, id@, permission, now@) ==> after.1 is AskTransfer,
{
}

/// A step that is not told the time takes it off the wall clock: the registry is consulted about the
/// time of that reading.
pub proof fn law_step_reads_the_clock<R: Registry, T>(
    gate: &RingGate<R, T>,
    peer: &EndpointId,
    id: Vec<u8>,
    operation: Vec<u8>,
    permission: Permission,
    after: (GateState, GateAction),
)
    requires
        gate.spec_registry().coherent(),
        operation@ == match permission {
            Permission::Read => seq![1u8],
            Permission::Write => seq![2u8],
            Permission::Delete => seq![3u8],
        },
        call_ensures(
            RingGate::<R, T>::step,
            (gate, peer, GateState::AwaitOperation { id }, GateEvent::Received(operation)),
            after,
        ),
    ensures
        after == (GateState::Closed, GateAction::Deny) || after.1 is AskTransfer,
        exists|now: Timestamp| {
            &&& #[trigger] call_ensures(Timestamp::now, (), now)
            &&& after.1 is AskTransfer ==> gate.spec_registry().state().allows(peer@, id@, permission, now@)
            &&& R::reliable() && gate.spec_registry().state().allows(peer@, id@, permission, now@)
                ==> after.1 is AskTransfer
        },
{
    let now = choose|now: Timestamp| #[trigger]
        call_ensures(Timestamp::now, (), now) && time::representable(now@) && settles(
            gate.spec_registry(),
            peer@,
            GateState::AwaitOperation { id }@,
            GateEvent::Received(operation)@,
            now@,
            (after.0@, after.1@),
        );
    assert(call_ensures(Timestamp::now, (), now));
}

/// Where no operation byte is awaited, a step with a registry is the step without one.
pub proof fn law_other_steps<R: Registry, T>(
    gate: &RingGate<R, T>,
    peer: &EndpointId,
    state: GateState,
    event: GateEvent,
    now: Timestamp,
    plain: (GateState, GateAction),
    after: (GateState, GateAction),
)
    requires
        state !is AwaitOperation,
        call_ensures(advance, (state, event), plain),
        call_ensures(RingGate::<R, T>::step_at, (gate, peer, state, event, now), after),
    ensures
        after.0@ == plain.0@,
        after.1@ == plain.1@,
{
}

/// A registry that fails grants nothing, and one that does not is taken at its word.
pub proof fn law_failures_grant_nothing(answer: Result<bool, Error>, yes: bool)
    requires
        call_ensures(permitted, (answer,), yes),
    ensures
        answer is Err ==> !yes,
        answer matches Ok(word) ==> yes == word,
{
}

} // verus!
