//! What sequences of calls make of a registry.
//!
//! A call has the outcome that [`RegistryState`] gives for it; one that fails changes nothing. A
//! call during which the storage of a backend failed has been made as a whole or not at all, and
//! stands in the sequence or not.

use vstd::prelude::*;

use crate::error;
use crate::error::{Error, ErrorView};
use crate::laws;
use crate::model;
use crate::model::RegistryState;
use crate::registry;
use crate::registry::Permission;
use crate::ring::{Ring, OPEN_RING_NAME};

verus! {

/// A call that writes.
pub enum Call {
    CreateRing { name: Seq<char> },
    AddPeer { ring: Seq<char>, peer: Seq<u8>, label: Option<Seq<char>>, expires_at: Option<int>, now: int },
    RemovePeer { ring: Seq<char>, peer: Seq<u8> },
    Associate { id: Seq<u8>, ring: Seq<char>, permissions: Set<Permission> },
    Clear { id: Seq<u8> },
    Evict { now: int },
}

/// The outcome of a call.
pub open spec fn outcome(s: RegistryState, call: Call) -> Result<RegistryState, ErrorView> {
    match call {
        Call::CreateRing { name } => s.create_ring(name),
        Call::AddPeer { ring, peer, label, expires_at, now } => s.add_peer(ring, peer, label, expires_at, now),
        Call::RemovePeer { ring, peer } => s.remove_peer(ring, peer),
        Call::Associate { id, ring, permissions } => s.add_ring_to_resource(id, ring, permissions),
        Call::Clear { id } => Ok(s.clear_resource(id)),
        Call::Evict { now } => Ok(s.evict(now)),
    }
}

/// The registry after a call.
pub open spec fn after(s: RegistryState, call: Call) -> RegistryState {
    match outcome(s, call) {
        Ok(next) => next,
        Err(_) => s,
    }
}

/// The registry after a sequence of calls.
pub open spec fn run(s: RegistryState, calls: Seq<Call>) -> RegistryState
    decreases calls.len(),
{
    if calls.len() == 0 {
        s
    } else {
        after(run(s, calls.drop_last()), calls.last())
    }
}

/// Whether a call in the sequence created a ring of this name.
pub open spec fn created(s: RegistryState, calls: Seq<Call>, name: Seq<char>) -> bool
    decreases calls.len(),
{
    if calls.len() == 0 {
        false
    } else {
        ||| created(s, calls.drop_last(), name)
        ||| calls.last() == (Call::CreateRing { name }) && outcome(run(s, calls.drop_last()), calls.last()) is Ok
    }
}

/// How many calls in the sequence created a ring.
pub open spec fn creations(s: RegistryState, calls: Seq<Call>) -> nat
    decreases calls.len(),
{
    if calls.len() == 0 {
        0
    } else {
        let before = creations(s, calls.drop_last());
        if calls.last() is CreateRing && outcome(run(s, calls.drop_last()), calls.last()) is Ok {
            before + 1
        } else {
            before
        }
    }
}

/// A call that does what its outcome says, and during which the storage did not fail, is a step
/// of the sequence.
pub proof fn law_call_is_a_step(result: Result<(), Error>, before: RegistryState, next: RegistryState, call: Call)
    requires
        model::follows(result, outcome(before, call), before, next),
        !error::storage_failed(result),
    ensures
        next == after(before, call),
        result is Ok <==> outcome(before, call) is Ok,
{
}

/// Creating a ring adds exactly its name to the rings; no other call adds or removes a ring.
pub proof fn law_only_creation_changes_the_rings(s: RegistryState, call: Call)
    ensures
        after(s, call).rings.dom() == (match call {
            Call::CreateRing { name } if outcome(s, call) is Ok => s.rings.dom().insert(name),
            _ => s.rings.dom(),
        }),
        call is CreateRing && outcome(s, call) is Ok ==> !s.rings.contains_key(call->CreateRing_name)
            && call->CreateRing_name != OPEN_RING_NAME@,
{
    match call {
        Call::CreateRing { name } if outcome(s, call) is Ok => {
            assert(after(s, call).rings.dom() =~= s.rings.dom().insert(name));
        },
        _ => {
            assert(after(s, call).rings.dom() =~= s.rings.dom());
        },
    }
}

/// Every sequence of calls keeps a registry well formed.
pub proof fn law_calls_keep_a_registry_well_formed(s: RegistryState, calls: Seq<Call>)
    requires
        s.wf(),
    ensures
        run(s, calls).wf(),
    decreases calls.len(),
{
    if calls.len() > 0 {
        let before = run(s, calls.drop_last());
        law_calls_keep_a_registry_well_formed(s, calls.drop_last());
        match calls.last() {
            Call::CreateRing { name } => laws::law_create_ring_wf(before, name),
            Call::AddPeer { ring, peer, label, expires_at, now } => laws::law_add_peer_wf(
                before,
                ring,
                peer,
                label,
                expires_at,
                now,
            ),
            Call::RemovePeer { ring, peer } => laws::law_remove_peer_wf(before, ring, peer),
            Call::Associate { id, ring, permissions } => laws::law_add_ring_to_resource_wf(
                before,
                id,
                ring,
                permissions,
            ),
            Call::Clear { id } => laws::law_clear_resource_wf(before, id),
            Call::Evict { now } => laws::law_evict_wf(before, now),
        }
    }
}

/// After any sequence of calls on a registry, its rings are those that it had and those that were
/// created, and each was created once.
pub proof fn law_rings_are_those_created(s: RegistryState, calls: Seq<Call>)
    requires
        s.rings.dom().finite(),
    ensures
        forall|name: Seq<char>| #[trigger]
            run(s, calls).rings.contains_key(name) <==> s.rings.contains_key(name) || created(s, calls, name),
        run(s, calls).rings.dom().finite(),
        run(s, calls).rings.dom().len() == s.rings.dom().len() + creations(s, calls),
    decreases calls.len(),
{
    if calls.len() > 0 {
        let before = run(s, calls.drop_last());
        let call = calls.last();
        law_rings_are_those_created(s, calls.drop_last());
        law_only_creation_changes_the_rings(before, call);
        assert forall|name: Seq<char>| #[trigger] run(s, calls).rings.contains_key(name) <==> s.rings.contains_key(name)
            || created(s, calls, name) by {
            assert(run(s, calls).rings.contains_key(name) == after(before, call).rings.dom().contains(name));
            assert(before.rings.contains_key(name) == before.rings.dom().contains(name));
        }
    }
}

/// What is listed after any sequence of calls on a new registry: the open ring first, and every
/// ring that was created, each once.
pub proof fn law_listed_rings_are_those_created(calls: Seq<Call>, rings: Seq<Ring>)
    requires
        registry::lists_rings(rings, run(RegistryState::initial(), calls)),
    ensures
        rings[0]@ == OPEN_RING_NAME@,
        forall|name: Seq<char>|
            (exists|i: int| 0 <= i < rings.len() && (#[trigger] rings[i])@ == name) <==> name == OPEN_RING_NAME@
                || #[trigger] created(RegistryState::initial(), calls, name),
        forall|i: int, j: int| 0 <= i < j < rings.len() ==> (#[trigger] rings[i])@ != (#[trigger] rings[j])@,
        rings.len() == 1 + creations(RegistryState::initial(), calls),
{
    let first = RegistryState::initial();
    let state = run(first, calls);
    assert(first.rings.dom() =~= set![OPEN_RING_NAME@]);
    law_rings_are_those_created(first, calls);
    assert forall|name: Seq<char>|
        (exists|i: int| 0 <= i < rings.len() && (#[trigger] rings[i])@ == name) <==> name == OPEN_RING_NAME@
            || #[trigger] created(first, calls, name) by {
        assert(state.rings.contains_key(name) <==> first.rings.contains_key(name) || created(first, calls, name));
        if exists|i: int| 0 <= i < rings.len() && (#[trigger] rings[i])@ == name {
            let i = choose|i: int| 0 <= i < rings.len() && (#[trigger] rings[i])@ == name;
            assert(state.rings.contains_key(rings[i]@));
        }
    }
    let names = rings.map_values(|ring: Ring| ring@);
    assert(names.no_duplicates()) by {
        assert forall|i: int, j: int| 0 <= i < j < names.len() implies names[i] != names[j] by {
            assert(rings[i]@ != rings[j]@);
        }
    }
    assert(names.to_set() =~= state.rings.dom()) by {
        assert forall|name: Seq<char>| names.to_set().contains(name) <==> state.rings.dom().contains(name) by {
            if names.contains(name) {
                let i = choose|i: int| 0 <= i < names.len() && names[i] == name;
                assert(state.rings.contains_key(rings[i]@));
            }
            if state.rings.contains_key(name) {
                let i = choose|i: int| 0 <= i < rings.len() && (#[trigger] rings[i])@ == name;
                assert(names[i] == name);
            }
        }
    }
    names.unique_seq_to_set();
}

} // verus!
