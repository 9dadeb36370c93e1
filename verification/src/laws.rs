//! What holds of every registry: the laws of rings, memberships and grants.
//!
//! Each is proved of [`RegistryState`], which every backend is proved to follow.

use vstd::prelude::*;

use crate::error::ErrorView;
use crate::model;
use crate::model::{GrantState, MemberState, RegistryState};
use crate::registry::{Permission, Registry};
use crate::ring;
use crate::ring::OPEN_RING_NAME;

verus! {

/// A filtered list of memberships holds a membership exactly if the list does and the
/// predicate picks it.
pub proof fn lemma_filter_members(
    members: Seq<MemberState>,
    pred: spec_fn(MemberState) -> bool,
    m: MemberState,
)
    ensures
        members.filter(pred).contains(m) <==> members.contains(m) && pred(m),
    decreases members.len(),
{
    reveal(Seq::filter);
    if members.len() > 0 {
        let init = members.drop_last();
        let last = members.last();
        lemma_filter_members(init, pred, m);
        assert(members =~= init.push(last));
        assert(init.push(last).contains(m) <==> init.contains(m) || m == last) by {
            if init.contains(m) {
                let i = choose|i: int| 0 <= i < init.len() && init[i] == m;
                assert(members[i] == m);
            }
            if members.contains(m) && m != last {
                let i = choose|i: int| 0 <= i < members.len() && members[i] == m;
                assert(init[i] == m);
            }
            if m == last {
                assert(members[members.len() - 1] == m);
            }
        }
        let kept = init.filter(pred);
        if pred(last) {
            assert(members.filter(pred) =~= kept.push(last));
            assert(kept.push(last).contains(m) <==> kept.contains(m) || m == last) by {
                if kept.contains(m) {
                    let i = choose|i: int| 0 <= i < kept.len() && kept[i] == m;
                    assert(kept.push(last)[i] == m);
                }
                if m == last {
                    assert(kept.push(last)[kept.len() as int] == m);
                }
            }
        }
    }
}

/// Filtering keeps peers distinct.
pub proof fn lemma_filter_distinct(members: Seq<MemberState>, pred: spec_fn(MemberState) -> bool)
    requires
        model::distinct(members),
    ensures
        model::distinct(members.filter(pred)),
    decreases members.len(),
{
    reveal(Seq::filter);
    if members.len() > 0 {
        let init = members.drop_last();
        let last = members.last();
        assert forall|i: int, j: int| 0 <= i < j < init.len() implies (#[trigger] init[i]).peer
            != (#[trigger] init[j]).peer by {
            assert(members[i].peer != members[j].peer);
        }
        lemma_filter_distinct(init, pred);
        let kept = init.filter(pred);
        if pred(last) {
            let out = members.filter(pred);
            assert(out =~= kept.push(last));
            assert forall|i: int, j: int| 0 <= i < j < out.len() implies (#[trigger] out[i]).peer
                != (#[trigger] out[j]).peer by {
                if j == kept.len() {
                    assert(kept.contains(kept[i]));
                    lemma_filter_members(init, pred, kept[i]);
                    let k = choose|k: int| 0 <= k < init.len() && init[k] == kept[i];
                    assert(members[k].peer != members[members.len() - 1].peer);
                }
            }
        }
    }
}

/// Adding a peer keeps peers distinct.
pub proof fn lemma_enrol_distinct(
    members: Seq<MemberState>,
    peer: Seq<u8>,
    label: Option<Seq<char>>,
    expires_at: Option<int>,
    now: int,
)
    requires
        model::distinct(members),
    ensures
        model::distinct(model::enrol(members, peer, label, expires_at, now)),
{
    let next = model::enrol(members, peer, label, expires_at, now);
    assert forall|i: int, j: int| 0 <= i < j < next.len() implies (#[trigger] next[i]).peer
        != (#[trigger] next[j]).peer by {
        if j < members.len() {
            assert(members[i].peer != members[j].peer);
        } else {
            assert(members[i].peer != peer);
        }
    }
}

/// An empty registry is well formed.
pub proof fn law_initial_wf()
    ensures
        RegistryState::initial().wf(),
{
    ring::lemma_open_name_valid();
}

/// Creating a ring keeps a registry well formed.
pub proof fn law_create_ring_wf(s: RegistryState, name: Seq<char>)
    requires
        s.wf(),
    ensures
        s.create_ring(name) matches Ok(next) ==> next.wf(),
{
    if let Ok(next) = s.create_ring(name) {
        assert forall|id: Seq<u8>| #[trigger] next.grants.contains_key(id) implies model::grants_wf(
            next.grants[id],
            next.rings.dom(),
        ) by {
            assert(s.grants.contains_key(id));
        }
    }
}

/// Adding a peer keeps a registry well formed.
pub proof fn law_add_peer_wf(
    s: RegistryState,
    name: Seq<char>,
    peer: Seq<u8>,
    label: Option<Seq<char>>,
    expires_at: Option<int>,
    now: int,
)
    requires
        s.wf(),
    ensures
        s.add_peer(name, peer, label, expires_at, now) matches Ok(next) ==> next.wf(),
{
    if let Ok(next) = s.add_peer(name, peer, label, expires_at, now) {
        lemma_enrol_distinct(s.rings[name], peer, label, expires_at, now);
        assert(next.rings.dom() =~= s.rings.dom());
    }
}

/// Removing a peer keeps a registry well formed.
pub proof fn law_remove_peer_wf(s: RegistryState, name: Seq<char>, peer: Seq<u8>)
    requires
        s.wf(),
    ensures
        s.remove_peer(name, peer) matches Ok(next) ==> next.wf(),
{
    if let Ok(next) = s.remove_peer(name, peer) {
        lemma_filter_distinct(s.rings[name], |m: MemberState| m.peer != peer);
        assert(next.rings.dom() =~= s.rings.dom());
    }
}

/// Associating a ring with a resource keeps a registry well formed.
pub proof fn law_add_ring_to_resource_wf(
    s: RegistryState,
    id: Seq<u8>,
    name: Seq<char>,
    permissions: Set<Permission>,
)
    requires
        s.wf(),
    ensures
        s.add_ring_to_resource(id, name, permissions) matches Ok(next) ==> next.wf(),
{
    if let Ok(next) = s.add_ring_to_resource(id, name, permissions) {
        let before = s.grants_on(id);
        let after = model::grant(before, name, permissions);
        assert(model::grant_wf(GrantState { ring: name, permissions }, s.rings.dom()));
        assert forall|i: int, j: int| 0 <= i < j < after.len() implies (#[trigger] after[i]).ring
            != (#[trigger] after[j]).ring by {
            if j < before.len() {
                assert(before[i].ring != before[j].ring);
            } else {
                assert(before[i].ring != name);
            }
        }
        assert forall|i: int| 0 <= i < after.len() implies model::grant_wf(#[trigger] after[i], s.rings.dom()) by {
            if i < before.len() {
                assert(s.grants.contains_key(id));
                assert(model::grant_wf(before[i], s.rings.dom()));
            }
        }
        if model::granted(before, name) {
            let k = choose|k: int| 0 <= k < before.len() && (#[trigger] before[k]).ring == name;
            assert(after.len() > 0);
        }
        assert(model::grants_wf(after, s.rings.dom()));
    }
}

/// Removing the associations of a resource keeps a registry well formed.
pub proof fn law_clear_resource_wf(s: RegistryState, id: Seq<u8>)
    requires
        s.wf(),
    ensures
        s.clear_resource(id).wf(),
{
}

/// Evicting expired memberships keeps a registry well formed.
pub proof fn law_evict_wf(s: RegistryState, now: int)
    requires
        s.wf(),
    ensures
        s.evict(now).wf(),
{
    let next = s.evict(now);
    assert(next.rings.dom() =~= s.rings.dom());
    assert forall|name: Seq<char>| #[trigger] next.rings.contains_key(name) implies ring::valid_name(name)
        && model::distinct(next.rings[name]) by {
        assert(s.rings.contains_key(name));
        lemma_filter_distinct(s.rings[name], |m: MemberState| !m.expired(now));
    }
}

/// Who is active after one peer was struck off: everybody who was, but that peer.
pub proof fn lemma_strike_active(members: Seq<MemberState>, peer: Seq<u8>, other: Seq<u8>, now: int)
    ensures
        model::active(model::strike(members, peer), other, now) <==> other != peer && model::active(
            members,
            other,
            now,
        ),
        !model::enrolled(model::strike(members, peer), peer),
{
    let pred = |m: MemberState| m.peer != peer;
    let kept = model::strike(members, peer);
    if model::active(kept, other, now) {
        let i = choose|i: int|
            0 <= i < kept.len() && (#[trigger] kept[i]).peer == other && !kept[i].expired(now);
        assert(kept.contains(kept[i]));
        lemma_filter_members(members, pred, kept[i]);
        let j = choose|j: int| 0 <= j < members.len() && members[j] == kept[i];
        assert(members[j].peer == other);
    }
    if other != peer && model::active(members, other, now) {
        let i = choose|i: int|
            0 <= i < members.len() && (#[trigger] members[i]).peer == other && !members[i].expired(now);
        assert(members.contains(members[i]));
        lemma_filter_members(members, pred, members[i]);
        let j = choose|j: int| 0 <= j < kept.len() && kept[j] == members[i];
        assert(kept[j].peer == other);
    }
    if model::enrolled(kept, peer) {
        let i = choose|i: int| 0 <= i < kept.len() && (#[trigger] kept[i]).peer == peer;
        assert(kept.contains(kept[i]));
        lemma_filter_members(members, pred, kept[i]);
    }
}

/// Dropping the memberships that are over at `then` changes nothing for whoever asks at
/// `then` or later.
pub proof fn lemma_current_active(members: Seq<MemberState>, then: int, peer: Seq<u8>, now: int)
    requires
        now >= then,
    ensures
        model::active(model::current(members, then), peer, now) == model::active(members, peer, now),
{
    let pred = |m: MemberState| !m.expired(then);
    let kept = model::current(members, then);
    if model::active(kept, peer, now) {
        let i = choose|i: int|
            0 <= i < kept.len() && (#[trigger] kept[i]).peer == peer && !kept[i].expired(now);
        assert(kept.contains(kept[i]));
        lemma_filter_members(members, pred, kept[i]);
        let j = choose|j: int| 0 <= j < members.len() && members[j] == kept[i];
        assert(members[j].peer == peer);
    }
    if model::active(members, peer, now) {
        let i = choose|i: int|
            0 <= i < members.len() && (#[trigger] members[i]).peer == peer && !members[i].expired(now);
        assert(members.contains(members[i]));
        lemma_filter_members(members, pred, members[i]);
        let j = choose|j: int| 0 <= j < kept.len() && kept[j] == members[i];
        assert(kept[j].peer == peer);
    }
}

/// Implicit deny: on a resource without ring associations nobody holds any permission.
pub proof fn law_implicit_deny(s: RegistryState, id: Seq<u8>)
    requires
        !s.grants.contains_key(id),
    ensures
        forall|peer: Seq<u8>, permission: Permission, now: int| !s.allows(peer, id, permission, now),
{
}

/// A peer with no matching ring membership is denied, for every permission: it holds nothing on
/// a resource if it is a current member of none of the rings associated with it, and the open
/// ring is not among them.
pub proof fn law_stranger_denied(s: RegistryState, peer: Seq<u8>, id: Seq<u8>, permission: Permission, now: int)
    requires
        forall|i: int|
            0 <= i < s.grants_on(id).len() ==> !s.is_member((#[trigger] s.grants_on(id)[i]).ring, peer, now),
        !model::granted(s.grants_on(id), OPEN_RING_NAME@),
    ensures
        !s.allows(peer, id, permission, now),
{
}

/// Whoever holds `Write` or `Delete` on a resource is a current member of a ring that is
/// associated with it and grants that permission: the open ring gives neither.
pub proof fn law_write_needs_membership(
    s: RegistryState,
    peer: Seq<u8>,
    id: Seq<u8>,
    permission: Permission,
    now: int,
)
    requires
        s.wf(),
        permission != Permission::Read,
        s.allows(peer, id, permission, now),
    ensures
        exists|i: int| {
            &&& 0 <= i < s.grants_on(id).len()
            &&& (#[trigger] s.grants_on(id)[i]).permissions.contains(permission)
            &&& s.grants_on(id)[i].ring != OPEN_RING_NAME@
            &&& s.is_member(s.grants_on(id)[i].ring, peer, now)
        },
{
    let i = choose|i: int|
        0 <= i < s.grants_on(id).len() && s.confers(#[trigger] s.grants_on(id)[i], peer, permission, now);
    assert(s.grants.contains_key(id));
    assert(model::grant_wf(s.grants_on(id)[i], s.rings.dom()));
}

/// Associating the open ring lets every peer, member or not, read the resource at any time.
pub proof fn law_open_ring_reads(s: RegistryState, id: Seq<u8>, permissions: Set<Permission>)
    requires
        s.wf(),
        s.add_ring_to_resource(id, OPEN_RING_NAME@, permissions) is Ok,
    ensures
        ({
            let next = s.add_ring_to_resource(id, OPEN_RING_NAME@, permissions)->Ok_0;
            forall|peer: Seq<u8>, now: int| next.allows(peer, id, Permission::Read, now)
        }),
{
    let next = s.add_ring_to_resource(id, OPEN_RING_NAME@, permissions)->Ok_0;
    lemma_grant_at(s.grants_on(id), OPEN_RING_NAME@, permissions);
    let grants = next.grants_on(id);
    let i = choose|i: int|
        0 <= i < grants.len() && #[trigger] grants[i] == (GrantState { ring: OPEN_RING_NAME@, permissions });
    assert forall|peer: Seq<u8>, now: int| next.allows(peer, id, Permission::Read, now) by {
        assert(next.confers(next.grants_on(id)[i], peer, Permission::Read, now));
    }
}

/// The open ring takes nothing but `Read`, and every association grants something.
pub proof fn law_open_ring_is_read_only(s: RegistryState, id: Seq<u8>, permissions: Set<Permission>)
    ensures
        s.add_ring_to_resource(id, OPEN_RING_NAME@, permissions) is Ok ==> permissions == set![Permission::Read],
{
    if s.add_ring_to_resource(id, OPEN_RING_NAME@, permissions) is Ok {
        let p = choose|p: Permission| #[trigger] permissions.contains(p);
        assert(permissions =~= set![Permission::Read]);
    }
}

/// Where the grants say what was just granted.
proof fn lemma_grant_at(grants: Seq<GrantState>, ring: Seq<char>, permissions: Set<Permission>)
    ensures
        exists|i: int| {
            &&& 0 <= i < model::grant(grants, ring, permissions).len()
            &&& #[trigger] model::grant(grants, ring, permissions)[i] == (GrantState { ring, permissions })
        },
        forall|i: int|
            0 <= i < grants.len() && (#[trigger] grants[i]).ring != ring ==> model::grant(
                grants,
                ring,
                permissions,
            )[i] == grants[i],
{
    let next = model::grant(grants, ring, permissions);
    if model::granted(grants, ring) {
        let i = choose|i: int| 0 <= i < grants.len() && (#[trigger] grants[i]).ring == ring;
        assert(next[i] == (GrantState { ring, permissions }));
    } else {
        assert(next[grants.len() as int] == (GrantState { ring, permissions }));
    }
}

/// Who holds a permission after a ring was associated with a resource: whoever the ring's new
/// permission set gives it to, and whoever has it through another ring.
pub proof fn law_association_effect(
    s: RegistryState,
    id: Seq<u8>,
    name: Seq<char>,
    permissions: Set<Permission>,
    peer: Seq<u8>,
    permission: Permission,
    now: int,
)
    requires
        s.add_ring_to_resource(id, name, permissions) is Ok,
    ensures
        s.add_ring_to_resource(id, name, permissions)->Ok_0.allows(peer, id, permission, now) <==> {
            ||| s.confers(GrantState { ring: name, permissions }, peer, permission, now)
            ||| exists|i: int| {
                &&& 0 <= i < s.grants_on(id).len()
                &&& (#[trigger] s.grants_on(id)[i]).ring != name
                &&& s.confers(s.grants_on(id)[i], peer, permission, now)
            }
        },
        forall|other: Seq<u8>| other != id ==> #[trigger] s.add_ring_to_resource(
            id,
            name,
            permissions,
        )->Ok_0.allows(peer, other, permission, now) == s.allows(peer, other, permission, now),
{
    let next = s.add_ring_to_resource(id, name, permissions)->Ok_0;
    let before = s.grants_on(id);
    let after = next.grants_on(id);
    let new = GrantState { ring: name, permissions };
    lemma_grant_at(before, name, permissions);
    assert(after == model::grant(before, name, permissions));
    if next.allows(peer, id, permission, now) {
        let i = choose|i: int| 0 <= i < after.len() && next.confers(#[trigger] after[i], peer, permission, now);
        if after[i] != new {
            assert(before[i].ring != name);
            assert(s.confers(before[i], peer, permission, now));
        }
    }
    if s.confers(new, peer, permission, now) {
        let i = choose|i: int| 0 <= i < after.len() && #[trigger] after[i] == new;
        assert(next.confers(after[i], peer, permission, now));
    }
    if exists|i: int|
        0 <= i < before.len() && (#[trigger] before[i]).ring != name && s.confers(before[i], peer, permission, now) {
        let i = choose|i: int|
            0 <= i < before.len() && (#[trigger] before[i]).ring != name && s.confers(
                before[i],
                peer,
                permission,
                now,
            );
        assert(next.confers(after[i], peer, permission, now));
    }
    assert forall|other: Seq<u8>| other != id implies #[trigger] next.allows(peer, other, permission, now) == s.allows(
        peer,
        other,
        permission,
        now,
    ) by {
        let grants = s.grants_on(other);
        assert(next.grants_on(other) == grants);
        if s.allows(peer, other, permission, now) {
            let i = choose|i: int| 0 <= i < grants.len() && s.confers(#[trigger] grants[i], peer, permission, now);
            assert(next.confers(next.grants_on(other)[i], peer, permission, now));
        }
        if next.allows(peer, other, permission, now) {
            let i = choose|i: int|
                0 <= i < grants.len() && next.confers(#[trigger] next.grants_on(other)[i], peer, permission, now);
            assert(s.confers(grants[i], peer, permission, now));
        }
    }
}

/// Permissions are additive: associating one more ring with a resource takes nothing from
/// anybody, and each peer holds what it held before together with what the new ring gives it.
pub proof fn law_permissions_are_additive(
    s: RegistryState,
    id: Seq<u8>,
    name: Seq<char>,
    permissions: Set<Permission>,
    peer: Seq<u8>,
    permission: Permission,
    now: int,
)
    requires
        s.add_ring_to_resource(id, name, permissions) is Ok,
        !model::granted(s.grants_on(id), name),
    ensures
        s.add_ring_to_resource(id, name, permissions)->Ok_0.allows(peer, id, permission, now) <==> {
            ||| s.allows(peer, id, permission, now)
            ||| s.confers(GrantState { ring: name, permissions }, peer, permission, now)
        },
{
    law_association_effect(s, id, name, permissions, peer, permission, now);
    if s.allows(peer, id, permission, now) {
        let grants = s.grants_on(id);
        let i = choose|i: int| 0 <= i < grants.len() && s.confers(#[trigger] grants[i], peer, permission, now);
        assert(grants[i].ring != name);
    }
}

/// Associating a ring with a resource again replaces its permission set; it is as if only the
/// second association had been made.
pub proof fn law_association_replaces(
    s: RegistryState,
    id: Seq<u8>,
    name: Seq<char>,
    first: Set<Permission>,
    second: Set<Permission>,
)
    requires
        s.add_ring_to_resource(id, name, first) is Ok,
        s.add_ring_to_resource(id, name, second) is Ok,
    ensures
        s.add_ring_to_resource(id, name, first)->Ok_0.add_ring_to_resource(id, name, second)
            == s.add_ring_to_resource(id, name, second),
{
    let grants = s.grants_on(id);
    let mid = s.add_ring_to_resource(id, name, first)->Ok_0;
    lemma_grant_at(grants, name, first);
    let once = model::grant(grants, name, first);
    assert(mid.grants_on(id) == once);
    let i = choose|i: int| 0 <= i < once.len() && #[trigger] once[i] == (GrantState { ring: name, permissions: first });
    assert(once[i].ring == name);
    assert(model::granted(once, name));
    assert(model::grant(once, name, second) =~= model::grant(grants, name, second));
    assert(mid.add_ring_to_resource(id, name, second)->Ok_0 =~= s.add_ring_to_resource(id, name, second)->Ok_0);
}

/// Removing the associations of a resource denies everybody everything on it, and changes
/// nothing on other resources.
pub proof fn law_clear_denies(s: RegistryState, id: Seq<u8>)
    ensures
        forall|peer: Seq<u8>, permission: Permission, now: int|
            !s.clear_resource(id).allows(peer, id, permission, now),
        forall|other: Seq<u8>| other != id ==> #[trigger] s.clear_resource(id).grants_on(other) == s.grants_on(other),
        s.clear_resource(id).rings == s.rings,
{
}

/// A new ring has no members, and no other ring is touched; creating it again fails.
pub proof fn law_new_ring(s: RegistryState, name: Seq<char>)
    requires
        s.create_ring(name) is Ok,
    ensures
        s.create_ring(name)->Ok_0.rings[name] == Seq::<MemberState>::empty(),
        forall|other: Seq<char>| other != name && s.rings.contains_key(other) ==> {
            &&& #[trigger] s.create_ring(name)->Ok_0.rings.contains_key(other)
            &&& s.create_ring(name)->Ok_0.rings[other] == s.rings[other]
        },
        s.create_ring(name)->Ok_0.create_ring(name) == Err::<RegistryState, ErrorView>(
            ErrorView::RingAlreadyExists(name),
        ),
{
}

/// The memberships after a peer was added: those of other peers are as they were.
proof fn lemma_enrol_at(
    members: Seq<MemberState>,
    peer: Seq<u8>,
    label: Option<Seq<char>>,
    expires_at: Option<int>,
    now: int,
)
    ensures
        exists|i: int|
            0 <= i < model::enrol(members, peer, label, expires_at, now).len() && (#[trigger] model::enrol(
                members,
                peer,
                label,
                expires_at,
                now,
            )[i]).peer == peer,
        forall|i: int|
            0 <= i < members.len() ==> model::enrol(members, peer, label, expires_at, now)[i] == (if (
            #[trigger] members[i]).peer == peer {
                members[i].renewed(label, expires_at, now)
            } else {
                members[i]
            }),
{
    let next = model::enrol(members, peer, label, expires_at, now);
    if model::enrolled(members, peer) {
        let i = choose|i: int| 0 <= i < members.len() && (#[trigger] members[i]).peer == peer;
        assert(next[i].peer == peer);
    } else {
        assert(next[members.len() as int].peer == peer);
    }
}

/// A peer that is added without an expiry, or with one that is still to come, is a member at
/// once.
pub proof fn law_added_peer_is_member(
    s: RegistryState,
    name: Seq<char>,
    peer: Seq<u8>,
    label: Option<Seq<char>>,
    expires_at: Option<int>,
    now: int,
)
    requires
        s.rings.contains_key(name),
        expires_at matches Some(end) ==> now < end,
    ensures
        s.add_peer(name, peer, label, expires_at, now) is Ok,
        s.add_peer(name, peer, label, expires_at, now)->Ok_0.is_member(name, peer, now),
{
    let members = s.rings[name];
    let next = model::enrol(members, peer, label, expires_at, now);
    lemma_enrol_at(members, peer, label, expires_at, now);
    let i = choose|i: int| 0 <= i < next.len() && (#[trigger] next[i]).peer == peer;
    if i < members.len() {
        assert(next[i] == (if members[i].peer == peer {
            members[i].renewed(label, expires_at, now)
        } else {
            members[i]
        }));
    }
    assert(next[i].peer == peer && !next[i].expired(now));
}

/// What a ring grants on a resource, a peer holds as soon as it is added to the ring.
pub proof fn law_added_peer_holds_the_grants(
    s: RegistryState,
    name: Seq<char>,
    peer: Seq<u8>,
    label: Option<Seq<char>>,
    expires_at: Option<int>,
    now: int,
    id: Seq<u8>,
    g: int,
    permission: Permission,
)
    requires
        s.rings.contains_key(name),
        expires_at matches Some(end) ==> now < end,
        0 <= g < s.grants_on(id).len(),
        s.grants_on(id)[g].ring == name,
        s.grants_on(id)[g].permissions.contains(permission),
    ensures
        s.add_peer(name, peer, label, expires_at, now) is Ok,
        s.add_peer(name, peer, label, expires_at, now)->Ok_0.allows(peer, id, permission, now),
{
    law_added_peer_is_member(s, name, peer, label, expires_at, now);
    let next = s.add_peer(name, peer, label, expires_at, now)->Ok_0;
    assert(next.grants_on(id)[g] == s.grants_on(id)[g]);
    assert(next.confers(next.grants_on(id)[g], peer, permission, now));
}

/// Adding a peer to a ring touches no other peer's membership and no other ring; labels and
/// expiries are scoped to the ring.
pub proof fn law_add_is_scoped(
    s: RegistryState,
    name: Seq<char>,
    peer: Seq<u8>,
    label: Option<Seq<char>>,
    expires_at: Option<int>,
    now: int,
)
    requires
        s.rings.contains_key(name),
    ensures
        s.add_peer(name, peer, label, expires_at, now) is Ok,
        ({
            let next = s.add_peer(name, peer, label, expires_at, now)->Ok_0;
            &&& next.rings.dom() == s.rings.dom()
            &&& forall|other: Seq<char>| other != name ==> #[trigger] next.rings[other] == s.rings[other]
            &&& next.grants == s.grants
            &&& forall|other: Seq<u8>, then: int|
                other != peer ==> #[trigger] next.is_member(name, other, then) == s.is_member(name, other, then)
        }),
{
    let next = s.add_peer(name, peer, label, expires_at, now)->Ok_0;
    assert(next.rings.dom() =~= s.rings.dom());
    let before = s.rings[name];
    let after = next.rings[name];
    lemma_enrol_at(before, peer, label, expires_at, now);
    assert forall|other: Seq<u8>, then: int| other != peer implies #[trigger] next.is_member(name, other, then)
        == s.is_member(name, other, then) by {
        if model::active(before, other, then) {
            let i = choose|i: int|
                0 <= i < before.len() && (#[trigger] before[i]).peer == other && !before[i].expired(then);
            assert(after[i] == before[i]);
        }
        if model::active(after, other, then) {
            let i = choose|i: int|
                0 <= i < after.len() && (#[trigger] after[i]).peer == other && !after[i].expired(then);
            assert(i < before.len());
            assert(after[i] == (if before[i].peer == peer {
                before[i].renewed(label, expires_at, now)
            } else {
                before[i]
            }));
        }
    }
}

/// Adding a live member again updates its label and expiry where new ones are given, and
/// otherwise leaves them as they are: an expiry is never cleared.
pub proof fn law_readd_live(
    s: RegistryState,
    name: Seq<char>,
    i: int,
    label: Option<Seq<char>>,
    expires_at: Option<int>,
    now: int,
)
    requires
        s.rings.contains_key(name),
        0 <= i < s.rings[name].len(),
        !s.rings[name][i].expired(now),
    ensures
        ({
            let member = s.rings[name][i];
            let next = s.add_peer(name, member.peer, label, expires_at, now)->Ok_0;
            &&& s.add_peer(name, member.peer, label, expires_at, now) is Ok
            &&& next.rings[name].len() == s.rings[name].len()
            &&& next.rings[name][i] == MemberState {
                peer: member.peer,
                label: if label is Some { label } else { member.label },
                expires_at: if expires_at is Some { expires_at } else { member.expires_at },
            }
        }),
{
    lemma_enrol_at(s.rings[name], s.rings[name][i].peer, label, expires_at, now);
}

/// Adding a peer whose membership is over starts a fresh membership: nothing of the old label
/// and expiry remains.
pub proof fn law_readd_expired(
    s: RegistryState,
    name: Seq<char>,
    i: int,
    label: Option<Seq<char>>,
    expires_at: Option<int>,
    now: int,
)
    requires
        s.rings.contains_key(name),
        0 <= i < s.rings[name].len(),
        s.rings[name][i].expired(now),
    ensures
        ({
            let peer = s.rings[name][i].peer;
            let next = s.add_peer(name, peer, label, expires_at, now)->Ok_0;
            &&& s.add_peer(name, peer, label, expires_at, now) is Ok
            &&& next.rings[name].len() == s.rings[name].len()
            &&& next.rings[name][i] == MemberState { peer, label, expires_at }
        }),
{
    lemma_enrol_at(s.rings[name], s.rings[name][i].peer, label, expires_at, now);
}

/// Adding a peer twice with the same arguments is the same as adding it once.
///
/// The exception: a live membership with a label, to which an expiry is given that has already
/// passed, and no label. The first call keeps the label and the second, which finds an expired
/// membership, drops it.
pub proof fn law_add_is_idempotent(
    s: RegistryState,
    name: Seq<char>,
    peer: Seq<u8>,
    label: Option<Seq<char>>,
    expires_at: Option<int>,
    now: int,
)
    requires
        s.rings.contains_key(name),
        label is None && (expires_at matches Some(end) && now >= end) ==> forall|i: int|
            0 <= i < s.rings[name].len() && (#[trigger] s.rings[name][i]).peer == peer && !s.rings[name][i].expired(
                now,
            ) ==> s.rings[name][i].label is None,
    ensures
        ({
            let once = s.add_peer(name, peer, label, expires_at, now);
            &&& once is Ok
            &&& once->Ok_0.add_peer(name, peer, label, expires_at, now) == once
        }),
{
    let before = s.rings[name];
    let once = s.add_peer(name, peer, label, expires_at, now)->Ok_0;
    let mid = once.rings[name];
    lemma_enrol_at(before, peer, label, expires_at, now);
    let k = choose|k: int| 0 <= k < mid.len() && (#[trigger] mid[k]).peer == peer;
    assert(model::enrolled(mid, peer));
    let after = model::enrol(mid, peer, label, expires_at, now);
    assert forall|i: int| 0 <= i < mid.len() implies #[trigger] after[i] == mid[i] by {
        if i < before.len() {
            assert(mid[i] == (if before[i].peer == peer {
                before[i].renewed(label, expires_at, now)
            } else {
                before[i]
            }));
        }
    }
    assert(after =~= mid);
    assert(once.add_peer(name, peer, label, expires_at, now)->Ok_0 =~= once);
}

/// An expiry before the epoch has passed at any time since the epoch, whatever the backend keeps
/// of it.
pub proof fn law_expiry_before_the_epoch_has_passed<R: Registry>(end: int, now: int)
    requires
        end < 0 <= now,
    ensures
        R::kept_expiry(Some(end)) matches Some(kept) && now >= kept,
{
    R::kept_expiry_is_near(Some(end));
}

/// A removed peer has no membership in the ring, at any time; every other peer and every
/// other ring is as before.
pub proof fn law_removed_peer_is_gone(s: RegistryState, name: Seq<char>, peer: Seq<u8>)
    requires
        s.rings.contains_key(name),
    ensures
        s.remove_peer(name, peer) is Ok,
        ({
            let next = s.remove_peer(name, peer)->Ok_0;
            &&& !model::enrolled(next.rings[name], peer)
            &&& next.rings.dom() == s.rings.dom()
            &&& forall|other: Seq<char>| other != name ==> #[trigger] next.rings[other] == s.rings[other]
            &&& next.grants == s.grants
            &&& forall|other: Seq<u8>, now: int| #[trigger]
                next.is_member(name, other, now) <==> other != peer && s.is_member(name, other, now)
        }),
{
    let next = s.remove_peer(name, peer)->Ok_0;
    assert(next.rings.dom() =~= s.rings.dom());
    lemma_strike_active(s.rings[name], peer, peer, 0);
    assert forall|other: Seq<u8>, now: int| #[trigger] next.is_member(name, other, now) <==> other != peer
        && s.is_member(name, other, now) by {
        lemma_strike_active(s.rings[name], peer, other, now);
    }
}

/// Removing a peer that has no membership in the ring changes nothing.
pub proof fn law_remove_absent_is_noop(s: RegistryState, name: Seq<char>, peer: Seq<u8>)
    requires
        s.rings.contains_key(name),
        !model::enrolled(s.rings[name], peer),
    ensures
        s.remove_peer(name, peer) == Ok::<RegistryState, ErrorView>(s),
{
    let members = s.rings[name];
    assert forall|i: int| 0 <= i < members.len() implies (#[trigger] members[i]).peer != peer by {}
    lemma_filter_all(members, |m: MemberState| m.peer != peer);
    assert(s.remove_peer(name, peer)->Ok_0 =~= s);
}

/// Filtering by what holds of every membership changes nothing.
proof fn lemma_filter_all(members: Seq<MemberState>, pred: spec_fn(MemberState) -> bool)
    requires
        forall|i: int| 0 <= i < members.len() ==> pred(#[trigger] members[i]),
    ensures
        members.filter(pred) == members,
    decreases members.len(),
{
    reveal(Seq::filter);
    if members.len() > 0 {
        let init = members.drop_last();
        assert forall|i: int| 0 <= i < init.len() implies pred(#[trigger] init[i]) by {
            assert(init[i] == members[i]);
        }
        lemma_filter_all(init, pred);
        assert(pred(members[members.len() - 1]));
        assert(members.filter(pred) =~= members);
    } else {
        assert(members.filter(pred) =~= members);
    }
}

/// A peer that was removed and is added again starts a fresh membership, last in the ring.
pub proof fn law_add_after_remove_is_fresh(
    s: RegistryState,
    name: Seq<char>,
    peer: Seq<u8>,
    label: Option<Seq<char>>,
    expires_at: Option<int>,
    now: int,
)
    requires
        s.rings.contains_key(name),
    ensures
        ({
            let gone = s.remove_peer(name, peer)->Ok_0;
            let back = gone.add_peer(name, peer, label, expires_at, now)->Ok_0;
            &&& s.remove_peer(name, peer) is Ok
            &&& gone.add_peer(name, peer, label, expires_at, now) is Ok
            &&& back.rings[name] == gone.rings[name].push(MemberState { peer, label, expires_at })
        }),
{
    law_removed_peer_is_gone(s, name, peer);
}

/// A ring lists a peer exactly if the peer is a current member of it.
pub proof fn law_listed_are_members(s: RegistryState, name: Seq<char>, peer: Seq<u8>, now: int)
    requires
        s.rings.contains_key(name),
    ensures
        s.ring_peers(name, now) is Ok,
        model::enrolled(s.ring_peers(name, now)->Ok_0, peer) <==> s.is_member(name, peer, now),
{
    let members = s.rings[name];
    let listed = model::current(members, now);
    let pred = |m: MemberState| !m.expired(now);
    if model::enrolled(listed, peer) {
        let i = choose|i: int| 0 <= i < listed.len() && (#[trigger] listed[i]).peer == peer;
        assert(listed.contains(listed[i]));
        lemma_filter_members(members, pred, listed[i]);
        let j = choose|j: int| 0 <= j < members.len() && members[j] == listed[i];
        assert(members[j].peer == peer);
    }
    if model::active(members, peer, now) {
        let i = choose|i: int|
            0 <= i < members.len() && (#[trigger] members[i]).peer == peer && !members[i].expired(now);
        assert(members.contains(members[i]));
        lemma_filter_members(members, pred, members[i]);
        let j = choose|j: int| 0 <= j < listed.len() && listed[j] == members[i];
        assert(listed[j].peer == peer);
    }
}

/// An expired membership counts as absent whether or not it is ever evicted: eviction changes
/// nobody's permissions, then or later.
pub proof fn law_evict_keeps_permissions(
    s: RegistryState,
    then: int,
    peer: Seq<u8>,
    id: Seq<u8>,
    permission: Permission,
    now: int,
)
    requires
        now >= then,
    ensures
        s.evict(then).allows(peer, id, permission, now) == s.allows(peer, id, permission, now),
{
    let next = s.evict(then);
    let grants = s.grants_on(id);
    assert(next.grants_on(id) == grants);
    assert forall|ring: Seq<char>| next.is_member(ring, peer, now) == s.is_member(ring, peer, now) by {
        if s.rings.contains_key(ring) {
            lemma_current_active(s.rings[ring], then, peer, now);
        }
    }
    if s.allows(peer, id, permission, now) {
        let i = choose|i: int| 0 <= i < grants.len() && s.confers(#[trigger] grants[i], peer, permission, now);
        assert(next.confers(next.grants_on(id)[i], peer, permission, now));
    }
    if next.allows(peer, id, permission, now) {
        let i = choose|i: int|
            0 <= i < grants.len() && next.confers(#[trigger] next.grants_on(id)[i], peer, permission, now);
        assert(s.confers(grants[i], peer, permission, now));
    }
}

/// Eviction changes no listing, then or later.
pub proof fn law_evict_keeps_listings(s: RegistryState, then: int, name: Seq<char>, now: int)
    requires
        now >= then,
    ensures
        s.evict(then).ring_peers(name, now) == s.ring_peers(name, now),
{
    if s.rings.contains_key(name) {
        lemma_current_twice(s.rings[name], then, now);
    }
}

/// Dropping what is over at `then`, and after that what is over at a later `now`, is dropping
/// what is over at `now`.
proof fn lemma_current_twice(members: Seq<MemberState>, then: int, now: int)
    requires
        now >= then,
    ensures
        model::current(model::current(members, then), now) == model::current(members, now),
    decreases members.len(),
{
    reveal(Seq::filter);
    if members.len() > 0 {
        let init = members.drop_last();
        let last = members.last();
        lemma_current_twice(init, then, now);
        let kept = model::current(init, then);
        if !last.expired(then) {
            assert(model::current(members, then) =~= kept.push(last));
            assert(kept.push(last).drop_last() =~= kept);
        }
    }
}

/// After an eviction nothing is left to evict, and evicting again changes nothing.
pub proof fn law_evict_is_idempotent(s: RegistryState, now: int)
    ensures
        s.evict(now).evict(now) == s.evict(now),
        forall|ring: Seq<char>, peer: Seq<u8>| !s.evict(now).lapsed(ring, peer, now),
{
    let next = s.evict(now);
    assert forall|name: Seq<char>| next.evict(now).rings.contains_key(name) implies next.evict(now).rings[name]
        == next.rings[name] by {
        lemma_current_twice(s.rings[name], now, now);
    }
    assert(next.evict(now) =~= next);
    assert forall|ring: Seq<char>, peer: Seq<u8>| !next.lapsed(ring, peer, now) by {
        if next.lapsed(ring, peer, now) {
            let members = next.rings[ring];
            let i = choose|i: int|
                0 <= i < members.len() && (#[trigger] members[i]).peer == peer && members[i].expired(now);
            assert(members.contains(members[i]));
            lemma_filter_members(s.rings[ring], |m: MemberState| !m.expired(now), members[i]);
        }
    }
}

} // verus!
