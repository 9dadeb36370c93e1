//! What each operation of a registry does, said of single memberships, grants and names.
//!
//! The first laws speak of [`RegistryState`], the others of what the methods of a [`Registry`]
//! return, whatever the backend.

use vstd::prelude::*;

use crate::endpoint::EndpointId;
use crate::error::{Error, ErrorView};
use crate::model;
use crate::model::{GrantState, MemberState, RegistryState};
use crate::registry;
use crate::registry::{EvictedMembership, Permission, Registry, ResourceId, RingMember};
use crate::ring;
use crate::ring::Ring;
use crate::time::Timestamp;

verus! {

/// A peer holds a permission on a resource, whichever it is, if and only if a grant on that
/// resource has this very permission in its set, and the ring of that grant is the open ring or
/// has the peer as a member whose membership never ends or ends later.
pub proof fn law_who_holds_a_permission(
    s: RegistryState,
    peer: Seq<u8>,
    id: Seq<u8>,
    permission: Permission,
    now: int,
)
    ensures
        s.allows(peer, id, permission, now) <==> s.grants.contains_key(id) && exists|i: int| {
            &&& 0 <= i < s.grants[id].len()
            &&& (#[trigger] s.grants[id][i]).permissions.contains(permission)
            &&& {
                ||| s.grants[id][i].ring == seq!['o', 'p', 'e', 'n']
                ||| s.rings.contains_key(s.grants[id][i].ring) && exists|j: int| {
                    &&& 0 <= j < s.rings[s.grants[id][i].ring].len()
                    &&& (#[trigger] s.rings[s.grants[id][i].ring][j]).peer == peer
                    &&& s.rings[s.grants[id][i].ring][j].expires_at matches Some(end) ==> now < end
                }
            }
        },
{
    ring::lemma_open_name_valid();
    let grants = s.grants_on(id);
    assert forall|i: int| 0 <= i < grants.len() implies (#[trigger] s.is_member(grants[i].ring, peer, now)
        <==> s.rings.contains_key(grants[i].ring) && exists|j: int| {
        &&& 0 <= j < s.rings[grants[i].ring].len()
        &&& (#[trigger] s.rings[grants[i].ring][j]).peer == peer
        &&& s.rings[grants[i].ring][j].expires_at matches Some(end) ==> now < end
    }) by {
        let members = s.rings[grants[i].ring];
        if s.is_member(grants[i].ring, peer, now) {
            let j = choose|j: int|
                0 <= j < members.len() && (#[trigger] members[j]).peer == peer && !members[j].expired(now);
            assert(s.rings[grants[i].ring][j].peer == peer);
        }
    }
    if s.allows(peer, id, permission, now) {
        let i = choose|i: int|
            0 <= i < s.grants_on(id).len() && s.confers(#[trigger] s.grants_on(id)[i], peer, permission, now);
        assert(s.is_member(grants[i].ring, peer, now) || s.grants[id][i].ring == seq!['o', 'p', 'e', 'n']);
        assert(s.grants[id][i].permissions.contains(permission));
    }
    if s.grants.contains_key(id) {
        assert forall|i: int| {
            &&& 0 <= i < s.grants[id].len()
            &&& (#[trigger] s.grants[id][i]).permissions.contains(permission)
            &&& {
                ||| s.grants[id][i].ring == seq!['o', 'p', 'e', 'n']
                ||| s.rings.contains_key(s.grants[id][i].ring) && exists|j: int| {
                    &&& 0 <= j < s.rings[s.grants[id][i].ring].len()
                    &&& (#[trigger] s.rings[s.grants[id][i].ring][j]).peer == peer
                    &&& s.rings[s.grants[id][i].ring][j].expires_at matches Some(end) ==> now < end
                }
            }
        } implies s.allows(peer, id, permission, now) by {
            assert(s.is_member(grants[i].ring, peer, now) || grants[i].ring == ring::OPEN_RING_NAME@);
            assert(s.confers(s.grants_on(id)[i], peer, permission, now));
        }
    }
}

/// An empty registry has the open ring, without members, and nothing else.
pub proof fn law_initial()
    ensures
        RegistryState::initial().rings == Map::<Seq<char>, Seq<MemberState>>::empty().insert(
            seq!['o', 'p', 'e', 'n'],
            Seq::empty(),
        ),
        RegistryState::initial().grants == Map::<Seq<u8>, Seq<GrantState>>::empty(),
{
    ring::lemma_open_name_valid();
}

/// What a well-formed registry is: the open ring exists; ring names are not empty and hold no
/// white space and no NUL; nobody is twice in a ring; every resource that is there has grants,
/// each of another existing ring and of some permission, and the open ring grants at most `Read`.
pub proof fn law_well_formed(s: RegistryState)
    ensures
        s.wf() <==> {
            &&& s.rings.contains_key(seq!['o', 'p', 'e', 'n'])
            &&& forall|name: Seq<char>| #[trigger]
                s.rings.contains_key(name) ==> {
                    &&& name.len() > 0
                    &&& ring::clean(name)
                    &&& forall|i: int, j: int|
                        0 <= i < j < s.rings[name].len() ==> (#[trigger] s.rings[name][i]).peer != (
                        #[trigger] s.rings[name][j]).peer
                }
            &&& forall|id: Seq<u8>| #[trigger]
                s.grants.contains_key(id) ==> {
                    &&& s.grants[id].len() > 0
                    &&& forall|i: int, j: int|
                        0 <= i < j < s.grants[id].len() ==> (#[trigger] s.grants[id][i]).ring != (
                        #[trigger] s.grants[id][j]).ring
                    &&& forall|i: int|
                        0 <= i < s.grants[id].len() ==> {
                            &&& s.rings.contains_key((#[trigger] s.grants[id][i]).ring)
                            &&& {
                                ||| s.grants[id][i].permissions.contains(Permission::Read)
                                ||| s.grants[id][i].permissions.contains(Permission::Write)
                                ||| s.grants[id][i].permissions.contains(Permission::Delete)
                            }
                            &&& s.grants[id][i].ring == seq!['o', 'p', 'e', 'n'] ==> {
                                &&& !s.grants[id][i].permissions.contains(Permission::Write)
                                &&& !s.grants[id][i].permissions.contains(Permission::Delete)
                            }
                        }
                }
        },
{
    ring::lemma_open_name_valid();
    assert forall|set: Set<Permission>| true implies #[trigger] model::grants_something(set) == (set.contains(
        Permission::Read,
    ) || set.contains(Permission::Write) || set.contains(Permission::Delete)) by {
        lemma_some_permission(set);
    }
    assert forall|set: Set<Permission>| true implies #[trigger] model::read_only(set) == (!set.contains(
        Permission::Write,
    ) && !set.contains(Permission::Delete)) by {
        lemma_some_permission(set);
    }
}

/// Which sets hold a permission, and which none but `Read`.
proof fn lemma_some_permission(set: Set<Permission>)
    ensures
        model::grants_something(set) == (set.contains(Permission::Read) || set.contains(Permission::Write)
            || set.contains(Permission::Delete)),
        model::read_only(set) == (!set.contains(Permission::Write) && !set.contains(Permission::Delete)),
{
    if model::grants_something(set) {
        let p = choose|p: Permission| #[trigger] set.contains(p);
        match p {
            Permission::Read => {},
            Permission::Write => {},
            Permission::Delete => {},
        }
    }
    if !set.contains(Permission::Write) && !set.contains(Permission::Delete) {
        assert forall|p: Permission| set.contains(p) implies p == Permission::Read by {
            match p {
                Permission::Read => {},
                Permission::Write => {},
                Permission::Delete => {},
            }
        }
    }
}

/// A ring can be created under every name that is not empty, holds no white space and no NUL, is
/// not `open` and is not taken. It has no members then, and nothing else changes. Any other name
/// is refused for the first of these reasons that applies.
pub proof fn law_create_ring(s: RegistryState, name: Seq<char>)
    ensures
        s.create_ring(name) == if name.len() == 0 {
            Err(ErrorView::RingNameEmpty)
        } else if !ring::clean(name) {
            Err(ErrorView::RingNameInvalidChars)
        } else if name == seq!['o', 'p', 'e', 'n'] {
            Err(ErrorView::RingNameReserved(seq!['o', 'p', 'e', 'n']))
        } else if s.rings.contains_key(name) {
            Err(ErrorView::RingAlreadyExists(name))
        } else {
            Ok(RegistryState { rings: s.rings.insert(name, Seq::empty()), grants: s.grants })
        },
{
    ring::lemma_open_name_valid();
}

/// Adding a peer to a ring that exists puts a new member last, with exactly the label and the
/// expiry that are given. One who is there already keeps its place: a label or an expiry that is
/// given replaces the one that is there, and one that is not given leaves it, or drops it if the
/// membership was over. Nothing else changes.
pub proof fn law_add_peer(
    s: RegistryState,
    name: Seq<char>,
    peer: Seq<u8>,
    label: Option<Seq<char>>,
    expires_at: Option<int>,
    now: int,
)
    ensures
        s.rings.contains_key(name) <==> s.add_peer(name, peer, label, expires_at, now) is Ok,
        !s.rings.contains_key(name) ==> s.add_peer(name, peer, label, expires_at, now) == Err::<
            RegistryState,
            ErrorView,
        >(ErrorView::RingNotFound(name)),
        s.add_peer(name, peer, label, expires_at, now) matches Ok(next) ==> {
            let before = s.rings[name];
            let after = next.rings[name];
            &&& next.grants == s.grants
            &&& next.rings.dom() == s.rings.dom()
            &&& forall|other: Seq<char>|
                other != name && s.rings.contains_key(other) ==> #[trigger] next.rings[other] == s.rings[other]
            &&& (forall|i: int| 0 <= i < before.len() ==> (#[trigger] before[i]).peer != peer) ==> after
                == before.push(MemberState { peer, label, expires_at })
            &&& (exists|i: int| 0 <= i < before.len() && (#[trigger] before[i]).peer == peer) ==> {
                &&& after.len() == before.len()
                &&& forall|i: int|
                    0 <= i < before.len() && (#[trigger] before[i]).peer != peer ==> after[i] == before[i]
                &&& forall|i: int|
                    0 <= i < before.len() && (#[trigger] before[i]).peer == peer ==> {
                        let over = before[i].expires_at is Some && before[i].expires_at->Some_0 <= now;
                        &&& after[i].peer == peer
                        &&& after[i].label == match label {
                            Some(text) => Some(text),
                            None => if over {
                                None
                            } else {
                                before[i].label
                            },
                        }
                        &&& after[i].expires_at == match expires_at {
                            Some(end) => Some(end),
                            None => if over {
                                None
                            } else {
                                before[i].expires_at
                            },
                        }
                    }
            }
        },
{
    if s.rings.contains_key(name) {
        let next = s.add_peer(name, peer, label, expires_at, now)->Ok_0;
        assert(next.rings.dom() =~= s.rings.dom());
    }
}

/// Removing a peer from a ring that exists takes out its membership, whether it is over or not,
/// and leaves the others in their order. Nothing else changes.
pub proof fn law_remove_peer(s: RegistryState, name: Seq<char>, peer: Seq<u8>)
    ensures
        s.remove_peer(name, peer) == if s.rings.contains_key(name) {
            Ok(
                RegistryState {
                    rings: s.rings.insert(name, s.rings[name].filter(|m: MemberState| m.peer != peer)),
                    grants: s.grants,
                },
            )
        } else {
            Err(ErrorView::RingNotFound(name))
        },
{
    let keep = |m: MemberState| m.peer != peer;
    assert(model::strike(s.rings[name], peer) =~= s.rings[name].filter(keep));
}

/// The members of a ring are, in their order, those whose membership never ends or ends later.
pub proof fn law_ring_peers(s: RegistryState, name: Seq<char>, now: int)
    ensures
        s.ring_peers(name, now) == if s.rings.contains_key(name) {
            Ok(
                s.rings[name].filter(
                    |m: MemberState|
                        match m.expires_at {
                            Some(end) => now < end,
                            None => true,
                        },
                ),
            )
        } else {
            Err(ErrorView::RingNotFound(name))
        },
{
    lemma_current(s.rings[name], now);
}

/// The memberships that are not over, by their expiries.
proof fn lemma_current(members: Seq<MemberState>, now: int)
    ensures
        model::current(members, now) == members.filter(
            |m: MemberState|
                match m.expires_at {
                    Some(end) => now < end,
                    None => true,
                },
        ),
{
    let there = |m: MemberState|
        match m.expires_at {
            Some(end) => now < end,
            None => true,
        };
    assert(there =~= (|m: MemberState| !m.expired(now)));
}

/// Associating a ring with a resource is refused if the set of permissions is empty, if it is the
/// open ring and anything but `Read` is in the set, and if there is no such ring, in this order.
/// Otherwise the ring has exactly that set on the resource: in place of the set that it had, or
/// last. Nothing else changes.
pub proof fn law_add_ring_to_resource(
    s: RegistryState,
    id: Seq<u8>,
    name: Seq<char>,
    permissions: Set<Permission>,
    before: Seq<GrantState>,
)
    requires
        s.grants.contains_key(id) ==> before == s.grants[id],
        !s.grants.contains_key(id) ==> before == Seq::<GrantState>::empty(),
    ensures
        ({
            let outcome = s.add_ring_to_resource(id, name, permissions);
            let read = permissions.contains(Permission::Read);
            let more = permissions.contains(Permission::Write) || permissions.contains(Permission::Delete);
            if !read && !more {
                outcome == Err::<RegistryState, ErrorView>(ErrorView::EmptyPermissionSet)
            } else if name == seq!['o', 'p', 'e', 'n'] && more {
                outcome == Err::<RegistryState, ErrorView>(ErrorView::OpenRingReadOnly)
            } else if !s.rings.contains_key(name) {
                outcome == Err::<RegistryState, ErrorView>(ErrorView::RingNotFound(name))
            } else {
                &&& outcome is Ok
                &&& outcome->Ok_0.rings == s.rings
                &&& outcome->Ok_0.grants == s.grants.insert(id, outcome->Ok_0.grants[id])
                &&& (forall|i: int| 0 <= i < before.len() ==> (#[trigger] before[i]).ring != name)
                    ==> outcome->Ok_0.grants[id] == before.push(GrantState { ring: name, permissions })
                &&& (exists|i: int| 0 <= i < before.len() && (#[trigger] before[i]).ring == name) ==> {
                    &&& outcome->Ok_0.grants[id].len() == before.len()
                    &&& forall|i: int|
                        0 <= i < before.len() ==> outcome->Ok_0.grants[id][i] == if (
                        #[trigger] before[i]).ring == name {
                            GrantState { ring: name, permissions }
                        } else {
                            before[i]
                        }
                }
            }
        }),
{
    ring::lemma_open_name_valid();
    lemma_some_permission(permissions);
    if s.add_ring_to_resource(id, name, permissions) is Ok {
        let next = s.add_ring_to_resource(id, name, permissions)->Ok_0;
        assert(before == s.grants_on(id));
        assert(next.grants =~= s.grants.insert(id, next.grants[id]));
        assert(model::granted(before, name) <==> exists|i: int|
            0 <= i < before.len() && (#[trigger] before[i]).ring == name);
    }
}

/// Removing the associations of a resource takes out all its grants, and changes nothing else.
pub proof fn law_clear_resource(s: RegistryState, id: Seq<u8>)
    ensures
        s.clear_resource(id) == (RegistryState { rings: s.rings, grants: s.grants.remove(id) }),
{
}

/// A membership has lapsed if it ends at that time or has ended before. Eviction takes exactly
/// these out of every ring, leaves the others in their order, and removes no ring and no grant.
pub proof fn law_evict(s: RegistryState, now: int)
    ensures
        s.evict(now).grants == s.grants,
        s.evict(now).rings.dom() == s.rings.dom(),
        forall|name: Seq<char>| #[trigger]
            s.rings.contains_key(name) ==> s.evict(now).rings[name] == s.rings[name].filter(
                |m: MemberState|
                    match m.expires_at {
                        Some(end) => now < end,
                        None => true,
                    },
            ),
        forall|name: Seq<char>, peer: Seq<u8>| #[trigger]
            s.lapsed(name, peer, now) <==> s.rings.contains_key(name) && exists|i: int| {
                &&& 0 <= i < s.rings[name].len()
                &&& (#[trigger] s.rings[name][i]).peer == peer
                &&& s.rings[name][i].expires_at matches Some(end) && end <= now
            },
{
    assert(s.evict(now).rings.dom() =~= s.rings.dom());
    assert forall|name: Seq<char>| #[trigger] s.rings.contains_key(name) implies s.evict(now).rings[name]
        == s.rings[name].filter(
        |m: MemberState|
            match m.expires_at {
                Some(end) => now < end,
                None => true,
            },
    ) by {
        lemma_current(s.rings[name], now);
    }
    assert forall|name: Seq<char>, peer: Seq<u8>| #[trigger] s.lapsed(name, peer, now) implies s.rings.contains_key(name)
        && exists|i: int| {
        &&& 0 <= i < s.rings[name].len()
        &&& (#[trigger] s.rings[name][i]).peer == peer
        &&& s.rings[name][i].expires_at matches Some(end) && end <= now
    } by {
        let i = choose|i: int|
            0 <= i < s.rings[name].len() && (#[trigger] s.rings[name][i]).peer == peer && s.rings[name][i].expired(now);
        assert(s.rings[name][i].peer == peer);
    }
}

/// The members that a registry lists are those of the ring whose membership is not over, each with
/// its label and its expiry, in the order in which they were added.
pub proof fn law_listed_peers<R: Registry>(
    r: &R,
    name: &str,
    now: Timestamp,
    result: Result<Vec<RingMember>, Error>,
    kept: Seq<MemberState>,
)
    requires
        r.coherent(),
        call_ensures(<R as Registry>::list_ring_peers_at, (r, name, now), result),
        kept == r.state().rings[name@].filter(
            |m: MemberState|
                match m.expires_at {
                    Some(end) => now@ < end,
                    None => true,
                },
        ),
    ensures
        R::reliable() ==> result !is Err || result->Err_0 !is Storage,
        result matches Ok(listed) ==> {
            &&& r.state().rings.contains_key(name@)
            &&& listed@.len() == kept.len()
            &&& forall|i: int|
                0 <= i < kept.len() ==> {
                    &&& (#[trigger] listed@[i]).peer@ == kept[i].peer
                    &&& listed@[i].label is Some <==> kept[i].label is Some
                    &&& listed@[i].label matches Some(text) ==> kept[i].label == Some(text@)
                    &&& listed@[i].expires_at is Some <==> kept[i].expires_at is Some
                    &&& listed@[i].expires_at matches Some(end) ==> kept[i].expires_at == Some(end@)
                }
        },
        result matches Err(e) ==> e is Storage || !r.state().rings.contains_key(name@) && (e matches
            Error::RingNotFound(missing) && missing@ == name@),
{
    law_ring_peers(r.state(), name@, now@);
    let outcome = r.state().ring_peers(name@, now@);
    if result is Ok {
        let listed = result->Ok_0@;
        let said = registry::members_of(listed);
        assert(said == kept);
        assert forall|i: int| 0 <= i < kept.len() implies (#[trigger] listed[i])@ == kept[i] by {
            assert(said[i] == listed[i]@);
        }
    }
}

/// The members that a registry lists where no time is told are those at a time that is a reading of
/// the wall clock.
pub proof fn law_listed_peers_now<R: Registry>(r: &R, name: &str, result: Result<Vec<RingMember>, Error>)
    requires
        r.coherent(),
        call_ensures(<R as Registry>::list_ring_peers, (r, name), result),
        result is Ok,
    ensures
        exists|now: Timestamp| #[trigger]
            call_ensures(Timestamp::now, (), now) && r.state().ring_peers(name@, now@) == Ok::<
                Seq<MemberState>,
                ErrorView,
            >(registry::members_of(result->Ok_0@)),
{
}

/// The rings that a registry lists are the open ring first, and every other ring once.
pub proof fn law_listed_rings<R: Registry>(r: &R, result: Result<Vec<Ring>, Error>)
    requires
        r.coherent(),
        call_ensures(<R as Registry>::list_rings, (r,), result),
    ensures
        R::reliable() ==> result is Ok,
        result matches Err(e) ==> e is Storage,
        result matches Ok(rings) ==> {
            &&& rings@.len() > 0
            &&& rings@[0]@ == seq!['o', 'p', 'e', 'n']
            &&& forall|i: int, j: int|
                0 <= i < rings@.len() && 0 <= j < rings@.len() && (#[trigger] rings@[i])@ == (
                #[trigger] rings@[j])@ ==> i == j
            &&& forall|name: Seq<char>| #[trigger]
                r.state().rings.contains_key(name) <==> exists|i: int|
                    0 <= i < rings@.len() && (#[trigger] rings@[i])@ == name
        },
{
    ring::lemma_open_name_valid();
}

/// The grants that are listed for a resource are its rings in the order in which they were
/// associated, each with the permissions that it grants and no others.
pub proof fn law_listed_grants(listed: Seq<(Ring, Vec<Permission>)>, s: RegistryState, id: Seq<u8>)
    ensures
        !s.grants.contains_key(id) ==> (registry::lists_grants(listed, s, id) <==> listed.len() == 0),
        s.grants.contains_key(id) ==> (registry::lists_grants(listed, s, id) <==> {
            &&& listed.len() == s.grants[id].len()
            &&& forall|i: int|
                0 <= i < s.grants[id].len() ==> {
                    &&& (#[trigger] listed[i]).0@ == s.grants[id][i].ring
                    &&& forall|p: Permission| #[trigger]
                        listed[i].1@.contains(p) <==> s.grants[id][i].permissions.contains(p)
                }
        }),
{
    assert forall|i: int| 0 <= i < listed.len() && i < s.grants_on(id).len() implies ((#[trigger] listed[i]).1@.to_set()
        == s.grants_on(id)[i].permissions <==> forall|p: Permission| #[trigger]
        listed[i].1@.contains(p) <==> s.grants_on(id)[i].permissions.contains(p)) by {
        let list = listed[i].1@;
        assert(forall|p: Permission| #[trigger] list.contains(p) <==> list.to_set().contains(p));
        if forall|p: Permission| #[trigger] list.contains(p) <==> s.grants_on(id)[i].permissions.contains(p) {
            assert(list.to_set() =~= s.grants_on(id)[i].permissions);
        }
    }
}

/// A write that succeeded has made the registry what the outcome says. One that was refused has
/// changed nothing and returns the error of the outcome. One that the storage failed has done one
/// or the other as a whole.
pub proof fn law_writes_follow_their_outcome(
    result: Result<(), Error>,
    outcome: Result<RegistryState, ErrorView>,
    before: RegistryState,
    after: RegistryState,
)
    requires
        model::follows(result, outcome, before, after),
    ensures
        result is Ok ==> outcome == Ok::<RegistryState, ErrorView>(after),
        result is Err ==> after == before || (result->Err_0 is Storage && outcome == Ok::<RegistryState, ErrorView>(
            after,
        )),
        result is Err && result->Err_0 !is Storage ==> outcome is Err && match (result->Err_0, outcome->Err_0) {
            (Error::RingNameEmpty, ErrorView::RingNameEmpty) => true,
            (Error::RingNameInvalidChars, ErrorView::RingNameInvalidChars) => true,
            (Error::RingNameReserved(a), ErrorView::RingNameReserved(b)) => a@ == b,
            (Error::RingAlreadyExists(a), ErrorView::RingAlreadyExists(b)) => a@ == b,
            (Error::RingNotFound(a), ErrorView::RingNotFound(b)) => a@ == b,
            (Error::ResourceIdTooLong(a), ErrorView::ResourceIdTooLong(b)) => a == b,
            (Error::UnknownStatusByte(a), ErrorView::UnknownStatusByte(b)) => a == b,
            (Error::UnknownOperationByte(a), ErrorView::UnknownOperationByte(b)) => a == b,
            (Error::OpenRingReadOnly, ErrorView::OpenRingReadOnly) => true,
            (Error::EmptyPermissionSet, ErrorView::EmptyPermissionSet) => true,
            _ => false,
        },
{
}

/// What creating a ring does is what its result says, and each refusal has its own reason.
pub proof fn law_created_ring<R: Registry>(r: &mut R, name: &str, result: Result<(), Error>)
    requires
        old(r).coherent(),
        call_ensures(<R as Registry>::create_ring, (r, name), result),
    ensures
        final(r).coherent(),
        final(r).ready(),
        R::reliable() ==> (result matches Err(e) ==> e !is Storage),
        result is Ok ==> old(r).state().create_ring(name@) == Ok::<RegistryState, ErrorView>(final(r).state()),
        result matches Err(Error::Storage(_)) ==> final(r).state() == old(r).state() || old(r).state().create_ring(
            name@,
        ) == Ok::<RegistryState, ErrorView>(final(r).state()),
        result matches Err(e) ==> e is Storage || {
            &&& final(r).state() == old(r).state()
            &&& match e {
                Error::RingNameEmpty => name@.len() == 0,
                Error::RingNameInvalidChars => name@.len() > 0 && !ring::clean(name@),
                Error::RingNameReserved(word) => name@ == seq!['o', 'p', 'e', 'n'] && word@ == name@,
                Error::RingAlreadyExists(taken) => old(r).state().rings.contains_key(name@) && taken@ == name@,
                _ => false,
            }
        },
{
    ring::lemma_open_name_valid();
}

/// What adding a peer does is what its result says; the only refusal is that the ring is missing.
pub proof fn law_added_peer<R: Registry>(
    r: &mut R,
    name: &str,
    peer: EndpointId,
    label: Option<&str>,
    expires_at: Option<Timestamp>,
    now: Timestamp,
    given: (Option<Seq<char>>, Option<int>),
    result: Result<(), Error>,
)
    requires
        old(r).coherent(),
        call_ensures(<R as Registry>::add_peer_to_ring_at, (r, name, peer, label, expires_at, now), result),
        label matches Some(text) ==> given.0 == Some(text@),
        label is None ==> given.0 is None,
        expires_at matches Some(end) ==> given.1 == Some(end@),
        expires_at is None ==> given.1 is None,
    ensures
        final(r).coherent(),
        final(r).ready(),
        R::reliable() ==> (result matches Err(e) ==> e !is Storage),
        given.1 is None || given.1->Some_0 >= 0 ==> R::kept_expiry(given.1) == given.1,
        result is Ok ==> old(r).state().add_peer(name@, peer@, given.0, R::kept_expiry(given.1), now@) == Ok::<
            RegistryState,
            ErrorView,
        >(final(r).state()),
        result matches Err(Error::Storage(_)) ==> final(r).state() == old(r).state() || old(r).state().add_peer(
            name@,
            peer@,
            given.0,
            R::kept_expiry(given.1),
            now@,
        ) == Ok::<RegistryState, ErrorView>(final(r).state()),
        result matches Err(e) ==> e is Storage || {
            &&& final(r).state() == old(r).state()
            &&& !old(r).state().rings.contains_key(name@)
            &&& e matches Error::RingNotFound(missing) && missing@ == name@
        },
{
    R::kept_expiry_is_near(given.1);
}

/// Where no time is told, a peer is added at a time that is a reading of the wall clock.
pub proof fn law_added_peer_now<R: Registry>(
    r: &mut R,
    name: &str,
    peer: EndpointId,
    label: Option<&str>,
    expires_at: Option<Timestamp>,
    result: Result<(), Error>,
)
    requires
        old(r).coherent(),
        call_ensures(<R as Registry>::add_peer_to_ring, (r, name, peer, label, expires_at), result),
        result is Ok,
    ensures
        final(r).coherent(),
        exists|now: Timestamp| #[trigger]
            call_ensures(Timestamp::now, (), now) && old(r).state().add_peer(
                name@,
                peer@,
                match label {
                    Some(text) => Some(text@),
                    None => None,
                },
                R::kept_expiry(
                    match expires_at {
                        Some(end) => Some(end@),
                        None => None,
                    },
                ),
                now@,
            ) == Ok::<RegistryState, ErrorView>(final(r).state()),
{
}

/// What removing a peer does is what its result says; the only refusal is that the ring is missing.
pub proof fn law_removed_peer<R: Registry>(r: &mut R, name: &str, peer: EndpointId, result: Result<(), Error>)
    requires
        old(r).coherent(),
        call_ensures(<R as Registry>::remove_peer_from_ring, (r, name, peer), result),
    ensures
        final(r).coherent(),
        final(r).ready(),
        R::reliable() ==> (result matches Err(e) ==> e !is Storage),
        result is Ok ==> old(r).state().remove_peer(name@, peer@) == Ok::<RegistryState, ErrorView>(
            final(r).state(),
        ),
        result matches Err(Error::Storage(_)) ==> final(r).state() == old(r).state() || old(r).state().remove_peer(
            name@,
            peer@,
        ) == Ok::<RegistryState, ErrorView>(final(r).state()),
        result matches Err(e) ==> e is Storage || {
            &&& final(r).state() == old(r).state()
            &&& !old(r).state().rings.contains_key(name@)
            &&& e matches Error::RingNotFound(missing) && missing@ == name@
        },
{
}

/// Eviction takes out what has lapsed and returns exactly that, each membership once.
pub proof fn law_evicted<R: Registry>(r: &mut R, now: Timestamp, result: Result<Vec<EvictedMembership>, Error>)
    requires
        old(r).coherent(),
        call_ensures(<R as Registry>::evict_expired, (r, now), result),
    ensures
        final(r).coherent(),
        final(r).ready(),
        R::reliable() ==> result is Ok,
        result matches Err(e) ==> e is Storage && (final(r).state() == old(r).state() || final(r).state() == old(
            r,
        ).state().evict(now@)),
        result matches Ok(gone) ==> {
            &&& final(r).state() == old(r).state().evict(now@)
            &&& forall|i: int, j: int|
                0 <= i < j < gone@.len() ==> (#[trigger] gone@[i]).ring_name@ != (#[trigger] gone@[j]).ring_name@
                    || gone@[i].peer@ != gone@[j].peer@
            &&& forall|i: int|
                0 <= i < gone@.len() ==> old(r).state().lapsed(
                    (#[trigger] gone@[i]).ring_name@,
                    gone@[i].peer@,
                    now@,
                )
            &&& forall|name: Seq<char>, peer: Seq<u8>| #[trigger]
                old(r).state().lapsed(name, peer, now@) ==> exists|i: int|
                    0 <= i < gone@.len() && (#[trigger] gone@[i]).ring_name@ == name && gone@[i].peer@ == peer
        },
{
    if let Ok(gone) = result {
        assert forall|name: Seq<char>, peer: Seq<u8>| #[trigger] old(r).state().lapsed(name, peer, now@) implies exists|
            i: int,
        | 0 <= i < gone@.len() && (#[trigger] gone@[i]).ring_name@ == name && gone@[i].peer@ == peer by {
            let i = choose|i: int| 0 <= i < gone@.len() && (#[trigger] gone@[i])@ == (name, peer);
            assert(gone@[i].ring_name@ == name);
        }
        assert forall|i: int, j: int| 0 <= i < j < gone@.len() implies (#[trigger] gone@[i]).ring_name@ != (
        #[trigger] gone@[j]).ring_name@ || gone@[i].peer@ != gone@[j].peer@ by {
            assert(gone@[i]@ != gone@[j]@);
        }
    }
}

/// Associating a ring replaces the permissions of its entry where it has one, leaving every other
/// entry where it is, and otherwise puts an entry last.
pub proof fn law_entries_are_replaced(
    existing: Vec<(String, Vec<Permission>)>,
    name: &str,
    permissions: Vec<Permission>,
    updated: Vec<(String, Vec<Permission>)>,
    at: int,
)
    requires
        call_ensures(registry::compute_resource_rings, (existing, name, permissions), updated),
        0 <= at <= existing@.len(),
        forall|i: int| 0 <= i < at ==> (#[trigger] existing@[i]).0@ != name@,
        at < existing@.len() ==> existing@[at].0@ == name@,
    ensures
        updated@.len() == if at < existing@.len() {
            existing@.len()
        } else {
            existing@.len() + 1
        },
        updated@[at].0@ == name@,
        updated@[at].1@ == permissions@,
        forall|i: int|
            0 <= i < existing@.len() && i != at ==> (#[trigger] updated@[i]).0@ == existing@[i].0@ && updated@[i].1@
                == existing@[i].1@,
{
    let before = registry::entries_of(existing@);
    let after = registry::entries_of(updated@);
    assert forall|i: int| 0 <= i < at implies (#[trigger] before[i]).0 != name@ by {
        assert(existing@[i].0@ != name@);
    }
    registry::lemma_first_entry(before, name@, at);
    assert(after.len() == updated@.len());
    assert(after[at] == (name@, permissions@));
    assert(after[at] == (updated@[at].0@, updated@[at].1@));
    assert forall|i: int| 0 <= i < existing@.len() && i != at implies (#[trigger] updated@[i]).0@ == existing@[i].0@
        && updated@[i].1@ == existing@[i].1@ by {
        assert(after[i] == (updated@[i].0@, updated@[i].1@));
        assert(after[i] == before[i]);
        assert(before[i] == (existing@[i].0@, existing@[i].1@));
    }
}

/// A resource is identified by its bytes, all of them and in their order.
pub proof fn law_resource_ids(array: [u8; 32], list: Vec<u8>)
    ensures
        array.id() == array@,
        list.id() == list@,
{
}

} // verus!
