//! Non-persistent, in-memory [`Registry`].
//!
//! [`InMemoryRegistry`] is useful for tests and short-lived nodes that do not
//! need to survive a restart. All state is lost when the registry is dropped.

use vstd::prelude::*;

use super::eviction;
use crate::assoc;
use crate::effects;
use crate::endpoint::EndpointId;
use crate::error::Error;
use crate::laws;
use crate::model;
use crate::model::{GrantState, MemberState, RegistryState};
use crate::octets;
use crate::registry;
use crate::registry::{EvictedMembership, Permission, Registry, ResourceId, RingMember};
use crate::ring;
use crate::ring::{Ring, OPEN_RING_NAME};
use crate::time::Timestamp;

verus! {

/// A ring and its memberships, in the order in which they were made.
struct RingRecord {
    name: String,
    members: Vec<RingMember>,
}

/// A resource and the rings associated with it, in the order in which they were associated.
struct ResourceRecord {
    id: Vec<u8>,
    entries: Vec<(String, Vec<Permission>)>,
}

/// Non-persistent registry held in memory; useful for testing and for ephemeral nodes.
pub struct InMemoryRegistry {
    /// No name occurs twice.
    rings: Vec<RingRecord>,
    /// No id occurs twice.
    resources: Vec<ResourceRecord>,
}

/// The rings as pairs of name and memberships.
spec fn ring_pairs(rings: Seq<RingRecord>) -> Seq<(Seq<char>, Seq<MemberState>)> {
    rings.map_values(|r: RingRecord| (r.name@, registry::members_of(r.members@)))
}

/// The resources as pairs of id and ring–permission list.
spec fn resource_pairs(resources: Seq<ResourceRecord>) -> Seq<(Seq<u8>, Seq<(Seq<char>, Seq<Permission>)>)> {
    resources.map_values(|r: ResourceRecord| (r.id@, registry::entries_of(r.entries@)))
}

/// The membership that `member` becomes when it is added again at `now`.
fn renew(member: &RingMember, label: Option<&str>, expires_at: Option<Timestamp>, now: &Timestamp) -> (next: RingMember)
    ensures
        next@ == member@.renewed(registry::text_of(label), registry::nanos_of(expires_at), now@),
{
    let expired = is_expired(member, now);
    let next_label = match label {
        Some(text) => Some(text.to_string()),
        None => if expired {
            None
        } else {
            match &member.label {
                Some(text) => Some(text.clone()),
                None => None,
            }
        },
    };
    let next_expiry = match expires_at {
        Some(end) => Some(end),
        None => if expired {
            None
        } else {
            member.expires_at
        },
    };
    RingMember::new(member.peer, next_label, next_expiry)
}

/// Whether the membership is over at `now`.
fn is_expired(member: &RingMember, now: &Timestamp) -> (over: bool)
    ensures
        over == member@.expired(now@),
{
    match &member.expires_at {
        Some(end) => now.reaches(end),
        None => false,
    }
}

/// Adds a peer to a list of members.
fn enrol_member(
    members: &mut Vec<RingMember>,
    peer: EndpointId,
    label: Option<&str>,
    expires_at: Option<Timestamp>,
    now: &Timestamp,
)
    ensures
        registry::members_of(final(members)@) == model::enrol(
            registry::members_of(old(members)@),
            peer@,
            registry::text_of(label),
            registry::nanos_of(expires_at),
            now@,
        ),
{
    let ghost before = registry::members_of(members@);
    let ghost f = |m: MemberState|
        if m.peer == peer@ {
            m.renewed(registry::text_of(label), registry::nanos_of(expires_at), now@)
        } else {
            m
        };
    let mut found = false;
    let mut i: usize = 0;
    while i < members.len()
        invariant
            i <= members@.len(),
            members@.len() == before.len(),
            f == (|m: MemberState|
                if m.peer == peer@ {
                    m.renewed(registry::text_of(label), registry::nanos_of(expires_at), now@)
                } else {
                    m
                }),
            found <==> exists|j: int| 0 <= j < i && (#[trigger] before[j]).peer == peer@,
            forall|j: int| 0 <= j < i ==> (#[trigger] members@[j])@ == f(before[j]),
            forall|j: int| i <= j < before.len() ==> (#[trigger] members@[j])@ == before[j],
        decreases members@.len() - i,
    {
        if members[i].peer.same(&peer) {
            let next = renew(&members[i], label, expires_at, now);
            members.set(i, next);
            found = true;
        }
        i = i + 1;
    }
    if found {
        assert(registry::members_of(members@) =~= before.map_values(f));
    } else {
        assert(registry::members_of(members@) =~= before);
        let text = match label {
            Some(text) => Some(text.to_string()),
            None => None,
        };
        let ghost last = MemberState {
            peer: peer@,
            label: registry::text_of(label),
            expires_at: registry::nanos_of(expires_at),
        };
        members.push(RingMember::new(peer, text, expires_at));
        assert(registry::members_of(members@) =~= before.push(last));
    }
}

/// Removes a peer from a list of members.
fn strike_member(members: &mut Vec<RingMember>, peer: EndpointId)
    ensures
        registry::members_of(final(members)@) == model::strike(registry::members_of(old(members)@), peer@),
{
    let ghost before = registry::members_of(members@);
    let ghost pred = |m: MemberState| m.peer != peer@;
    let mut i: usize = 0;
    let ghost mut k: int = 0;
    proof {
        reveal(Seq::filter);
        assert(before.take(0).filter(pred) =~= Seq::empty());
    }
    while i < members.len()
        invariant
            pred == (|m: MemberState| m.peer != peer@),
            i <= members@.len(),
            0 <= k <= before.len(),
            members@.len() - i == before.len() - k,
            before.take(k).filter(pred).len() == i,
            forall|j: int| 0 <= j < i ==> (#[trigger] members@[j])@ == before.take(k).filter(pred)[j],
            forall|j: int| i <= j < members@.len() ==> (#[trigger] members@[j])@ == before[j - i + k],
        decreases members@.len() - i,
    {
        proof {
            assert(members@[i as int]@ == before[k]);
            assoc::lemma_filter_step(before, k, pred);
            k = k + 1;
        }
        if members[i].peer.same(&peer) {
            members.remove(i);
        } else {
            i = i + 1;
        }
    }
    assert(before.take(k) =~= before);
    assert(registry::members_of(members@) =~= before.filter(pred));
}

/// Whether a peer is among the members with a membership that is not over at `now`.
fn has_active_member(members: &Vec<RingMember>, peer: &EndpointId, now: &Timestamp) -> (yes: bool)
    ensures
        yes == model::active(registry::members_of(members@), peer@, now@),
{
    let ghost all = registry::members_of(members@);
    let mut i: usize = 0;
    while i < members.len()
        invariant
            i <= members@.len(),
            all == registry::members_of(members@),
            forall|j: int| 0 <= j < i ==> (#[trigger] all[j]).peer != peer@ || all[j].expired(now@),
        decreases members@.len() - i,
    {
        assert(all[i as int] == members@[i as int]@);
        if members[i].peer.same(peer) && !is_expired(&members[i], now) {
            return true;
        }
        i = i + 1;
    }
    false
}

/// Moves the memberships that are over at `now` from a ring's members to the list of evicted
/// ones.
fn drop_expired(name: &str, members: &mut Vec<RingMember>, now: &Timestamp, evicted: &mut Vec<EvictedMembership>)
    ensures
        registry::members_of(final(members)@) == model::current(registry::members_of(old(members)@), now@),
        eviction::grows_by(
            old(evicted)@,
            final(evicted)@,
            name@,
            eviction::over(registry::members_of(old(members)@), now@),
        ),
{
    let ghost before = registry::members_of(members@);
    let ghost listed = evicted@;
    let ghost pred = |m: MemberState| m.expired(now@);
    let ghost keep = |m: MemberState| !m.expired(now@);
    let mut i: usize = 0;
    let ghost mut k: int = 0;
    proof {
        reveal(Seq::filter);
        assert(before.take(0).filter(pred) =~= Seq::empty());
        assert(before.take(0).filter(keep) =~= Seq::empty());
    }
    while i < members.len()
        invariant
            pred == (|m: MemberState| m.expired(now@)),
            keep == (|m: MemberState| !m.expired(now@)),
            i <= members@.len(),
            0 <= k <= before.len(),
            members@.len() - i == before.len() - k,
            before.take(k).filter(keep).len() == i,
            forall|j: int| 0 <= j < i ==> (#[trigger] members@[j])@ == before.take(k).filter(keep)[j],
            forall|j: int| i <= j < members@.len() ==> (#[trigger] members@[j])@ == before[j - i + k],
            evicted@.len() == listed.len() + before.take(k).filter(pred).len(),
            forall|j: int| 0 <= j < listed.len() ==> #[trigger] evicted@[j] == listed[j],
            forall|j: int|
                listed.len() <= j < evicted@.len() ==> (#[trigger] evicted@[j])@ == (
                    name@,
                    before.take(k).filter(pred)[j - listed.len()].peer,
                ),
        decreases members@.len() - i,
    {
        proof {
            assert(members@[i as int]@ == before[k]);
            assoc::lemma_filter_step(before, k, pred);
            assoc::lemma_filter_step(before, k, keep);
            k = k + 1;
        }
        if is_expired(&members[i], now) {
            let member = members.remove(i);
            evicted.push(EvictedMembership::new(name.to_string(), member.peer));
        } else {
            i = i + 1;
        }
    }
    assert(before.take(k) =~= before);
    assert(registry::members_of(members@) =~= before.filter(keep));
}

impl InMemoryRegistry {
    /// Creates an empty in-memory registry with the open ring pre-installed.
    pub fn new() -> (registry: InMemoryRegistry)
        ensures
            registry.coherent(),
            registry.state() == RegistryState::initial(),
            registry.listings() == Map::<Seq<u8>, Seq<(Seq<char>, Seq<Permission>)>>::empty(),
    {
        let open = RingRecord { name: OPEN_RING_NAME.to_string(), members: Vec::new() };
        let registry = InMemoryRegistry { rings: vec![open], resources: Vec::new() };
        proof {
            let pairs = ring_pairs(registry.rings@);
            assert(registry::members_of(open.members@) =~= Seq::empty());
            assert(pairs =~= seq![(OPEN_RING_NAME@, Seq::<MemberState>::empty())]);
            assert(pairs.drop_last() =~= Seq::empty());
            assert(resource_pairs(registry.resources@) =~= Seq::empty());
            reveal_with_fuel(assoc::assoc, 2);
            assert(registry.state() =~= RegistryState::initial());
            laws::law_initial_wf();
        }
        registry
    }

    /// The position of a ring.
    fn find_ring(&self, name: &str) -> (at: Option<usize>)
        ensures
            match at {
                Some(i) => i < self.rings@.len() && self.rings@[i as int].name@ == name@,
                None => !assoc::has_key(ring_pairs(self.rings@), name@),
            },
    {
        let ghost pairs = ring_pairs(self.rings@);
        let mut i: usize = 0;
        while i < self.rings.len()
            invariant
                i <= self.rings@.len(),
                pairs == ring_pairs(self.rings@),
                forall|j: int| 0 <= j < i ==> (#[trigger] pairs[j]).0 != name@,
            decreases self.rings@.len() - i,
        {
            if octets::str_eq(self.rings[i].name.as_str(), name) {
                return Some(i);
            }
            i = i + 1;
        }
        None
    }

    /// The position of a resource.
    fn find_resource(&self, id: &[u8]) -> (at: Option<usize>)
        ensures
            match at {
                Some(i) => i < self.resources@.len() && self.resources@[i as int].id@ == id@,
                None => !assoc::has_key(resource_pairs(self.resources@), id@),
            },
    {
        let ghost pairs = resource_pairs(self.resources@);
        let mut i: usize = 0;
        while i < self.resources.len()
            invariant
                i <= self.resources@.len(),
                pairs == resource_pairs(self.resources@),
                forall|j: int| 0 <= j < i ==> (#[trigger] pairs[j]).0 != id@,
            decreases self.resources@.len() - i,
        {
            if octets::bytes_eq(self.resources[i].id.as_slice(), id) {
                return Some(i);
            }
            i = i + 1;
        }
        None
    }

    /// What the position of a ring says of the state.
    proof fn lemma_ring_at(&self, i: int)
        requires
            self.coherent(),
            0 <= i < self.rings@.len(),
        ensures
            self.state().rings.contains_key(self.rings@[i].name@),
            self.state().rings[self.rings@[i].name@] == registry::members_of(self.rings@[i].members@),
    {
        assoc::lemma_assoc_at(ring_pairs(self.rings@), i);
    }

    /// What the position of a resource, or that it has none, says of the listings.
    proof fn lemma_resource_at(&self, id: Seq<u8>, at: Option<usize>)
        requires
            self.coherent(),
            match at {
                Some(i) => i < self.resources@.len() && self.resources@[i as int].id@ == id,
                None => !assoc::has_key(resource_pairs(self.resources@), id),
            },
        ensures
            self.listings().contains_key(id) == (at is Some),
            at matches Some(i) ==> self.listings()[id] == registry::entries_of(self.resources@[i as int].entries@),
            self.state().grants_on(id) == registry::grants_of(self.listing(id)),
    {
        assoc::lemma_assoc_dom(resource_pairs(self.resources@), id);
        if let Some(i) = at {
            assoc::lemma_assoc_at(resource_pairs(self.resources@), i as int);
        } else {
            assert(registry::grants_of(Seq::empty()) =~= Seq::empty());
        }
    }

    /// The ring–permission list of every resource that has one, each permission list as it
    /// was given.
    pub closed spec fn listings(&self) -> Map<Seq<u8>, Seq<(Seq<char>, Seq<Permission>)>> {
        assoc::assoc(resource_pairs(self.resources@))
    }

    /// The ring–permission list of a resource; empty, if it has no associations.
    pub open spec fn listing(&self, id: Seq<u8>) -> Seq<(Seq<char>, Seq<Permission>)> {
        if self.listings().contains_key(id) {
            self.listings()[id]
        } else {
            Seq::empty()
        }
    }
}

impl Default for InMemoryRegistry {
    fn default() -> (registry: InMemoryRegistry)
        ensures
            registry.coherent(),
            registry.state() == RegistryState::initial(),
            registry.listings() == Map::<Seq<u8>, Seq<(Seq<char>, Seq<Permission>)>>::empty(),
    {
        InMemoryRegistry::new()
    }
}

impl Registry for InMemoryRegistry {
    closed spec fn state(&self) -> RegistryState {
        RegistryState {
            rings: assoc::assoc(ring_pairs(self.rings@)),
            grants: self.listings().map_values(
                |entries: Seq<(Seq<char>, Seq<Permission>)>| registry::grants_of(entries),
            ),
        }
    }

    closed spec fn coherent(&self) -> bool {
        &&& assoc::unique_keys(ring_pairs(self.rings@))
        &&& assoc::unique_keys(resource_pairs(self.resources@))
        &&& self.state().wf()
    }

    open spec fn reliable() -> bool {
        true
    }

    open spec fn ready(&self) -> bool {
        true
    }

    open spec fn kept_expiry(end: Option<int>) -> Option<int> {
        end
    }

    proof fn kept_expiry_is_near(end: Option<int>) {
    }

    proof fn coherent_is_wf(&self) {
    }

    fn create_ring(&mut self, ring_name: &str) -> (result: Result<(), Error>)
        ensures
            final(self).listings() == old(self).listings(),
    {
        let ring = match Ring::new(ring_name) {
            Ok(ring) => ring,
            Err(e) => return Err(e),
        };
        if ring.is_open() {
            return Err(Error::RingNameReserved(OPEN_RING_NAME.to_string()));
        }
        let found = self.find_ring(ring_name);
        proof {
            assoc::lemma_assoc_dom(ring_pairs(self.rings@), ring_name@);
        }
        if let Some(i) = found {
            proof {
                assert(ring_pairs(self.rings@)[i as int].0 == ring_name@);
            }
            return Err(Error::RingAlreadyExists(ring_name.to_string()));
        }
        let record = RingRecord { name: ring_name.to_string(), members: Vec::new() };
        self.rings.push(record);
        proof {
            if old(self).coherent() {
                let before = ring_pairs(old(self).rings@);
                assoc::lemma_assoc_push(before, ring_name@, Seq::<MemberState>::empty());
                assert(registry::members_of(record.members@) =~= Seq::empty());
                assert(ring_pairs(self.rings@) =~= before.push((ring_name@, Seq::<MemberState>::empty())));
                laws::law_create_ring_wf(old(self).state(), ring_name@);
            }
        }
        Ok(())
    }

    fn add_peer_to_ring_at(
        &mut self,
        ring_name: &str,
        peer: EndpointId,
        label: Option<&str>,
        expires_at: Option<Timestamp>,
        now: Timestamp,
    ) -> (result: Result<(), Error>)
        ensures
            final(self).listings() == old(self).listings(),
    {
        let i = match self.find_ring(ring_name) {
            Some(i) => i,
            None => {
                proof {
                    assoc::lemma_assoc_dom(ring_pairs(self.rings@), ring_name@);
                }
                return Err(Error::RingNotFound(ring_name.to_string()));
            },
        };
        let ghost members = registry::members_of(self.rings@[i as int].members@);
        enrol_member(&mut self.rings[i].members, peer, label, expires_at, &now);
        proof {
            if old(self).coherent() {
                let before = ring_pairs(old(self).rings@);
                let next = model::enrol(
                    members,
                    peer@,
                    registry::text_of(label),
                    registry::nanos_of(expires_at),
                    now@,
                );
                old(self).lemma_ring_at(i as int);
                assoc::lemma_assoc_update(before, i as int, next);
                assert(ring_pairs(self.rings@) =~= before.update(i as int, (before[i as int].0, next)));
                laws::law_add_peer_wf(
                    old(self).state(),
                    ring_name@,
                    peer@,
                    registry::text_of(label),
                    registry::nanos_of(expires_at),
                    now@,
                );
            }
        }
        Ok(())
    }

    fn add_peer_to_ring(
        &mut self,
        ring_name: &str,
        peer: EndpointId,
        label: Option<&str>,
        expires_at: Option<Timestamp>,
    ) -> (result: Result<(), Error>)
        ensures
            final(self).listings() == old(self).listings(),
    {
        let now = Timestamp::now();
        self.add_peer_to_ring_at(ring_name, peer, label, expires_at, now)
    }

    fn remove_peer_from_ring(&mut self, ring_name: &str, peer: EndpointId) -> (result: Result<(), Error>)
        ensures
            final(self).listings() == old(self).listings(),
    {
        let i = match self.find_ring(ring_name) {
            Some(i) => i,
            None => {
                proof {
                    assoc::lemma_assoc_dom(ring_pairs(self.rings@), ring_name@);
                }
                return Err(Error::RingNotFound(ring_name.to_string()));
            },
        };
        let ghost members = registry::members_of(self.rings@[i as int].members@);
        strike_member(&mut self.rings[i].members, peer);
        proof {
            if old(self).coherent() {
                let before = ring_pairs(old(self).rings@);
                let next = model::strike(members, peer@);
                old(self).lemma_ring_at(i as int);
                assoc::lemma_assoc_update(before, i as int, next);
                assert(ring_pairs(self.rings@) =~= before.update(i as int, (before[i as int].0, next)));
                laws::law_remove_peer_wf(old(self).state(), ring_name@, peer@);
            }
        }
        Ok(())
    }

    fn list_ring_peers_at(&self, ring_name: &str, now: Timestamp) -> (result: Result<Vec<RingMember>, Error>) {
        let at = match self.find_ring(ring_name) {
            Some(i) => i,
            None => {
                proof {
                    assoc::lemma_assoc_dom(ring_pairs(self.rings@), ring_name@);
                }
                return Err(Error::RingNotFound(ring_name.to_string()));
            },
        };
        let members = &self.rings[at].members;
        let ghost all = registry::members_of(members@);
        let ghost pred = |m: MemberState| !m.expired(now@);
        let mut listing: Vec<RingMember> = Vec::new();
        let mut i: usize = 0;
        proof {
            reveal(Seq::filter);
            assert(all.take(0).filter(pred) =~= Seq::empty());
            assert(registry::members_of(listing@) =~= Seq::empty());
        }
        while i < members.len()
            invariant
                i <= members@.len(),
                all == registry::members_of(members@),
                pred == (|m: MemberState| !m.expired(now@)),
                registry::members_of(listing@) == all.take(i as int).filter(pred),
            decreases members@.len() - i,
        {
            proof {
                assoc::lemma_filter_step(all, i as int, pred);
            }
            if !is_expired(&members[i], &now) {
                let ghost listed = listing@;
                listing.push(members[i].clone());
                assert(registry::members_of(listing@) =~= registry::members_of(listed).push(members@[i as int]@));
            }
            i = i + 1;
        }
        proof {
            assert(all.take(all.len() as int) =~= all);
            if self.coherent() {
                self.lemma_ring_at(at as int);
            }
        }
        Ok(listing)
    }

    fn list_rings(&self) -> (result: Result<Vec<Ring>, Error>) {
        let mut rings: Vec<Ring> = vec![Ring::new_open()];
        let ghost pairs = ring_pairs(self.rings@);
        let mut i: usize = 0;
        while i < self.rings.len()
            invariant
                i <= self.rings@.len(),
                pairs == ring_pairs(self.rings@),
                rings@.len() > 0,
                rings@[0]@ == OPEN_RING_NAME@,
                assoc::unique_keys(pairs) ==> forall|a: int, b: int|
                    0 <= a < b < rings@.len() ==> (#[trigger] rings@[a])@ != (#[trigger] rings@[b])@,
                forall|a: int|
                    1 <= a < rings@.len() ==> exists|j: int|
                        0 <= j < i && (#[trigger] pairs[j]).0 == (#[trigger] rings@[a])@,
                forall|j: int|
                    0 <= j < i ==> exists|a: int|
                        0 <= a < rings@.len() && (#[trigger] rings@[a])@ == (#[trigger] pairs[j]).0,
            decreases self.rings@.len() - i,
        {
            let name = &self.rings[i].name;
            let ghost listed = rings@;
            if !octets::str_eq(name.as_str(), OPEN_RING_NAME) {
                match Ring::new(name.as_str()) {
                    Ok(ring) => {
                        rings.push(ring);
                        proof {
                            assert(pairs[i as int].0 == ring@);
                            assert(rings@[listed.len() as int] == ring);
                            assert forall|j: int| 0 <= j < i implies exists|a: int|
                                0 <= a < rings@.len() && (#[trigger] rings@[a])@ == (#[trigger] pairs[j]).0 by {
                                let a = choose|a: int|
                                    0 <= a < listed.len() && (#[trigger] listed[a])@ == pairs[j].0;
                                assert(rings@[a] == listed[a]);
                            }
                            assert forall|a: int| 1 <= a < rings@.len() implies exists|j: int|
                                0 <= j < i + 1 && (#[trigger] pairs[j]).0 == (#[trigger] rings@[a])@ by {
                                if a < listed.len() {
                                    assert(rings@[a] == listed[a]);
                                    let j = choose|j: int|
                                        0 <= j < i && (#[trigger] pairs[j]).0 == listed[a]@;
                                    assert(pairs[j].0 == rings@[a]@);
                                }
                            }
                            if assoc::unique_keys(pairs) {
                                assert forall|a: int, b: int| 0 <= a < b < rings@.len() implies (
                                #[trigger] rings@[a])@ != (#[trigger] rings@[b])@ by {
                                    if b == listed.len() && a > 0 {
                                        let j = choose|j: int|
                                            0 <= j < i && (#[trigger] pairs[j]).0 == listed[a]@;
                                        assert(pairs[j].0 != pairs[i as int].0);
                                    } else if b < listed.len() {
                                        assert(listed[a]@ != listed[b]@);
                                    }
                                }
                            }
                        }
                    },
                    Err(e) => {
                        proof {
                            if self.coherent() {
                                self.lemma_ring_at(i as int);
                            }
                        }
                        return Err(e);
                    },
                }
            } else {
                assert(rings@[0]@ == pairs[i as int].0);
            }
            i = i + 1;
        }
        proof {
            if self.coherent() {
                assert forall|a: int| 0 <= a < rings@.len() implies self.state().rings.contains_key(
                    (#[trigger] rings@[a])@,
                ) by {
                    if a > 0 {
                        let j = choose|j: int|
                            0 <= j < pairs.len() && (#[trigger] pairs[j]).0 == rings@[a]@;
                        self.lemma_ring_at(j);
                    }
                }
                assert forall|name: Seq<char>| #[trigger]
                    self.state().rings.contains_key(name) implies exists|a: int|
                    0 <= a < rings@.len() && (#[trigger] rings@[a])@ == name by {
                    assoc::lemma_assoc_dom(pairs, name);
                    let j = choose|j: int| 0 <= j < pairs.len() && (#[trigger] pairs[j]).0 == name;
                }
            }
        }
        Ok(rings)
    }

    fn remove_ring_from_resource<ResId: ResourceId>(&mut self, resource_id: ResId) -> (result: Result<(), Error>)
        ensures
            result is Ok,
            old(self).coherent() ==> final(self).listings() == old(self).listings().remove(resource_id.id()),
    {
        let found = self.find_resource(resource_id.as_bytes());
        proof {
            if self.coherent() {
                self.lemma_resource_at(resource_id.id(), found);
            }
        }
        if let Some(i) = found {
            self.resources.remove(i);
            proof {
                if old(self).coherent() {
                    let before = resource_pairs(old(self).resources@);
                    assoc::lemma_assoc_remove(before, i as int);
                    assert(resource_pairs(self.resources@) =~= before.remove(i as int));
                }
            }
        }
        proof {
            if old(self).coherent() {
                assert(self.listings() =~= old(self).listings().remove(resource_id.id()));
                assert(self.state() =~= old(self).state().clear_resource(resource_id.id()));
                laws::law_clear_resource_wf(old(self).state(), resource_id.id());
            }
        }
        Ok(())
    }

    fn list_resource_rings<ResId: ResourceId>(&self, resource_id: ResId) -> (result: Result<
        Vec<(Ring, Vec<Permission>)>,
        Error,
    >)
        ensures
            self.coherent() ==> match result {
                Ok(listing) => {
                    &&& listing@.len() == self.listing(resource_id.id()).len()
                    &&& forall|i: int|
                        0 <= i < listing@.len() ==> {
                            &&& (#[trigger] listing@[i]).0@ == self.listing(resource_id.id())[i].0
                            &&& listing@[i].1@ == self.listing(resource_id.id())[i].1
                        }
                },
                Err(_) => false,
            },
    {
        let found = self.find_resource(resource_id.as_bytes());
        proof {
            if self.coherent() {
                self.lemma_resource_at(resource_id.id(), found);
            }
        }
        let mut listing: Vec<(Ring, Vec<Permission>)> = Vec::new();
        if let Some(at) = found {
            let entries = &self.resources[at].entries;
            let mut i: usize = 0;
            while i < entries.len()
                invariant
                    i <= entries@.len(),
                    entries@ == self.resources@[at as int].entries@,
                    at < self.resources@.len(),
                    self.resources@[at as int].id@ == resource_id.id(),
                    listing@.len() == i,
                    forall|j: int|
                        0 <= j < i ==> {
                            &&& (#[trigger] listing@[j]).0@ == entries@[j].0@
                            &&& listing@[j].1@ == entries@[j].1@
                        },
                decreases entries@.len() - i,
            {
                match Ring::new(entries[i].0.as_str()) {
                    Ok(ring) => {
                        let permissions = vstd::slice::slice_to_vec(entries[i].1.as_slice());
                        listing.push((ring, permissions));
                    },
                    Err(e) => {
                        proof {
                            if self.coherent() {
                                self.lemma_resource_at(resource_id.id(), Some(at));
                                let grants = self.state().grants_on(resource_id.id());
                                assert(self.state().grants.contains_key(resource_id.id()));
                                assert(model::grant_wf(grants[i as int], self.state().rings.dom()));
                                assert(self.state().rings.contains_key(entries@[i as int].0@));
                            }
                        }
                        return Err(e);
                    },
                }
                i = i + 1;
            }
        }
        Ok(listing)
    }

    fn add_ring_to_resource<ResId: ResourceId>(
        &mut self,
        resource_id: ResId,
        ring_name: &str,
        permissions: &[Permission],
    ) -> (result: Result<(), Error>)
        ensures
            old(self).coherent() && result is Ok ==> final(self).listings() == old(self).listings().insert(
                resource_id.id(),
                registry::with_entry(old(self).listing(resource_id.id()), ring_name@, permissions@),
            ),
            result is Err ==> *final(self) == *old(self),
    {
        proof {
            registry::lemma_permission_set(permissions@);
            assoc::lemma_assoc_dom(ring_pairs(self.rings@), ring_name@);
        }
        match registry::validate_ring_permissions(ring_name, permissions) {
            Ok(()) => {},
            Err(e) => return Err(e),
        }
        match self.find_ring(ring_name) {
            Some(i) => {
                assert(ring_pairs(self.rings@)[i as int].0 == ring_name@);
            },
            None => return Err(Error::RingNotFound(ring_name.to_string())),
        }
        let found = self.find_resource(resource_id.as_bytes());
        let granted = vstd::slice::slice_to_vec(permissions);
        let ghost before = resource_pairs(self.resources@);
        proof {
            if self.coherent() {
                self.lemma_resource_at(resource_id.id(), found);
            }
        }
        match found {
            Some(i) => {
                let mut existing: Vec<(String, Vec<Permission>)> = Vec::new();
                std::mem::swap(&mut existing, &mut self.resources[i].entries);
                let updated = registry::compute_resource_rings(existing, ring_name, granted);
                self.resources[i].entries = updated;
                proof {
                    if old(self).coherent() {
                        let next = registry::entries_of(updated@);
                        assoc::lemma_assoc_update(before, i as int, next);
                        assert(resource_pairs(self.resources@) =~= before.update(
                            i as int,
                            (before[i as int].0, next),
                        ));
                    }
                }
            },
            None => {
                let updated = registry::compute_resource_rings(Vec::new(), ring_name, granted);
                let id = vstd::slice::slice_to_vec(resource_id.as_bytes());
                self.resources.push(ResourceRecord { id, entries: updated });
                proof {
                    if old(self).coherent() {
                        let next = registry::entries_of(updated@);
                        assert(registry::entries_of(Seq::empty()) =~= Seq::empty());
                        assoc::lemma_assoc_push(before, resource_id.id(), next);
                        assert(resource_pairs(self.resources@) =~= before.push((resource_id.id(), next)));
                    }
                }
            },
        }
        proof {
            if old(self).coherent() {
                let id = resource_id.id();
                let entries = old(self).listing(id);
                let grants = old(self).state().grants_on(id);
                assert(grants == registry::grants_of(entries));
                assert forall|a: int, b: int| 0 <= a < b < entries.len() implies (#[trigger] entries[a]).0 != (
                #[trigger] entries[b]).0 by {
                    assert(old(self).state().grants.contains_key(id));
                    assert(grants[a].ring != grants[b].ring);
                }
                registry::lemma_with_entry_grants(entries, ring_name@, permissions@);
                assert(self.state() =~= RegistryState {
                    grants: old(self).state().grants.insert(
                        id,
                        model::grant(old(self).state().grants_on(id), ring_name@, permissions@.to_set()),
                    ),
                    ..old(self).state()
                });
                laws::law_add_ring_to_resource_wf(old(self).state(), id, ring_name@, permissions@.to_set());
            }
        }
        Ok(())
    }

    fn has_permission_at<ResId: ResourceId>(
        &self,
        peer: &EndpointId,
        resource_id: &ResId,
        permission: Permission,
        now: Timestamp,
    ) -> (result: Result<bool, Error>)
        ensures
            result is Ok,
    {
        let found = self.find_resource(resource_id.as_bytes());
        proof {
            if self.coherent() {
                self.lemma_resource_at(resource_id.id(), found);
            }
        }
        let at = match found {
            Some(at) => at,
            None => return Ok(false),
        };
        let entries = &self.resources[at].entries;
        let ghost state = self.state();
        let ghost grants = registry::grants_of(registry::entries_of(entries@));
        let mut i: usize = 0;
        while i < entries.len()
            invariant
                i <= entries@.len(),
                state == self.state(),
                grants == registry::grants_of(registry::entries_of(entries@)),
                self.coherent() ==> state.grants_on(resource_id.id()) == grants,
                self.coherent() ==> forall|j: int|
                    0 <= j < i ==> !state.confers(#[trigger] grants[j], peer@, permission, now@),
            decreases entries@.len() - i,
        {
            let ghost grant = grants[i as int];
            if registry::contains_permission(&entries[i].1, permission) {
                let name = entries[i].0.as_str();
                if octets::str_eq(name, OPEN_RING_NAME) {
                    assert(state.confers(grant, peer@, permission, now@));
                    return Ok(true);
                }
                match self.find_ring(name) {
                    Some(k) => {
                        proof {
                            if self.coherent() {
                                self.lemma_ring_at(k as int);
                            }
                        }
                        if has_active_member(&self.rings[k].members, peer, &now) {
                            assert(self.coherent() ==> state.confers(grant, peer@, permission, now@));
                            return Ok(true);
                        }
                    },
                    None => {
                        proof {
                            assoc::lemma_assoc_dom(ring_pairs(self.rings@), name@);
                        }
                    },
                }
            }
            i = i + 1;
        }
        Ok(false)
    }

    fn evict_expired(&mut self, now: Timestamp) -> (result: Result<Vec<EvictedMembership>, Error>)
        ensures
            final(self).listings() == old(self).listings(),
    {
        let mut evicted: Vec<EvictedMembership> = Vec::new();
        let ghost before = ring_pairs(self.rings@);
        let ghost f = |members: Seq<MemberState>| model::current(members, now@);
        let mut i: usize = 0;
        while i < self.rings.len()
            invariant
                i <= self.rings@.len(),
                before == ring_pairs(old(self).rings@),
                f == (|members: Seq<MemberState>| model::current(members, now@)),
                self.resources == old(self).resources,
                self.rings@.len() == before.len(),
                forall|j: int| 0 <= j < i ==> ring_pairs(self.rings@)[j] == (
                    (#[trigger] before[j]).0,
                    f(before[j].1),
                ),
                forall|j: int| i <= j < before.len() ==> ring_pairs(self.rings@)[j] == #[trigger] before[j],
                eviction::collects(evicted@, before, i as int, now@),
            decreases self.rings@.len() - i,
        {
            let ghost listed = evicted@;
            let name = self.rings[i].name.clone();
            assert(ring_pairs(self.rings@)[i as int] == before[i as int]);
            drop_expired(name.as_str(), &mut self.rings[i].members, &now, &mut evicted);
            proof {
                eviction::lemma_collect_step(listed, evicted@, before, i as int, now@);
            }
            i = i + 1;
        }
        proof {
            if old(self).coherent() {
                let state = old(self).state();
                assoc::lemma_assoc_map_values(before, ring_pairs(self.rings@), f);
                assert(self.state() =~= state.evict(now@));
                laws::law_evict_wf(state, now@);
                eviction::lemma_collected(evicted@, before, state, now@);
            }
        }
        Ok(evicted)
    }
}

/// A registry in memory is always ready, never fails, and keeps every expiry as it is.
pub proof fn law_memory_does_not_fail(registry: InMemoryRegistry, end: Option<int>)
    ensures
        InMemoryRegistry::reliable(),
        registry.ready(),
        InMemoryRegistry::kept_expiry(end) == end,
{
}

/// A new registry in memory has the open ring, without members, and nothing else.
pub proof fn law_new_registry(registry: InMemoryRegistry, default: InMemoryRegistry)
    requires
        call_ensures(InMemoryRegistry::new, (), registry),
        call_ensures(<InMemoryRegistry as Default>::default, (), default),
    ensures
        registry.coherent(),
        registry.state().rings == Map::<Seq<char>, Seq<MemberState>>::empty().insert(
            seq!['o', 'p', 'e', 'n'],
            Seq::empty(),
        ),
        registry.state().grants == Map::<Seq<u8>, Seq<GrantState>>::empty(),
        default.coherent(),
        default.state() == registry.state(),
{
    effects::law_initial();
}

/// What a registry in memory grants is what it lists: the rings of a resource in the order in which
/// they were associated, each with the permissions on its list.
pub proof fn law_grants_are_the_listings(registry: InMemoryRegistry, id: Seq<u8>, i: int)
    requires
        0 <= i < registry.listing(id).len(),
    ensures
        registry.state().grants.contains_key(id),
        registry.state().grants[id].len() == registry.listing(id).len(),
        registry.state().grants[id][i].ring == registry.listing(id)[i].0,
        forall|p: Permission| #[trigger]
            registry.state().grants[id][i].permissions.contains(p) <==> registry.listing(id)[i].1.contains(p),
{
    let list = registry.listing(id)[i].1;
    assert(forall|p: Permission| #[trigger] list.contains(p) <==> list.to_set().contains(p));
}

} // verus!
