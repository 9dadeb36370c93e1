//! Permissions, resource ids, memberships, and the [`Registry`] trait.

use vstd::prelude::*;

use crate::endpoint::EndpointId;
use crate::error;
use crate::error::{Error, ErrorView};
use crate::model;
use crate::model::{GrantState, MemberState, RegistryState};
use crate::octets;
use crate::ring::{Ring, OPEN_RING_NAME};
use crate::time;
use crate::time::Timestamp;

verus! {

/// An operation a peer may request on a resource.
///
/// Permissions are granted per ring–resource association: all members of a ring
/// share the same permission set on a given resource. There are no per-peer overrides.
#[non_exhaustive]
#[derive(Debug, Clone, Copy, PartialEq, Eq, Hash, Structural)]
pub enum Permission {
    /// Download a resource.
    Read,
    /// Push or update a resource in a ring the peer is already a member of.
    Write,
    /// Remove the ring–resource association; the underlying data is untouched.
    Delete,
}

/// A type that identifies a resource by a byte sequence.
pub trait ResourceId {
    /// The byte sequence.
    spec fn id(&self) -> Seq<u8>;

    /// Returns the unique byte representation of this resource.
    fn as_bytes(&self) -> (bytes: &[u8])
        ensures
            bytes@ == self.id(),
    ;
}

impl ResourceId for [u8; 32] {
    open spec fn id(&self) -> Seq<u8> {
        self@
    }

    fn as_bytes(&self) -> (bytes: &[u8]) {
        self.as_slice()
    }
}

impl ResourceId for Vec<u8> {
    open spec fn id(&self) -> Seq<u8> {
        self@
    }

    fn as_bytes(&self) -> (bytes: &[u8]) {
        self.as_slice()
    }
}

/// The characters of an optional text.
pub open spec fn text_of(text: Option<&str>) -> Option<Seq<char>> {
    match text {
        Some(s) => Some(s@),
        None => None,
    }
}

/// The nanoseconds of an optional point in time.
pub open spec fn nanos_of(time: Option<Timestamp>) -> Option<int> {
    match time {
        Some(t) => Some(t@),
        None => None,
    }
}

/// A peer's membership in a ring, as [`Registry::list_ring_peers`] returns it.
#[non_exhaustive]
#[derive(Debug, PartialEq, Eq)]
pub struct RingMember {
    /// The member's endpoint id.
    pub peer: EndpointId,
    /// Optional display label, per ring.
    pub label: Option<String>,
    /// When the membership expires; `None` if it never expires.
    pub expires_at: Option<Timestamp>,
}

impl View for RingMember {
    type V = MemberState;

    open spec fn view(&self) -> MemberState {
        MemberState {
            peer: self.peer@,
            label: match self.label {
                Some(s) => Some(s@),
                None => None,
            },
            expires_at: nanos_of(self.expires_at),
        }
    }
}

/// What a list of members says.
pub open spec fn members_of(members: Seq<RingMember>) -> Seq<MemberState> {
    members.map_values(|m: RingMember| m@)
}

impl RingMember {
    /// Creates a ring member entry.
    pub fn new(peer: EndpointId, label: Option<String>, expires_at: Option<Timestamp>) -> (member: RingMember)
        ensures
            member.peer == peer,
            member.label == label,
            member.expires_at == expires_at,
    {
        RingMember { peer, label, expires_at }
    }
}

impl Clone for RingMember {
    fn clone(&self) -> (copy: RingMember)
        ensures
            copy == *self,
    {
        let label = match &self.label {
            Some(text) => Some(text.clone()),
            None => None,
        };
        RingMember { peer: self.peer, label, expires_at: self.expires_at }
    }
}

/// A membership that [`Registry::evict_expired`] removed.
#[non_exhaustive]
#[derive(Debug, PartialEq, Eq)]
pub struct EvictedMembership {
    /// The ring the membership was removed from.
    pub ring_name: String,
    /// The peer whose membership was removed.
    pub peer: EndpointId,
}

/// Ring name and peer of an evicted membership.
impl View for EvictedMembership {
    type V = (Seq<char>, Seq<u8>);

    open spec fn view(&self) -> (Seq<char>, Seq<u8>) {
        (self.ring_name@, self.peer@)
    }
}

impl EvictedMembership {
    /// Creates an evicted-membership entry.
    pub fn new(ring_name: String, peer: EndpointId) -> (evicted: EvictedMembership)
        ensures
            evicted.ring_name == ring_name,
            evicted.peer == peer,
    {
        EvictedMembership { ring_name, peer }
    }
}

impl Clone for EvictedMembership {
    fn clone(&self) -> (copy: EvictedMembership)
        ensures
            copy == *self,
    {
        EvictedMembership { ring_name: self.ring_name.clone(), peer: self.peer }
    }
}

/// Whether `rings` are the open ring first, and then the other rings of `state`, each once.
pub open spec fn lists_rings(rings: Seq<Ring>, state: RegistryState) -> bool {
    &&& rings.len() > 0
    &&& rings[0]@ == OPEN_RING_NAME@
    &&& forall|i: int, j: int| 0 <= i < j < rings.len() ==> (#[trigger] rings[i])@ != (#[trigger] rings[j])@
    &&& forall|i: int| 0 <= i < rings.len() ==> state.rings.contains_key((#[trigger] rings[i])@)
    &&& forall|name: Seq<char>| #[trigger]
        state.rings.contains_key(name) ==> exists|i: int| 0 <= i < rings.len() && (#[trigger] rings[i])@ == name
}

/// Whether `listing` gives the grants on `id`, in their order.
pub open spec fn lists_grants(listing: Seq<(Ring, Vec<Permission>)>, state: RegistryState, id: Seq<u8>) -> bool {
    &&& listing.len() == state.grants_on(id).len()
    &&& forall|i: int|
        0 <= i < listing.len() ==> {
            &&& (#[trigger] listing[i]).0@ == state.grants_on(id)[i].ring
            &&& listing[i].1@.to_set() == state.grants_on(id)[i].permissions
        }
}

/// Whether `evicted` are the memberships of `state` that are over at `now`, each once.
pub open spec fn lists_lapsed(evicted: Seq<EvictedMembership>, state: RegistryState, now: int) -> bool {
    &&& forall|i: int, j: int|
        0 <= i < j < evicted.len() ==> (#[trigger] evicted[i])@ != (#[trigger] evicted[j])@
    &&& forall|i: int|
        0 <= i < evicted.len() ==> state.lapsed((#[trigger] evicted[i])@.0, evicted[i]@.1, now)
    &&& forall|ring: Seq<char>, peer: Seq<u8>| #[trigger]
        state.lapsed(ring, peer, now) ==> exists|i: int|
            0 <= i < evicted.len() && (#[trigger] evicted[i])@ == (ring, peer)
}

/// Whether `listing` is what `ring_peers` gives for `name` at `now`.
pub open spec fn lists_peers(
    listing: Result<Vec<RingMember>, Error>,
    state: RegistryState,
    name: Seq<char>,
    now: int,
) -> bool {
    match listing {
        Ok(members) => state.ring_peers(name, now) == Ok::<Seq<MemberState>, ErrorView>(
            members_of(members@),
        ),
        Err(Error::Storage(_)) => true,
        Err(e) => state.ring_peers(name, now) == Err::<Seq<MemberState>, ErrorView>(e@),
    }
}

/// Manages rings, their peer membership, and the association between resources and rings.
///
/// Access is governed by [`Permission`]-typed ring–resource associations. A peer may perform
/// an operation on a resource if it belongs to at least one ring associated with that resource
/// which grants the corresponding permission, or if the open ring is associated with it and
/// grants that permission.
///
/// # Membership expiry
///
/// Expiry is checked against the host's wall clock, which the registry trusts: setting the
/// clock backwards revives memberships that had already expired. Each operation that depends
/// on the time exists twice: one reads the clock, the other, whose name ends in `_at`, is told
/// the time.
///
/// # Storage
///
/// A backend may fail with [`Error::Storage`]. A write that fails so has changed nothing, or has
/// been done as a whole. Of a backend whose stored data is not coherent nothing is said.
pub trait Registry: Sized {
    /// What the registry holds.
    spec fn state(&self) -> RegistryState;

    /// Whether the data that the backend keeps makes sense, so that `state` describes it.
    spec fn coherent(&self) -> bool;

    /// Whether the backend keeps its data where nothing can fail, so that no operation returns
    /// [`Error::Storage`].
    spec fn reliable() -> bool;

    /// Whether the registry can be written to: no write is in progress. Every operation leaves
    /// it so.
    spec fn ready(&self) -> bool;

    /// The expiry that the backend keeps for one that is given, in nanoseconds from the epoch.
    spec fn kept_expiry(end: Option<int>) -> Option<int>;

    /// An expiry at or after the epoch is kept as it is; an earlier one may be moved up to the
    /// epoch.
    proof fn kept_expiry_is_near(end: Option<int>)
        ensures
            match end {
                Some(e) if e < 0 => Self::kept_expiry(end) matches Some(k) && e <= k <= 0,
                _ => Self::kept_expiry(end) == end,
            },
    ;

    /// What a coherent registry holds is well formed.
    proof fn coherent_is_wf(&self)
        requires
            self.coherent(),
        ensures
            self.state().wf(),
    ;

    /// Creates a new ring with the given name.
    fn create_ring(&mut self, ring_name: &str) -> (result: Result<(), Error>)
        requires
            old(self).ready(),
        ensures
            final(self).ready(),
            Self::reliable() ==> !error::storage_failed(result),
            old(self).coherent() ==> {
                &&& final(self).coherent()
                &&& model::follows(
                    result,
                    old(self).state().create_ring(ring_name@),
                    old(self).state(),
                    final(self).state(),
                )
            },
    ;

    /// Adds a peer to a ring at the time `now`.
    fn add_peer_to_ring_at(
        &mut self,
        ring_name: &str,
        peer: EndpointId,
        label: Option<&str>,
        expires_at: Option<Timestamp>,
        now: Timestamp,
    ) -> (result: Result<(), Error>)
        requires
            old(self).ready(),
        ensures
            final(self).ready(),
            Self::reliable() ==> !error::storage_failed(result),
            old(self).coherent() ==> {
                &&& final(self).coherent()
                &&& model::follows(
                    result,
                    old(self).state().add_peer(
                        ring_name@,
                        peer@,
                        text_of(label),
                        Self::kept_expiry(nanos_of(expires_at)),
                        now@,
                    ),
                    old(self).state(),
                    final(self).state(),
                )
            },
    ;

    /// Adds a peer to a ring, optionally with a display label and an expiry.
    ///
    /// Idempotent for live members: re-adding an existing member updates its label when
    /// `label` is `Some` and its expiry when `expires_at` is `Some`. `None` leaves the existing
    /// value untouched, so an expiry cannot be cleared this way.
    ///
    /// A membership whose expiry has passed counts as absent: re-adding it starts a fresh
    /// membership, and the old label and expiry are discarded.
    fn add_peer_to_ring(
        &mut self,
        ring_name: &str,
        peer: EndpointId,
        label: Option<&str>,
        expires_at: Option<Timestamp>,
    ) -> (result: Result<(), Error>)
        requires
            old(self).ready(),
        ensures
            final(self).ready(),
            Self::reliable() ==> !error::storage_failed(result),
            old(self).coherent() ==> {
                &&& final(self).coherent()
                &&& exists|now: Timestamp| #[trigger]
                    call_ensures(Timestamp::now, (), now) && time::representable(now@) && model::follows(
                        result,
                        old(self).state().add_peer(
                            ring_name@,
                            peer@,
                            text_of(label),
                            Self::kept_expiry(nanos_of(expires_at)),
                            now@,
                        ),
                        old(self).state(),
                        final(self).state(),
                    )
            },
    {
        let now = Timestamp::now();
        self.add_peer_to_ring_at(ring_name, peer, label, expires_at, now)
    }

    /// Removes a peer from a ring. No-op if the peer is not a member.
    fn remove_peer_from_ring(&mut self, ring_name: &str, peer: EndpointId) -> (result: Result<(), Error>)
        requires
            old(self).ready(),
        ensures
            final(self).ready(),
            Self::reliable() ==> !error::storage_failed(result),
            old(self).coherent() ==> {
                &&& final(self).coherent()
                &&& model::follows(
                    result,
                    old(self).state().remove_peer(ring_name@, peer@),
                    old(self).state(),
                    final(self).state(),
                )
            },
    ;

    /// Returns every [`RingMember`] of the ring whose membership is not over at `now`.
    fn list_ring_peers_at(&self, ring_name: &str, now: Timestamp) -> (result: Result<Vec<RingMember>, Error>)
        ensures
            Self::reliable() ==> !error::storage_failed(result),
            self.coherent() ==> lists_peers(result, self.state(), ring_name@, now@),
    ;

    /// Returns every current [`RingMember`] of the ring; expired memberships are omitted.
    fn list_ring_peers(&self, ring_name: &str) -> (result: Result<Vec<RingMember>, Error>)
        ensures
            Self::reliable() ==> !error::storage_failed(result),
            self.coherent() ==> exists|now: Timestamp| #[trigger]
                call_ensures(Timestamp::now, (), now) && time::representable(now@) && lists_peers(
                    result,
                    self.state(),
                    ring_name@,
                    now@,
                ),
    {
        let now = Timestamp::now();
        self.list_ring_peers_at(ring_name, now)
    }

    /// Returns all rings, the built-in open ring first.
    fn list_rings(&self) -> (result: Result<Vec<Ring>, Error>)
        ensures
            Self::reliable() ==> !error::storage_failed(result),
            self.coherent() ==> match result {
                Ok(rings) => lists_rings(rings@, self.state()),
                Err(e) => e is Storage,
            },
    ;

    /// Removes all ring associations from a resource, revoking access for all peers.
    fn remove_ring_from_resource<ResId: ResourceId>(&mut self, resource_id: ResId) -> (result: Result<(), Error>)
        requires
            old(self).ready(),
        ensures
            final(self).ready(),
            Self::reliable() ==> !error::storage_failed(result),
            old(self).coherent() ==> {
                &&& final(self).coherent()
                &&& model::follows(
                    result,
                    Ok(old(self).state().clear_resource(resource_id.id())),
                    old(self).state(),
                    final(self).state(),
                )
            },
    ;

    /// Returns the rings currently associated with a resource, together with
    /// the permissions each ring grants on it.
    fn list_resource_rings<ResId: ResourceId>(&self, resource_id: ResId) -> (result: Result<
        Vec<(Ring, Vec<Permission>)>,
        Error,
    >)
        ensures
            Self::reliable() ==> !error::storage_failed(result),
            self.coherent() ==> match result {
                Ok(listing) => lists_grants(listing@, self.state(), resource_id.id()),
                Err(e) => e is Storage,
            },
    ;

    /// Associates a resource with a ring and grants the specified permissions
    /// to all members of that ring.
    ///
    /// If the ring is already associated with the resource, its permission set
    /// is replaced with the new one.
    fn add_ring_to_resource<ResId: ResourceId>(
        &mut self,
        resource_id: ResId,
        ring_name: &str,
        permissions: &[Permission],
    ) -> (result: Result<(), Error>)
        requires
            old(self).ready(),
        ensures
            final(self).ready(),
            Self::reliable() ==> !error::storage_failed(result),
            old(self).coherent() ==> {
                &&& final(self).coherent()
                &&& model::follows(
                    result,
                    old(self).state().add_ring_to_resource(
                        resource_id.id(),
                        ring_name@,
                        permissions@.to_set(),
                    ),
                    old(self).state(),
                    final(self).state(),
                )
            },
    ;

    /// Returns whether `peer` holds `permission` on `resource_id` at the time `now`.
    fn has_permission_at<ResId: ResourceId>(
        &self,
        peer: &EndpointId,
        resource_id: &ResId,
        permission: Permission,
        now: Timestamp,
    ) -> (result: Result<bool, Error>)
        ensures
            Self::reliable() ==> !error::storage_failed(result),
            self.coherent() ==> match result {
                Ok(yes) => yes == self.state().allows(peer@, resource_id.id(), permission, now@),
                Err(e) => e is Storage,
            },
    ;

    /// Returns `true` if `peer` holds `permission` on `resource_id`.
    ///
    /// A peer holds a permission if it belongs to at least one ring associated with the
    /// resource that grants that permission, or if the open ring is associated with the
    /// resource and grants it (which applies to any peer).
    fn has_permission<ResId: ResourceId>(
        &self,
        peer: &EndpointId,
        resource_id: &ResId,
        permission: Permission,
    ) -> (result: Result<bool, Error>)
        ensures
            Self::reliable() ==> !error::storage_failed(result),
            self.coherent() ==> match result {
                Ok(yes) => exists|now: Timestamp| #[trigger]
                    call_ensures(Timestamp::now, (), now) && time::representable(now@) && yes == self.state().allows(
                        peer@,
                        resource_id.id(),
                        permission,
                        now@,
                    ),
                Err(e) => e is Storage,
            },
    {
        let now = Timestamp::now();
        self.has_permission_at(peer, resource_id, permission, now)
    }

    /// Permanently removes every membership whose expiry is at or before `now`.
    ///
    /// Expiry is enforced whether or not this is ever called; eviction only reclaims the
    /// storage of expired memberships. Returns every membership that was evicted, in no
    /// particular order.
    fn evict_expired(&mut self, now: Timestamp) -> (result: Result<Vec<EvictedMembership>, Error>)
        requires
            old(self).ready(),
        ensures
            final(self).ready(),
            Self::reliable() ==> !error::storage_failed(result),
            old(self).coherent() ==> {
                &&& final(self).coherent()
                &&& match result {
                    Ok(evicted) => {
                        &&& final(self).state() == old(self).state().evict(now@)
                        &&& lists_lapsed(evicted@, old(self).state(), now@)
                    },
                    Err(e) => {
                        &&& e is Storage
                        &&& {
                            ||| final(self).state() == old(self).state()
                            ||| final(self).state() == old(self).state().evict(now@)
                        }
                    },
                }
            },
    ;
}

/// Validates that `permissions` is non-empty and that the open ring is only paired with `Read`.
///
/// The first step of associating a ring with a resource, whatever the backend.
pub fn validate_ring_permissions(ring_name: &str, permissions: &[Permission]) -> (result: Result<(), Error>)
    ensures
        permissions@.len() == 0 <==> result matches Err(Error::EmptyPermissionSet),
        permissions@.len() > 0 && ring_name@ == OPEN_RING_NAME@ && (exists|i: int|
            0 <= i < permissions@.len() && permissions@[i] != Permission::Read) <==> result matches Err(
            Error::OpenRingReadOnly,
        ),
        result matches Err(e) ==> e is EmptyPermissionSet || e is OpenRingReadOnly,
{
    if permissions.len() == 0 {
        return Err(Error::EmptyPermissionSet);
    }
    if octets::str_eq(ring_name, OPEN_RING_NAME) {
        let mut i: usize = 0;
        while i < permissions.len()
            invariant
                i <= permissions@.len(),
                permissions@.len() > 0,
                ring_name@ == OPEN_RING_NAME@,
                forall|j: int| 0 <= j < i ==> permissions@[j] == Permission::Read,
            decreases permissions@.len() - i,
        {
            if permissions[i] != Permission::Read {
                return Err(Error::OpenRingReadOnly);
            }
            i = i + 1;
        }
    }
    Ok(())
}

/// A ring–permission list as plain values.
pub open spec fn entries_of(entries: Seq<(String, Vec<Permission>)>) -> Seq<(Seq<char>, Seq<Permission>)> {
    entries.map_values(|e: (String, Vec<Permission>)| (e.0@, e.1@))
}

/// What a ring–permission list grants.
pub open spec fn grants_of(entries: Seq<(Seq<char>, Seq<Permission>)>) -> Seq<GrantState> {
    entries.map_values(|e: (Seq<char>, Seq<Permission>)| GrantState { ring: e.0, permissions: e.1.to_set() })
}

/// Whether a permission list holds `permission`.
pub fn contains_permission(permissions: &Vec<Permission>, permission: Permission) -> (yes: bool)
    ensures
        yes == permissions@.to_set().contains(permission),
{
    let mut i: usize = 0;
    while i < permissions.len()
        invariant
            i <= permissions@.len(),
            forall|j: int| 0 <= j < i ==> permissions@[j] != permission,
        decreases permissions@.len() - i,
    {
        if permissions[i] == permission {
            assert(permissions@.contains(permission));
            return true;
        }
        i = i + 1;
    }
    false
}

/// What a permission list and the set of its permissions say of each other.
pub proof fn lemma_permission_set(permissions: Seq<Permission>)
    ensures
        model::grants_something(permissions.to_set()) <==> permissions.len() > 0,
        model::read_only(permissions.to_set()) <==> forall|i: int|
            0 <= i < permissions.len() ==> permissions[i] == Permission::Read,
{
    if permissions.len() > 0 {
        assert(permissions.to_set().contains(permissions[0]));
    }
    if model::read_only(permissions.to_set()) {
        assert forall|i: int| 0 <= i < permissions.len() implies permissions[i] == Permission::Read by {
            assert(permissions.to_set().contains(permissions[i]));
        }
    }
}

/// The position of the first entry for `ring`, or the length of the list if there is none.
pub open spec fn first_entry(entries: Seq<(Seq<char>, Seq<Permission>)>, ring: Seq<char>) -> int
    decreases entries.len(),
{
    if entries.len() == 0 || entries[0].0 == ring {
        0
    } else {
        1 + first_entry(entries.drop_first(), ring)
    }
}

/// `entries` with the first entry for `ring` replaced, or with one put last if there is none.
pub open spec fn with_entry(
    entries: Seq<(Seq<char>, Seq<Permission>)>,
    ring: Seq<char>,
    permissions: Seq<Permission>,
) -> Seq<(Seq<char>, Seq<Permission>)> {
    let at = first_entry(entries, ring);
    if at < entries.len() {
        entries.update(at, (ring, permissions))
    } else {
        entries.push((ring, permissions))
    }
}

/// What [`first_entry`] says of the entries up to it.
pub proof fn lemma_first_entry(entries: Seq<(Seq<char>, Seq<Permission>)>, ring: Seq<char>, at: int)
    requires
        0 <= at <= entries.len(),
        forall|j: int| 0 <= j < at ==> (#[trigger] entries[j]).0 != ring,
        at < entries.len() ==> entries[at].0 == ring,
    ensures
        first_entry(entries, ring) == at,
    decreases entries.len(),
{
    if at > 0 {
        let rest = entries.drop_first();
        assert forall|j: int| 0 <= j < at - 1 implies (#[trigger] rest[j]).0 != ring by {
            assert(rest[j] == entries[j + 1]);
        }
        assert(entries[0].0 != ring);
        lemma_first_entry(rest, ring, at - 1);
    }
}

/// Where [`first_entry`] lies.
pub proof fn lemma_first_entry_at(entries: Seq<(Seq<char>, Seq<Permission>)>, ring: Seq<char>)
    ensures
        0 <= first_entry(entries, ring) <= entries.len(),
        first_entry(entries, ring) < entries.len() ==> entries[first_entry(entries, ring)].0 == ring,
        forall|j: int| 0 <= j < first_entry(entries, ring) ==> (#[trigger] entries[j]).0 != ring,
    decreases entries.len(),
{
    if entries.len() > 0 && entries[0].0 != ring {
        let rest = entries.drop_first();
        lemma_first_entry_at(rest, ring);
        assert forall|j: int| 0 <= j < first_entry(entries, ring) implies (#[trigger] entries[j]).0 != ring by {
            if j > 0 {
                assert(rest[j - 1] == entries[j]);
            }
        }
    }
}

/// Replacing an entry replaces the grant, where no ring has two entries.
pub proof fn lemma_with_entry_grants(
    entries: Seq<(Seq<char>, Seq<Permission>)>,
    ring: Seq<char>,
    permissions: Seq<Permission>,
)
    requires
        forall|i: int, j: int| 0 <= i < j < entries.len() ==> (#[trigger] entries[i]).0 != (#[trigger] entries[j]).0,
    ensures
        grants_of(with_entry(entries, ring, permissions)) == model::grant(
            grants_of(entries),
            ring,
            permissions.to_set(),
        ),
{
    let grants = grants_of(entries);
    if exists|i: int| 0 <= i < entries.len() && (#[trigger] entries[i]).0 == ring {
        let at = choose|i: int| 0 <= i < entries.len() && (#[trigger] entries[i]).0 == ring;
        assert forall|j: int| 0 <= j < at implies (#[trigger] entries[j]).0 != ring by {
            assert(entries[j].0 != entries[at].0);
        }
        lemma_first_entry(entries, ring, at);
        assert(grants[at].ring == ring);
        assert forall|j: int| 0 <= j < entries.len() && j != at implies (#[trigger] grants[j]).ring != ring by {
            assert(entries[j].0 != entries[at].0);
        }
    } else {
        lemma_first_entry(entries, ring, entries.len() as int);
        assert(!model::granted(grants, ring)) by {
            assert forall|j: int| 0 <= j < grants.len() implies (#[trigger] grants[j]).ring != ring by {
                assert(entries[j].0 != ring);
            }
        }
    }
    assert(grants_of(with_entry(entries, ring, permissions)) =~= model::grant(grants, ring, permissions.to_set()));
}

/// Computes the updated ring–permission list when associating `ring_name` with a resource.
///
/// If `ring_name` is already in `existing` its permission set is replaced; otherwise
/// it is appended. The open ring and private rings may coexist on the same resource.
pub fn compute_resource_rings(
    existing: Vec<(String, Vec<Permission>)>,
    ring_name: &str,
    permissions: Vec<Permission>,
) -> (updated: Vec<(String, Vec<Permission>)>)
    ensures
        entries_of(updated@) == with_entry(entries_of(existing@), ring_name@, permissions@),
{
    let mut updated = existing;
    let ghost entries = entries_of(existing@);
    let mut i: usize = 0;
    while i < updated.len()
        invariant
            i <= updated@.len(),
            updated@ == existing@,
            entries == entries_of(existing@),
            forall|j: int| 0 <= j < i ==> (#[trigger] entries[j]).0 != ring_name@,
        decreases updated@.len() - i,
    {
        if octets::str_eq(updated[i].0.as_str(), ring_name) {
            proof {
                lemma_first_entry(entries, ring_name@, i as int);
            }
            let entry = (ring_name.to_string(), permissions);
            updated.set(i, entry);
            assert(entries_of(updated@) =~= entries.update(i as int, (ring_name@, permissions@)));
            return updated;
        }
        i = i + 1;
    }
    proof {
        lemma_first_entry(entries, ring_name@, i as int);
    }
    updated.push((ring_name.to_string(), permissions));
    assert(entries_of(updated@) =~= entries.push((ring_name@, permissions@)));
    updated
}

} // verus!
