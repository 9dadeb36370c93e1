//! What a registry means: rings, memberships and grants as mathematical values.
//!
//! Every backend is proved to behave as [`RegistryState`] says.

use vstd::prelude::*;

use crate::error::{Error, ErrorView};
use crate::registry::Permission;
use crate::ring;
use crate::ring::OPEN_RING_NAME;

verus! {

/// One peer's membership in one ring.
pub struct MemberState {
    /// The bytes of the member's identity.
    pub peer: Seq<u8>,
    /// Its display label in this ring.
    pub label: Option<Seq<char>>,
    /// When the membership ends, in nanoseconds from the epoch; never, if `None`.
    pub expires_at: Option<int>,
}

impl MemberState {
    /// Whether the membership is over at `now`.
    pub open spec fn expired(self, now: int) -> bool {
        self.expires_at matches Some(end) && now >= end
    }

    /// The membership of a peer that is added again at `now`: what is given replaces what
    /// was there, and an expired membership keeps nothing.
    pub open spec fn renewed(self, label: Option<Seq<char>>, expires_at: Option<int>, now: int) -> MemberState {
        MemberState {
            peer: self.peer,
            label: if label is Some || self.expired(now) {
                label
            } else {
                self.label
            },
            expires_at: if expires_at is Some || self.expired(now) {
                expires_at
            } else {
                self.expires_at
            },
        }
    }
}

/// Whether `peer` has a membership among `members`, expired or not.
pub open spec fn enrolled(members: Seq<MemberState>, peer: Seq<u8>) -> bool {
    exists|i: int| 0 <= i < members.len() && (#[trigger] members[i]).peer == peer
}

/// Whether `peer` has a membership among `members` that is not over at `now`.
pub open spec fn active(members: Seq<MemberState>, peer: Seq<u8>, now: int) -> bool {
    exists|i: int|
        0 <= i < members.len() && (#[trigger] members[i]).peer == peer && !members[i].expired(now)
}

/// Whether no peer has two memberships among `members`.
pub open spec fn distinct(members: Seq<MemberState>) -> bool {
    forall|i: int, j: int|
        0 <= i < j < members.len() ==> (#[trigger] members[i]).peer != (#[trigger] members[j]).peer
}

/// `members` after `peer` was added at `now`.
pub open spec fn enrol(
    members: Seq<MemberState>,
    peer: Seq<u8>,
    label: Option<Seq<char>>,
    expires_at: Option<int>,
    now: int,
) -> Seq<MemberState> {
    if enrolled(members, peer) {
        members.map_values(
            |m: MemberState|
                if m.peer == peer {
                    m.renewed(label, expires_at, now)
                } else {
                    m
                },
        )
    } else {
        members.push(MemberState { peer, label, expires_at })
    }
}

/// `members` without those of `peer`, in order.
pub open spec fn strike(members: Seq<MemberState>, peer: Seq<u8>) -> Seq<MemberState> {
    members.filter(|m: MemberState| m.peer != peer)
}

/// The memberships among `members` that are not over at `now`, in order.
pub open spec fn current(members: Seq<MemberState>, now: int) -> Seq<MemberState> {
    members.filter(|m: MemberState| !m.expired(now))
}

/// What one ring grants on one resource.
pub struct GrantState {
    pub ring: Seq<char>,
    pub permissions: Set<Permission>,
}

/// Whether `ring` is among the grants.
pub open spec fn granted(grants: Seq<GrantState>, ring: Seq<char>) -> bool {
    exists|i: int| 0 <= i < grants.len() && (#[trigger] grants[i]).ring == ring
}

/// `grants` after `ring` was given `permissions`: a ring that is already there has its
/// permissions replaced, another is put last.
pub open spec fn grant(
    grants: Seq<GrantState>,
    ring: Seq<char>,
    permissions: Set<Permission>,
) -> Seq<GrantState> {
    if granted(grants, ring) {
        grants.map_values(
            |g: GrantState|
                if g.ring == ring {
                    GrantState { ring, permissions }
                } else {
                    g
                },
        )
    } else {
        grants.push(GrantState { ring, permissions })
    }
}

/// Whether a list of grants can belong to a resource: it is not empty, no ring occurs twice, and
/// each grant is as [`grant_wf`] says.
pub open spec fn grants_wf(grants: Seq<GrantState>, rings: Set<Seq<char>>) -> bool {
    &&& grants.len() > 0
    &&& forall|i: int, j: int|
        0 <= i < j < grants.len() ==> (#[trigger] grants[i]).ring != (#[trigger] grants[j]).ring
    &&& forall|i: int| 0 <= i < grants.len() ==> grant_wf(#[trigger] grants[i], rings)
}

/// Whether a grant is one that a registry can hold: its ring exists, it grants something, and
/// nothing but `Read` if the ring is the open one.
pub open spec fn grant_wf(g: GrantState, rings: Set<Seq<char>>) -> bool {
    &&& rings.contains(g.ring)
    &&& grants_something(g.permissions)
    &&& g.ring == OPEN_RING_NAME@ ==> read_only(g.permissions)
}

/// Whether a permission set holds any permission.
pub open spec fn grants_something(permissions: Set<Permission>) -> bool {
    exists|p: Permission| #[trigger] permissions.contains(p)
}

/// Whether a permission set holds nothing but `Read`.
pub open spec fn read_only(permissions: Set<Permission>) -> bool {
    forall|p: Permission| permissions.contains(p) ==> p == Permission::Read
}

/// The contents of a registry.
#[verifier::ext_equal]
pub struct RegistryState {
    /// Ring name to its memberships, in the order in which they were made.
    pub rings: Map<Seq<char>, Seq<MemberState>>,
    /// Resource id to the grants on it, in the order in which they were made.
    pub grants: Map<Seq<u8>, Seq<GrantState>>,
}

impl RegistryState {
    /// An empty registry: the open ring alone.
    pub open spec fn initial() -> RegistryState {
        RegistryState {
            rings: Map::empty().insert(OPEN_RING_NAME@, Seq::empty()),
            grants: Map::empty(),
        }
    }

    /// What every operation keeps: the open ring exists, ring names are valid, nobody is a
    /// member of a ring twice, and the grants on each resource are as [`grants_wf`] says.
    pub open spec fn wf(self) -> bool {
        &&& self.rings.contains_key(OPEN_RING_NAME@)
        &&& forall|name: Seq<char>| #[trigger]
            self.rings.contains_key(name) ==> ring::valid_name(name) && distinct(self.rings[name])
        &&& forall|id: Seq<u8>| #[trigger]
            self.grants.contains_key(id) ==> grants_wf(self.grants[id], self.rings.dom())
    }

    /// The grants on a resource; none, if it has no associations.
    pub open spec fn grants_on(self, id: Seq<u8>) -> Seq<GrantState> {
        if self.grants.contains_key(id) {
            self.grants[id]
        } else {
            Seq::empty()
        }
    }

    /// Whether `peer` is a member of `ring` whose membership is not over at `now`.
    pub open spec fn is_member(self, ring: Seq<char>, peer: Seq<u8>, now: int) -> bool {
        self.rings.contains_key(ring) && active(self.rings[ring], peer, now)
    }

    /// Whether `g` gives `permission` to `peer` at `now`.
    pub open spec fn confers(self, g: GrantState, peer: Seq<u8>, permission: Permission, now: int) -> bool {
        &&& g.permissions.contains(permission)
        &&& g.ring == OPEN_RING_NAME@ || self.is_member(g.ring, peer, now)
    }

    /// Whether `peer` holds `permission` on the resource `id` at `now`.
    pub open spec fn allows(self, peer: Seq<u8>, id: Seq<u8>, permission: Permission, now: int) -> bool {
        exists|i: int|
            0 <= i < self.grants_on(id).len() && self.confers(
                #[trigger] self.grants_on(id)[i],
                peer,
                permission,
                now,
            )
    }

    /// Creating a ring.
    pub open spec fn create_ring(self, name: Seq<char>) -> Result<RegistryState, ErrorView> {
        if name.len() == 0 {
            Err(ErrorView::RingNameEmpty)
        } else if !ring::clean(name) {
            Err(ErrorView::RingNameInvalidChars)
        } else if name == OPEN_RING_NAME@ {
            Err(ErrorView::RingNameReserved(name))
        } else if self.rings.contains_key(name) {
            Err(ErrorView::RingAlreadyExists(name))
        } else {
            Ok(RegistryState { rings: self.rings.insert(name, Seq::empty()), ..self })
        }
    }

    /// Adding a peer to a ring at `now`.
    pub open spec fn add_peer(
        self,
        name: Seq<char>,
        peer: Seq<u8>,
        label: Option<Seq<char>>,
        expires_at: Option<int>,
        now: int,
    ) -> Result<RegistryState, ErrorView> {
        if self.rings.contains_key(name) {
            Ok(
                RegistryState {
                    rings: self.rings.insert(
                        name,
                        enrol(self.rings[name], peer, label, expires_at, now),
                    ),
                    ..self
                },
            )
        } else {
            Err(ErrorView::RingNotFound(name))
        }
    }

    /// Removing a peer from a ring.
    pub open spec fn remove_peer(self, name: Seq<char>, peer: Seq<u8>) -> Result<RegistryState, ErrorView> {
        if self.rings.contains_key(name) {
            Ok(RegistryState { rings: self.rings.insert(name, strike(self.rings[name], peer)), ..self })
        } else {
            Err(ErrorView::RingNotFound(name))
        }
    }

    /// The members of a ring at `now`.
    pub open spec fn ring_peers(self, name: Seq<char>, now: int) -> Result<Seq<MemberState>, ErrorView> {
        if self.rings.contains_key(name) {
            Ok(current(self.rings[name], now))
        } else {
            Err(ErrorView::RingNotFound(name))
        }
    }

    /// Associating a ring with a resource.
    pub open spec fn add_ring_to_resource(
        self,
        id: Seq<u8>,
        name: Seq<char>,
        permissions: Set<Permission>,
    ) -> Result<RegistryState, ErrorView> {
        if !grants_something(permissions) {
            Err(ErrorView::EmptyPermissionSet)
        } else if name == OPEN_RING_NAME@ && !read_only(permissions) {
            Err(ErrorView::OpenRingReadOnly)
        } else if !self.rings.contains_key(name) {
            Err(ErrorView::RingNotFound(name))
        } else {
            Ok(
                RegistryState {
                    grants: self.grants.insert(id, grant(self.grants_on(id), name, permissions)),
                    ..self
                },
            )
        }
    }

    /// Removing all ring associations from a resource.
    pub open spec fn clear_resource(self, id: Seq<u8>) -> RegistryState {
        RegistryState { grants: self.grants.remove(id), ..self }
    }

    /// Whether the membership of `peer` in `ring` exists and is over at `now`.
    pub open spec fn lapsed(self, ring: Seq<char>, peer: Seq<u8>, now: int) -> bool {
        self.rings.contains_key(ring) && exists|i: int|
            0 <= i < self.rings[ring].len() && (#[trigger] self.rings[ring][i]).peer == peer
                && self.rings[ring][i].expired(now)
    }

    /// Evicting the memberships that are over at `now`.
    pub open spec fn evict(self, now: int) -> RegistryState {
        RegistryState {
            rings: self.rings.map_values(|members: Seq<MemberState>| current(members, now)),
            ..self
        }
    }
}

/// Whether an operation that turned `before` into `after` did what `outcome` says: it succeeded
/// with the state given there, or failed with the error given there and changed nothing. An
/// operation may also fail because the storage does; it has changed nothing then, or has been done
/// as a whole.
pub open spec fn follows(
    result: Result<(), Error>,
    outcome: Result<RegistryState, ErrorView>,
    before: RegistryState,
    after: RegistryState,
) -> bool {
    match result {
        Ok(()) => outcome == Ok::<RegistryState, ErrorView>(after),
        Err(Error::Storage(_)) => after == before || outcome == Ok::<RegistryState, ErrorView>(after),
        Err(e) => outcome == Err::<RegistryState, ErrorView>(e@) && after == before,
    }
}

} // verus!
