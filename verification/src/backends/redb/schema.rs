//! What the tables of the database mean.
//!
//! ```text
//! RINGS                ring_name → flat-concatenated peer-id bytes (32 B each)
//! RESOURCE_RINGS       resource_id → NUL-separated ring names
//! LABELS               ring_name\0peer_id → display label (UTF-8)
//! EXPIRIES             ring_name\0peer_id → membership expiry (secs, nanos) since UNIX epoch
//! RESOURCE_RING_PERMS  [2B len][resource_id][ring_name] → permission bitfield (u8)
//! META                 "schema_version" → version of the schema
//! ```

use vstd::prelude::*;

use super::codec;
use super::storage;
use super::storage::Cell;
use crate::error::ErrorView;
use crate::laws;
use crate::model;
use crate::model::{GrantState, MemberState, RegistryState};
use crate::octets;
use crate::registry::Permission;
use crate::ring;
use crate::ring::OPEN_RING_NAME;

verus! {

/// Maps ring names to the bytes of the members' peer ids.
pub const RINGS: &'static str = "rings";

/// Maps resource ids to NUL-separated ring names.
pub const RESOURCE_RINGS: &'static str = "resource_rings";

/// Maps memberships to display labels.
pub const LABELS: &'static str = "labels";

/// Maps memberships to expiries. No row means that the membership never expires.
pub const EXPIRIES: &'static str = "expiries";

/// Maps associations to permission bitfields: bit 0 = Read, bit 1 = Write, bit 2 = Delete.
pub const RESOURCE_RING_PERMS: &'static str = "resource_ring_perms";

/// Holds the schema version.
pub const META: &'static str = "meta";

/// Held the display labels before schema version 2.
pub const NICKNAMES_LEGACY: &'static str = "nicknames";

/// The key of the schema version.
pub const SCHEMA_VERSION_KEY: &'static str = "schema_version";

/// No table name is empty, and no two are the same.
pub proof fn lemma_table_names()
    ensures
        RINGS@.len() == 5,
        RESOURCE_RINGS@.len() == 14,
        LABELS@.len() == 6,
        EXPIRIES@.len() == 8,
        RESOURCE_RING_PERMS@.len() == 19,
        META@.len() == 4,
        NICKNAMES_LEGACY@.len() == 9,
{
    reveal_strlit("rings");
    reveal_strlit("resource_rings");
    reveal_strlit("labels");
    reveal_strlit("expiries");
    reveal_strlit("resource_ring_perms");
    reveal_strlit("meta");
    reveal_strlit("nicknames");
}

/// The tables that hold a registry.
pub open spec fn registry_tables() -> Set<Seq<char>> {
    set![RINGS@, RESOURCE_RINGS@, LABELS@, EXPIRIES@, RESOURCE_RING_PERMS@]
}

/// The rows of the tables that hold a registry, and all other tables.
#[verifier::ext_equal]
pub struct Shape {
    pub rings: Map<Seq<u8>, Cell>,
    pub resources: Map<Seq<u8>, Cell>,
    pub labels: Map<Seq<u8>, Cell>,
    pub expiries: Map<Seq<u8>, Cell>,
    pub perms: Map<Seq<u8>, Cell>,
    pub others: Map<Seq<char>, Map<Seq<u8>, Cell>>,
}

/// Whether no table of the registry is missing.
pub open spec fn complete(tables: Map<Seq<char>, Map<Seq<u8>, Cell>>) -> bool {
    forall|table: Seq<char>| #[trigger] registry_tables().contains(table) ==> tables.contains_key(table)
}

/// The rows among the tables.
pub open spec fn shape(tables: Map<Seq<char>, Map<Seq<u8>, Cell>>) -> Shape {
    Shape {
        rings: storage::rows(tables, RINGS@),
        resources: storage::rows(tables, RESOURCE_RINGS@),
        labels: storage::rows(tables, LABELS@),
        expiries: storage::rows(tables, EXPIRIES@),
        perms: storage::rows(tables, RESOURCE_RING_PERMS@),
        others: tables.remove_keys(registry_tables()),
    }
}

/// Opening a table of the registry changes no rows.
pub proof fn lemma_opened(tables: Map<Seq<char>, Map<Seq<u8>, Cell>>, table: Seq<char>)
    requires
        registry_tables().contains(table),
    ensures
        shape(storage::opened(tables, table)) == shape(tables),
        forall|other: Seq<char>, key: Seq<u8>| #[trigger]
            storage::cell(storage::opened(tables, table), other, key) == storage::cell(tables, other, key),
{
    assert(shape(storage::opened(tables, table)) =~= shape(tables));
}

/// What putting a row into each table, or taking one out, does to the rows.
pub proof fn lemma_rows_change(tables: Map<Seq<char>, Map<Seq<u8>, Cell>>, key: Seq<u8>, value: Cell)
    ensures
        shape(storage::put(tables, RINGS@, key, value)) == (Shape {
            rings: shape(tables).rings.insert(key, value),
            ..shape(tables)
        }),
        shape(storage::put(tables, RESOURCE_RINGS@, key, value)) == (Shape {
            resources: shape(tables).resources.insert(key, value),
            ..shape(tables)
        }),
        shape(storage::put(tables, LABELS@, key, value)) == (Shape {
            labels: shape(tables).labels.insert(key, value),
            ..shape(tables)
        }),
        shape(storage::put(tables, EXPIRIES@, key, value)) == (Shape {
            expiries: shape(tables).expiries.insert(key, value),
            ..shape(tables)
        }),
        shape(storage::put(tables, RESOURCE_RING_PERMS@, key, value)) == (Shape {
            perms: shape(tables).perms.insert(key, value),
            ..shape(tables)
        }),
        shape(storage::cut(tables, RESOURCE_RINGS@, key)) == (Shape {
            resources: shape(tables).resources.remove(key),
            ..shape(tables)
        }),
        shape(storage::cut(tables, LABELS@, key)) == (Shape {
            labels: shape(tables).labels.remove(key),
            ..shape(tables)
        }),
        shape(storage::cut(tables, EXPIRIES@, key)) == (Shape {
            expiries: shape(tables).expiries.remove(key),
            ..shape(tables)
        }),
        shape(storage::cut(tables, RESOURCE_RING_PERMS@, key)) == (Shape {
            perms: shape(tables).perms.remove(key),
            ..shape(tables)
        }),
{
    lemma_table_names();
    let others = shape(tables).others;
    assert(storage::put(tables, RINGS@, key, value).remove_keys(registry_tables()) =~= others);
    assert(storage::put(tables, RESOURCE_RINGS@, key, value).remove_keys(registry_tables()) =~= others);
    assert(storage::put(tables, LABELS@, key, value).remove_keys(registry_tables()) =~= others);
    assert(storage::put(tables, EXPIRIES@, key, value).remove_keys(registry_tables()) =~= others);
    assert(storage::put(tables, RESOURCE_RING_PERMS@, key, value).remove_keys(registry_tables()) =~= others);
    assert(storage::cut(tables, RESOURCE_RINGS@, key).remove_keys(registry_tables()) =~= others);
    assert(storage::cut(tables, LABELS@, key).remove_keys(registry_tables()) =~= others);
    assert(storage::cut(tables, EXPIRIES@, key).remove_keys(registry_tables()) =~= others);
    assert(storage::cut(tables, RESOURCE_RING_PERMS@, key).remove_keys(registry_tables()) =~= others);
}

/// The byte string in a cell.
pub open spec fn bytes_in(value: Cell) -> Seq<u8> {
    match value {
        Cell::Bytes(bytes) => bytes,
        _ => Seq::empty(),
    }
}

/// Being another peer.
pub open spec fn differs(peer: Seq<u8>) -> spec_fn(Seq<u8>) -> bool {
    |p: Seq<u8>| p != peer
}

impl Shape {
    /// Whether there is a ring of this name.
    pub open spec fn has_ring(self, name: Seq<char>) -> bool {
        self.rings.contains_key(vstd::utf8::encode_utf8(name))
    }

    /// The peers of a ring, expired or not.
    pub open spec fn peers(self, name: Seq<char>) -> Seq<Seq<u8>> {
        octets::chunks(bytes_in(self.rings[vstd::utf8::encode_utf8(name)]))
    }

    /// The label in a row.
    pub open spec fn label(self, key: Seq<u8>) -> Option<Seq<char>> {
        if self.labels.contains_key(key) {
            match self.labels[key] {
                Cell::Text(text) => Some(text),
                _ => None,
            }
        } else {
            None
        }
    }

    /// The expiry in a row.
    pub open spec fn expiry(self, key: Seq<u8>) -> Option<int> {
        if self.expiries.contains_key(key) {
            match self.expiries[key] {
                Cell::Instant(secs, nanos) => Some(codec::expiry_nanos((secs, nanos))),
                _ => None,
            }
        } else {
            None
        }
    }

    /// The membership of a peer in a ring.
    pub open spec fn member(self, name: Seq<char>, peer: Seq<u8>) -> MemberState {
        let key = codec::member_row(name, peer);
        MemberState { peer, label: self.label(key), expires_at: self.expiry(key) }
    }

    /// The memberships of a ring.
    pub open spec fn members(self, name: Seq<char>) -> Seq<MemberState> {
        self.peers(name).map_values(|peer: Seq<u8>| self.member(name, peer))
    }

    /// The rings associated with a resource.
    pub open spec fn names(self, id: Seq<u8>) -> Seq<Seq<char>> {
        if self.resources.contains_key(id) {
            codec::names_in(bytes_in(self.resources[id]))
        } else {
            Seq::empty()
        }
    }

    /// The permission bits of an association.
    pub open spec fn bits(self, id: Seq<u8>, name: Seq<char>) -> u8 {
        let key = codec::perm_row(id, name);
        if self.perms.contains_key(key) {
            match self.perms[key] {
                Cell::Byte(bits) => bits,
                _ => 0,
            }
        } else {
            0
        }
    }

    /// The grants on a resource.
    pub open spec fn grants(self, id: Seq<u8>) -> Seq<GrantState> {
        self.names(id).map_values(
            |name: Seq<char>| GrantState { ring: name, permissions: codec::perm_set(self.bits(id, name)) },
        )
    }

    /// The registry that the rows hold.
    pub open spec fn state(self) -> RegistryState {
        RegistryState {
            rings: Map::new(|name: Seq<char>| self.has_ring(name), |name: Seq<char>| self.members(name)),
            grants: Map::new(|id: Seq<u8>| self.resources.contains_key(id), |id: Seq<u8>| self.grants(id)),
        }
    }

    /// Whether the rows fit together: they hold a well-formed registry, and every label and every
    /// expiry belongs to a membership.
    pub open spec fn coherent(self) -> bool {
        &&& self.state().wf()
        &&& self.tidy()
    }

    /// Whether every label and every expiry belongs to a membership.
    pub open spec fn tidy(self) -> bool {
        forall|name: Seq<char>, peer: Seq<u8>|
            peer.len() == 32 && (self.labels.contains_key(#[trigger] codec::member_row(name, peer))
                || self.expiries.contains_key(codec::member_row(name, peer))) ==> self.has_ring(name)
                && self.peers(name).contains(peer)
    }

    /// The rows after a ring was created.
    pub open spec fn with_ring(self, name: Seq<char>) -> Shape {
        Shape {
            rings: self.rings.insert(vstd::utf8::encode_utf8(name), Cell::Bytes(codec::concat(Seq::empty()))),
            ..self
        }
    }

    /// The rows after a peer was added to a ring at `now`.
    pub open spec fn with_peer(
        self,
        name: Seq<char>,
        peer: Seq<u8>,
        label: Option<Seq<char>>,
        expiry: Option<(u64, u32)>,
        now: int,
    ) -> Shape {
        let key = codec::member_row(name, peer);
        let known = self.peers(name).contains(peer);
        let fresh = known && (self.expiry(key) matches Some(end) && now >= end);
        let labels = if fresh {
            self.labels.remove(key)
        } else {
            self.labels
        };
        let expiries = if fresh {
            self.expiries.remove(key)
        } else {
            self.expiries
        };
        Shape {
            rings: if known {
                self.rings
            } else {
                self.rings.insert(
                    vstd::utf8::encode_utf8(name),
                    Cell::Bytes(codec::concat(self.peers(name).push(peer))),
                )
            },
            labels: match label {
                Some(text) => labels.insert(key, Cell::Text(text)),
                None => labels,
            },
            expiries: match expiry {
                Some((secs, nanos)) => expiries.insert(key, Cell::Instant(secs, nanos)),
                None => expiries,
            },
            ..self
        }
    }

    /// The rows after a peer was removed from a ring.
    pub open spec fn without_peer(self, name: Seq<char>, peer: Seq<u8>) -> Shape {
        let key = codec::member_row(name, peer);
        Shape {
            rings: self.rings.insert(
                vstd::utf8::encode_utf8(name),
                Cell::Bytes(codec::concat(self.peers(name).filter(differs(peer)))),
            ),
            labels: self.labels.remove(key),
            expiries: self.expiries.remove(key),
            ..self
        }
    }

    /// Whether a key is that of a permission row of one of the rings of a resource.
    pub open spec fn is_perm_of(self, id: Seq<u8>, key: Seq<u8>) -> bool {
        exists|i: int| 0 <= i < self.names(id).len() && key == #[trigger] codec::perm_row(id, self.names(id)[i])
    }

    /// The rows after the associations of a resource were removed.
    pub open spec fn without_resource(self, id: Seq<u8>) -> Shape {
        Shape {
            resources: self.resources.remove(id),
            perms: self.perms.remove_keys(Set::new(|key: Seq<u8>| self.is_perm_of(id, key))),
            ..self
        }
    }

    /// The ring names of a resource after one more was associated with it.
    pub open spec fn names_with(self, id: Seq<u8>, name: Seq<char>) -> Seq<Seq<char>> {
        if self.names(id).contains(name) {
            self.names(id)
        } else {
            self.names(id).push(name)
        }
    }

    /// Being a peer whose membership in a ring is not over at `now`.
    pub open spec fn live(self, name: Seq<char>, now: int) -> spec_fn(Seq<u8>) -> bool {
        |peer: Seq<u8>| !self.member(name, peer).expired(now)
    }

    /// Whether a key is that of a membership in a ring that is over at `now`.
    pub open spec fn is_lapsed_key(self, name: Seq<char>, now: int, key: Seq<u8>) -> bool {
        exists|i: int| {
            &&& 0 <= i < self.peers(name).len()
            &&& key == #[trigger] codec::member_row(name, self.peers(name)[i])
            &&& self.member(name, self.peers(name)[i]).expired(now)
        }
    }

    /// The rows after the memberships of a ring that are over at `now` were removed.
    pub open spec fn without_expired(self, name: Seq<char>, now: int) -> Shape {
        let kept = self.peers(name).filter(self.live(name, now));
        let lapsed = Set::new(|key: Seq<u8>| self.is_lapsed_key(name, now, key));
        Shape {
            rings: if kept.len() == self.peers(name).len() {
                self.rings
            } else {
                self.rings.insert(vstd::utf8::encode_utf8(name), Cell::Bytes(codec::concat(kept)))
            },
            labels: self.labels.remove_keys(lapsed),
            expiries: self.expiries.remove_keys(lapsed),
            ..self
        }
    }

    /// The rows after a ring was associated with a resource.
    pub open spec fn with_association(self, id: Seq<u8>, name: Seq<char>, bits: u8) -> Shape {
        Shape {
            resources: self.resources.insert(id, Cell::Bytes(codec::joined(self.names_with(id, name)))),
            perms: self.perms.insert(codec::perm_row(id, name), Cell::Byte(bits)),
            ..self
        }
    }
}

/// Peers have 32 bytes.
pub proof fn lemma_peers_len(s: Shape, name: Seq<char>)
    ensures
        forall|i: int| 0 <= i < s.peers(name).len() ==> (#[trigger] s.peers(name)[i]).len() == 32,
{
}

/// Whether a peer is enrolled in a ring, in rows and in the registry they hold.
pub proof fn lemma_enrolled(s: Shape, name: Seq<char>, peer: Seq<u8>)
    ensures
        s.peers(name).contains(peer) <==> model::enrolled(s.members(name), peer),
{
    let peers = s.peers(name);
    let members = s.members(name);
    if peers.contains(peer) {
        let i = choose|i: int| 0 <= i < peers.len() && peers[i] == peer;
        assert(members[i].peer == peer);
    }
    if model::enrolled(members, peer) {
        let i = choose|i: int| 0 <= i < members.len() && (#[trigger] members[i]).peer == peer;
        assert(peers[i] == peer);
    }
}

/// What has the same rings and the same grants as the registry that rows hold is that registry.
proof fn lemma_state_is(s: Shape, state: RegistryState)
    requires
        forall|name: Seq<char>| #[trigger] state.rings.contains_key(name) == s.has_ring(name),
        forall|name: Seq<char>| s.has_ring(name) ==> state.rings[name] == #[trigger] s.members(name),
        forall|id: Seq<u8>| #[trigger] state.grants.contains_key(id) == s.resources.contains_key(id),
        forall|id: Seq<u8>| s.resources.contains_key(id) ==> state.grants[id] == #[trigger] s.grants(id),
    ensures
        s.state() == state,
{
    assert(s.state().rings =~= state.rings) by {
        assert forall|name: Seq<char>| s.state().rings.contains_key(name) implies s.state().rings[name]
            == state.rings[name] by {
            assert(s.state().rings[name] == s.members(name));
        }
    }
    assert(s.state().grants =~= state.grants) by {
        assert forall|id: Seq<u8>| s.state().grants.contains_key(id) implies s.state().grants[id]
            == state.grants[id] by {
            assert(s.state().grants[id] == s.grants(id));
        }
    }
}

/// Different ring names are different keys.
proof fn lemma_ring_keys(a: Seq<char>, b: Seq<char>)
    ensures
        vstd::utf8::encode_utf8(a) == vstd::utf8::encode_utf8(b) <==> a == b,
{
    if vstd::utf8::encode_utf8(a) == vstd::utf8::encode_utf8(b) {
        octets::lemma_utf8_injective(a, b);
    }
}

/// Creating a ring in the rows creates it in the registry.
pub proof fn lemma_with_ring(s: Shape, name: Seq<char>)
    requires
        s.coherent(),
        s.state().create_ring(name) is Ok,
    ensures
        s.state().create_ring(name) == Ok::<RegistryState, ErrorView>(s.with_ring(name).state()),
        s.with_ring(name).coherent(),
{
    let next = s.with_ring(name);
    let state = s.state().create_ring(name)->Ok_0;
    assert(codec::concat(Seq::empty()) =~= Seq::empty());
    assert forall|other: Seq<char>| #[trigger] next.has_ring(other) == (other == name || s.has_ring(other)) by {
        lemma_ring_keys(other, name);
    }
    assert forall|other: Seq<char>| other != name implies #[trigger] next.members(other) == s.members(other) by {
        lemma_ring_keys(other, name);
        assert(next.members(other) =~= s.members(other));
    }
    assert(next.members(name) =~= Seq::empty());
    assert forall|id: Seq<u8>| #[trigger] next.grants(id) == s.grants(id) by {
        assert(next.grants(id) =~= s.grants(id));
    }
    lemma_state_is(next, state);
    laws::law_create_ring_wf(s.state(), name);
    assert forall|r: Seq<char>, p: Seq<u8>|
        p.len() == 32 && (next.labels.contains_key(#[trigger] codec::member_row(r, p)) || next.expiries.contains_key(
            codec::member_row(r, p),
        )) implies next.has_ring(r) && next.peers(r).contains(p) by {
        assert(s.has_ring(r));
        assert(s.state().rings.contains_key(r));
        lemma_ring_keys(r, name);
    }
}

/// Adding a peer in the rows adds it in the registry.
pub proof fn lemma_with_peer(
    s: Shape,
    name: Seq<char>,
    peer: Seq<u8>,
    label: Option<Seq<char>>,
    expiry: Option<(u64, u32)>,
    now: int,
)
    requires
        s.coherent(),
        s.has_ring(name),
        peer.len() == 32,
    ensures
        ({
            let expires_at = match expiry {
                Some(row) => Some(codec::expiry_nanos(row)),
                None => None,
            };
            s.state().add_peer(name, peer, label, expires_at, now) == Ok::<RegistryState, ErrorView>(
                s.with_peer(name, peer, label, expiry, now).state(),
            )
        }),
        s.with_peer(name, peer, label, expiry, now).coherent(),
{
    let expires_at = match expiry {
        Some(row) => Some(codec::expiry_nanos(row)),
        None => None,
    };
    let key = codec::member_row(name, peer);
    let next = s.with_peer(name, peer, label, expiry, now);
    let state = s.state().add_peer(name, peer, label, expires_at, now)->Ok_0;
    let known = s.peers(name).contains(peer);
    lemma_enrolled(s, name, peer);
    assert(s.state().rings[name] == s.members(name));
    assert forall|other: Seq<char>| #[trigger] next.has_ring(other) == s.has_ring(other) by {
        lemma_ring_keys(other, name);
    }
    let after = if known {
        s.peers(name)
    } else {
        s.peers(name).push(peer)
    };
    assert(next.peers(name) == after) by {
        if !known {
            lemma_peers_len(s, name);
            codec::law_peer_ids_round_trip(s.peers(name).push(peer));
        }
    }
    assert forall|r: Seq<char>, p: Seq<u8>| p.len() == 32 && (r != name || p != peer) implies #[trigger] next.member(r, p)
        == s.member(r, p) by {
        if codec::member_row(r, p) == key {
            codec::law_member_keys_distinct(r, p, name, peer);
        }
    }
    assert forall|other: Seq<char>| other != name implies #[trigger] next.members(other) == s.members(other) by {
        lemma_ring_keys(other, name);
        assert(next.peers(other) == s.peers(other));
        lemma_peers_len(s, other);
        assert(next.members(other) =~= s.members(other));
    }
    assert(next.members(name) =~= model::enrol(s.members(name), peer, label, expires_at, now)) by {
        lemma_peers_len(s, name);
        if known {
            assert forall|i: int| 0 <= i < after.len() implies #[trigger] next.members(name)[i] == model::enrol(
                s.members(name),
                peer,
                label,
                expires_at,
                now,
            )[i] by {
                if after[i] != peer {
                    assert(next.member(name, after[i]) == s.member(name, after[i]));
                }
            }
        } else {
            assert(!s.labels.contains_key(key) && !s.expiries.contains_key(key));
            assert forall|i: int| 0 <= i < s.peers(name).len() implies #[trigger] next.members(name)[i] == s.members(
                name,
            )[i] by {
                assert(s.peers(name)[i] != peer);
                assert(next.member(name, after[i]) == s.member(name, after[i]));
            }
        }
    }
    assert forall|id: Seq<u8>| #[trigger] next.grants(id) == s.grants(id) by {
        assert(next.grants(id) =~= s.grants(id));
    }
    lemma_state_is(next, state);
    laws::law_add_peer_wf(s.state(), name, peer, label, expires_at, now);
    assert forall|r: Seq<char>, p: Seq<u8>|
        p.len() == 32 && (next.labels.contains_key(#[trigger] codec::member_row(r, p)) || next.expiries.contains_key(
            codec::member_row(r, p),
        )) implies next.has_ring(r) && next.peers(r).contains(p) by {
        lemma_ring_keys(r, name);
        if r == name && p == peer {
            if !known {
                assert(after[after.len() - 1] == peer);
            }
        } else {
            if codec::member_row(r, p) == key {
                codec::law_member_keys_distinct(r, p, name, peer);
            }
            assert(s.has_ring(r) && s.peers(r).contains(p));
            if r == name {
                let i = choose|i: int| 0 <= i < s.peers(name).len() && s.peers(name)[i] == p;
                assert(after[i] == p);
            }
        }
    }
}

/// Filtering peers, and filtering the memberships of those peers.
proof fn lemma_filter_peers(
    peers: Seq<Seq<u8>>,
    f: spec_fn(Seq<u8>) -> MemberState,
    pick: spec_fn(Seq<u8>) -> bool,
    keep: spec_fn(MemberState) -> bool,
)
    requires
        forall|p: Seq<u8>| pick(p) == #[trigger] keep(f(p)),
    ensures
        peers.filter(pick).map_values(f) == peers.map_values(f).filter(keep),
    decreases peers.len(),
{
    reveal(Seq::filter);
    if peers.len() > 0 {
        let init = peers.drop_last();
        let last = peers.last();
        lemma_filter_peers(init, f, pick, keep);
        assert(peers.map_values(f).drop_last() =~= init.map_values(f));
        assert(peers.map_values(f).last() == f(last));
        assert(pick(last) == keep(f(last)));
        if pick(last) {
            assert(init.filter(pick).push(last).map_values(f) =~= init.filter(pick).map_values(f).push(f(last)));
        }
    } else {
        assert(peers.filter(pick).map_values(f) =~= peers.map_values(f).filter(keep));
    }
}

/// What a filtered list of peers holds.
pub proof fn lemma_filtered_peers(peers: Seq<Seq<u8>>, pick: spec_fn(Seq<u8>) -> bool, p: Seq<u8>)
    ensures
        peers.filter(pick).contains(p) <==> peers.contains(p) && pick(p),
    decreases peers.len(),
{
    reveal(Seq::filter);
    if peers.len() > 0 {
        let init = peers.drop_last();
        let last = peers.last();
        lemma_filtered_peers(init, pick, p);
        if init.contains(p) {
            let i = choose|i: int| 0 <= i < init.len() && init[i] == p;
            assert(peers[i] == p);
        }
        if peers.contains(p) && p != last {
            let i = choose|i: int| 0 <= i < peers.len() && peers[i] == p;
            assert(init[i] == p);
        }
        if p == last {
            assert(peers[peers.len() - 1] == p);
        }
        let kept = init.filter(pick);
        if pick(last) {
            if kept.contains(p) {
                let i = choose|i: int| 0 <= i < kept.len() && kept[i] == p;
                assert(kept.push(last)[i] == p);
            }
            if p == last {
                assert(kept.push(last)[kept.len() as int] == p);
            }
        }
    }
}

/// Peers that are left after filtering still have 32 bytes.
pub proof fn lemma_filtered_len(peers: Seq<Seq<u8>>, pick: spec_fn(Seq<u8>) -> bool)
    requires
        forall|i: int| 0 <= i < peers.len() ==> (#[trigger] peers[i]).len() == 32,
    ensures
        forall|i: int| 0 <= i < peers.filter(pick).len() ==> (#[trigger] peers.filter(pick)[i]).len() == 32,
{
    let kept = peers.filter(pick);
    assert forall|i: int| 0 <= i < kept.len() implies (#[trigger] kept[i]).len() == 32 by {
        assert(kept.contains(kept[i]));
        lemma_filtered_peers(peers, pick, kept[i]);
        let j = choose|j: int| 0 <= j < peers.len() && peers[j] == kept[i];
        assert(peers[j].len() == 32);
    }
}

/// Removing a peer in the rows removes it in the registry.
pub proof fn lemma_without_peer(s: Shape, name: Seq<char>, peer: Seq<u8>)
    requires
        s.coherent(),
        s.has_ring(name),
        peer.len() == 32,
    ensures
        s.state().remove_peer(name, peer) == Ok::<RegistryState, ErrorView>(s.without_peer(name, peer).state()),
        s.without_peer(name, peer).coherent(),
{
    let key = codec::member_row(name, peer);
    let next = s.without_peer(name, peer);
    let state = s.state().remove_peer(name, peer)->Ok_0;
    let pick = differs(peer);
    let after = s.peers(name).filter(pick);
    assert(s.state().rings[name] == s.members(name));
    assert forall|other: Seq<char>| #[trigger] next.has_ring(other) == s.has_ring(other) by {
        lemma_ring_keys(other, name);
    }
    lemma_peers_len(s, name);
    lemma_filtered_len(s.peers(name), pick);
    assert(next.peers(name) == after) by {
        codec::law_peer_ids_round_trip(after);
    }
    assert forall|r: Seq<char>, p: Seq<u8>| p.len() == 32 && (r != name || p != peer) implies #[trigger] next.member(r, p)
        == s.member(r, p) by {
        if codec::member_row(r, p) == key {
            codec::law_member_keys_distinct(r, p, name, peer);
        }
    }
    assert forall|other: Seq<char>| other != name implies #[trigger] next.members(other) == s.members(other) by {
        lemma_ring_keys(other, name);
        assert(next.peers(other) == s.peers(other));
        lemma_peers_len(s, other);
        assert(next.members(other) =~= s.members(other));
    }
    assert(next.members(name) == model::strike(s.members(name), peer)) by {
        let f = |p: Seq<u8>| s.member(name, p);
        assert(next.members(name) =~= after.map_values(f)) by {
            assert forall|i: int| 0 <= i < after.len() implies #[trigger] next.members(name)[i] == f(after[i]) by {
                assert(after.contains(after[i]));
                lemma_filtered_peers(s.peers(name), pick, after[i]);
                assert(next.member(name, after[i]) == s.member(name, after[i]));
            }
        }
        lemma_filter_peers(s.peers(name), f, pick, |m: MemberState| m.peer != peer);
    }
    assert forall|id: Seq<u8>| #[trigger] next.grants(id) == s.grants(id) by {
        assert(next.grants(id) =~= s.grants(id));
    }
    lemma_state_is(next, state);
    laws::law_remove_peer_wf(s.state(), name, peer);
    assert forall|r: Seq<char>, p: Seq<u8>|
        p.len() == 32 && (next.labels.contains_key(#[trigger] codec::member_row(r, p)) || next.expiries.contains_key(
            codec::member_row(r, p),
        )) implies next.has_ring(r) && next.peers(r).contains(p) by {
        lemma_ring_keys(r, name);
        assert(s.has_ring(r) && s.peers(r).contains(p));
        if r == name {
            assert(p != peer);
            lemma_filtered_peers(s.peers(name), pick, p);
        }
    }
}

/// Grants on a resource, in rows and in the registry they hold.
pub proof fn lemma_grants_on(s: Shape, id: Seq<u8>)
    ensures
        s.state().grants_on(id) == s.grants(id),
{
    if s.resources.contains_key(id) {
        assert(s.state().grants.contains_key(id));
        assert(s.state().grants[id] == s.grants(id));
    } else {
        assert(s.grants(id) =~= Seq::empty());
    }
}

/// The rings of a resource exist, and none occurs twice.
proof fn lemma_grants_at(s: Shape, id: Seq<u8>)
    requires
        s.coherent(),
    ensures
        s.state().grants_on(id) == s.grants(id),
        forall|i: int|
            0 <= i < s.names(id).len() ==> s.has_ring(#[trigger] s.names(id)[i]) && ring::valid_name(s.names(id)[i]),
        forall|i: int, j: int|
            0 <= i < j < s.names(id).len() ==> (#[trigger] s.names(id)[i]) != (#[trigger] s.names(id)[j]),
{
    let state = s.state();
    lemma_grants_on(s, id);
    if s.resources.contains_key(id) {
        assert(state.grants.contains_key(id));
        let grants = s.grants(id);
        assert(model::grants_wf(grants, state.rings.dom()));
        assert forall|i: int| 0 <= i < s.names(id).len() implies s.has_ring(#[trigger] s.names(id)[i])
            && ring::valid_name(s.names(id)[i]) by {
            assert(model::grant_wf(grants[i], state.rings.dom()));
            assert(state.rings.contains_key(s.names(id)[i]));
        }
        assert forall|i: int, j: int| 0 <= i < j < s.names(id).len() implies (#[trigger] s.names(id)[i]) != (
        #[trigger] s.names(id)[j]) by {
            assert(grants[i].ring != grants[j].ring);
        }
    }
}

/// Removing the associations of a resource in the rows removes them in the registry.
pub proof fn lemma_without_resource(s: Shape, id: Seq<u8>)
    requires
        s.coherent(),
    ensures
        s.without_resource(id).state() == s.state().clear_resource(id),
        s.without_resource(id).coherent(),
{
    let next = s.without_resource(id);
    assert forall|name: Seq<char>| #[trigger] next.members(name) == s.members(name) by {
        assert(next.members(name) =~= s.members(name));
    }
    assert forall|other: Seq<u8>| other != id && s.resources.contains_key(other) implies #[trigger] next.grants(other)
        == s.grants(other) by {
        assert(next.names(other) == s.names(other));
        assert forall|name: Seq<char>| #[trigger] next.bits(other, name) == s.bits(other, name) by {
            let key = codec::perm_row(other, name);
            if s.is_perm_of(id, key) {
                let i = choose|i: int|
                    0 <= i < s.names(id).len() && key == #[trigger] codec::perm_row(id, s.names(id)[i]);
                codec::law_perm_keys_distinct(other, name, id, s.names(id)[i]);
            }
        }
        assert(next.grants(other) =~= s.grants(other));
    }
    lemma_state_is(next, s.state().clear_resource(id));
    laws::law_clear_resource_wf(s.state(), id);
    assert(next.tidy()) by {
        assert forall|r: Seq<char>, p: Seq<u8>|
            p.len() == 32 && (next.labels.contains_key(#[trigger] codec::member_row(r, p))
                || next.expiries.contains_key(codec::member_row(r, p))) implies next.has_ring(r)
            && next.peers(r).contains(p) by {
            assert(s.has_ring(r) && s.peers(r).contains(p));
        }
    }
}

/// Associating a ring with a resource in the rows associates it in the registry.
pub proof fn lemma_with_association(
    s: Shape,
    id: Seq<u8>,
    name: Seq<char>,
    bits: u8,
    permissions: Set<Permission>,
)
    requires
        s.coherent(),
        s.state().add_ring_to_resource(id, name, permissions) is Ok,
        codec::perm_set(bits) == permissions,
    ensures
        s.state().add_ring_to_resource(id, name, permissions) == Ok::<RegistryState, ErrorView>(
            s.with_association(id, name, bits).state(),
        ),
        s.with_association(id, name, bits).coherent(),
{
    let next = s.with_association(id, name, bits);
    let state = s.state().add_ring_to_resource(id, name, permissions)->Ok_0;
    let names = s.names_with(id, name);
    lemma_grants_at(s, id);
    assert(s.state().rings.contains_key(name));
    assert forall|i: int| 0 <= i < names.len() implies ring::valid_name(#[trigger] names[i]) by {
        if i < s.names(id).len() {
            assert(ring::valid_name(s.names(id)[i]));
        }
    }
    if s.names(id).contains(name) {
        let k = choose|k: int| 0 <= k < s.names(id).len() && s.names(id)[k] == name;
        assert(names.len() > 0);
    }
    assert forall|i: int| 0 <= i < names.len() implies codec::nul_free(#[trigger] names[i]) && names[i].len() > 0 by {
        assert(ring::valid_name(names[i]));
        assert forall|k: int| 0 <= k < names[i].len() implies names[i][k] != '\0' by {
            assert(!ring::forbidden(names[i][k]));
        }
    }
    codec::law_ring_names_round_trip(names);
    assert(next.names(id) == names);
    assert forall|other: Seq<u8>, r: Seq<char>| other != id || r != name implies #[trigger] next.bits(other, r)
        == s.bits(other, r) by {
        if codec::perm_row(other, r) == codec::perm_row(id, name) {
            codec::law_perm_keys_distinct(other, r, id, name);
        }
    }
    assert(next.bits(id, name) == bits);
    assert forall|ring: Seq<char>| #[trigger] next.members(ring) == s.members(ring) by {
        assert(next.members(ring) =~= s.members(ring));
    }
    assert forall|other: Seq<u8>| other != id && s.resources.contains_key(other) implies #[trigger] next.grants(other)
        == s.grants(other) by {
        assert(next.names(other) == s.names(other));
        assert(next.grants(other) =~= s.grants(other));
    }
    assert(next.grants(id) == model::grant(s.grants(id), name, permissions)) by {
        let before = s.grants(id);
        if s.names(id).contains(name) {
            let k = choose|k: int| 0 <= k < s.names(id).len() && s.names(id)[k] == name;
            assert(before[k].ring == name);
            assert(model::granted(before, name));
        } else if model::granted(before, name) {
            let k = choose|k: int| 0 <= k < before.len() && (#[trigger] before[k]).ring == name;
            assert(s.names(id)[k] == name);
        }
        let after = model::grant(before, name, permissions);
        assert forall|i: int| 0 <= i < names.len() implies #[trigger] next.grants(id)[i] == after[i] by {
            if i < s.names(id).len() {
                if names[i] != name {
                    assert(next.bits(id, names[i]) == s.bits(id, names[i]));
                }
            }
        }
        assert(next.grants(id) =~= after);
    }
    lemma_state_is(next, state);
    laws::law_add_ring_to_resource_wf(s.state(), id, name, permissions);
    assert(next.tidy()) by {
        assert forall|r: Seq<char>, p: Seq<u8>|
            p.len() == 32 && (next.labels.contains_key(#[trigger] codec::member_row(r, p))
                || next.expiries.contains_key(codec::member_row(r, p))) implies next.has_ring(r)
            && next.peers(r).contains(p) by {
            assert(s.has_ring(r) && s.peers(r).contains(p));
        }
    }
}

/// A filtered list that is as long as the list is the list.
pub proof fn lemma_nothing_filtered(peers: Seq<Seq<u8>>, pick: spec_fn(Seq<u8>) -> bool)
    ensures
        peers.filter(pick).len() <= peers.len(),
        peers.filter(pick).len() == peers.len() ==> peers.filter(pick) == peers,
    decreases peers.len(),
{
    reveal(Seq::filter);
    if peers.len() > 0 {
        let init = peers.drop_last();
        lemma_nothing_filtered(init, pick);
        assert(peers =~= init.push(peers.last()));
    } else {
        assert(peers.filter(pick) =~= peers);
    }
}

/// Removing the expired memberships of a ring in the rows removes them in the registry.
pub proof fn lemma_without_expired(s: Shape, name: Seq<char>, now: int)
    requires
        s.coherent(),
        s.has_ring(name),
    ensures
        s.without_expired(name, now).state() == (RegistryState {
            rings: s.state().rings.insert(name, model::current(s.state().rings[name], now)),
            ..s.state()
        }),
        s.without_expired(name, now).coherent(),
{
    let next = s.without_expired(name, now);
    let state = RegistryState {
        rings: s.state().rings.insert(name, model::current(s.state().rings[name], now)),
        ..s.state()
    };
    let pick = s.live(name, now);
    let after = s.peers(name).filter(pick);
    assert(s.state().rings[name] == s.members(name));
    assert forall|other: Seq<char>| #[trigger] next.has_ring(other) == s.has_ring(other) by {
        lemma_ring_keys(other, name);
    }
    lemma_peers_len(s, name);
    lemma_filtered_len(s.peers(name), pick);
    lemma_nothing_filtered(s.peers(name), pick);
    assert(next.peers(name) == after) by {
        codec::law_peer_ids_round_trip(after);
    }
    assert forall|r: Seq<char>, p: Seq<u8>|
        p.len() == 32 && !(r == name && s.peers(name).contains(p) && s.member(name, p).expired(now)) implies
        #[trigger] next.member(r, p) == s.member(r, p) by {
        let key = codec::member_row(r, p);
        if s.is_lapsed_key(name, now, key) {
            let i = choose|i: int| {
                &&& 0 <= i < s.peers(name).len()
                &&& key == #[trigger] codec::member_row(name, s.peers(name)[i])
                &&& s.member(name, s.peers(name)[i]).expired(now)
            };
            codec::law_member_keys_distinct(r, p, name, s.peers(name)[i]);
        }
    }
    assert forall|other: Seq<char>| other != name implies #[trigger] next.members(other) == s.members(other) by {
        lemma_ring_keys(other, name);
        assert(next.peers(other) == s.peers(other));
        lemma_peers_len(s, other);
        assert forall|i: int| 0 <= i < s.peers(other).len() implies #[trigger] next.members(other)[i] == s.members(
            other,
        )[i] by {
            assert(next.member(other, s.peers(other)[i]) == s.member(other, s.peers(other)[i]));
        }
        assert(next.members(other) =~= s.members(other));
    }
    assert(next.members(name) == model::current(s.members(name), now)) by {
        let f = |p: Seq<u8>| s.member(name, p);
        assert(next.members(name) =~= after.map_values(f)) by {
            assert forall|i: int| 0 <= i < after.len() implies #[trigger] next.members(name)[i] == f(after[i]) by {
                assert(after.contains(after[i]));
                lemma_filtered_peers(s.peers(name), pick, after[i]);
                assert(next.member(name, after[i]) == s.member(name, after[i]));
            }
        }
        lemma_filter_peers(s.peers(name), f, pick, |m: MemberState| !m.expired(now));
    }
    assert forall|id: Seq<u8>| #[trigger] next.grants(id) == s.grants(id) by {
        assert(next.grants(id) =~= s.grants(id));
    }
    lemma_state_is(next, state);
    assert(state.rings.dom() =~= s.state().rings.dom());
    assert(s.state().rings.contains_key(name));
    laws::lemma_filter_distinct(s.members(name), |m: MemberState| !m.expired(now));
    assert forall|r: Seq<char>, p: Seq<u8>|
        p.len() == 32 && (next.labels.contains_key(#[trigger] codec::member_row(r, p)) || next.expiries.contains_key(
            codec::member_row(r, p),
        )) implies next.has_ring(r) && next.peers(r).contains(p) by {
        lemma_ring_keys(r, name);
        assert(s.has_ring(r) && s.peers(r).contains(p));
        if r == name {
            if s.member(name, p).expired(now) {
                let i = choose|i: int| 0 <= i < s.peers(name).len() && s.peers(name)[i] == p;
                assert(codec::member_row(r, p) == codec::member_row(name, s.peers(name)[i]));
                assert(s.is_lapsed_key(name, now, codec::member_row(r, p)));
            }
            lemma_filtered_peers(s.peers(name), pick, p);
        }
    }
}

/// Rows of nothing but the open ring hold an empty registry.
pub proof fn lemma_initial(s: Shape)
    requires
        s.rings.dom() == set![vstd::utf8::encode_utf8(OPEN_RING_NAME@)],
        s.members(OPEN_RING_NAME@).len() == 0,
        s.resources == Map::<Seq<u8>, Cell>::empty(),
        s.labels == Map::<Seq<u8>, Cell>::empty(),
        s.expiries == Map::<Seq<u8>, Cell>::empty(),
    ensures
        s.state() == RegistryState::initial(),
        s.coherent(),
{
    assert forall|name: Seq<char>| #[trigger] s.has_ring(name) == (name == OPEN_RING_NAME@) by {
        lemma_ring_keys(name, OPEN_RING_NAME@);
        assert(s.rings.contains_key(vstd::utf8::encode_utf8(name)) == s.rings.dom().contains(
            vstd::utf8::encode_utf8(name),
        ));
    }
    assert(s.members(OPEN_RING_NAME@) =~= Seq::empty());
    lemma_state_is(s, RegistryState::initial());
    laws::law_initial_wf();
}

/// What the rows of the tables mean. A ring is a row of `rings` under its name, with the ids of its
/// peers one after the other. The label and the expiry of a peer are rows of `labels` and `expiries`
/// under the name of the ring, a NUL and the id. The rings of a resource are the names in its row of
/// `resource_rings`, and what each grants is the byte in `resource_ring_perms`.
pub proof fn law_what_the_rows_mean(
    tables: Map<Seq<char>, Map<Seq<u8>, Cell>>,
    name: Seq<char>,
    row: Seq<u8>,
    peer: Seq<u8>,
    id: Seq<u8>,
)
    requires
        peer.len() == 32,
    ensures
        ({
            let s = shape(tables).state();
            let key = vstd::utf8::encode_utf8(name) + seq![0u8] + peer;
            &&& s.rings.contains_key(name) <==> storage::cell(
                tables,
                "rings"@,
                vstd::utf8::encode_utf8(name),
            ) is Some
            &&& storage::cell(tables, "rings"@, vstd::utf8::encode_utf8(name)) == Some(Cell::Bytes(row)) ==> {
                &&& s.rings[name].len() == row.len() / 32
                &&& forall|i: int|
                    0 <= i < s.rings[name].len() ==> (#[trigger] s.rings[name][i]).peer == row.subrange(
                        32 * i,
                        32 * i + 32,
                    )
                &&& forall|i: int|
                    0 <= i < s.rings[name].len() && (#[trigger] s.rings[name][i]).peer == peer ==> {
                        &&& s.rings[name][i].label == match storage::cell(tables, "labels"@, key) {
                            Some(Cell::Text(text)) => Some(text),
                            _ => None,
                        }
                        &&& s.rings[name][i].expires_at == match storage::cell(tables, "expiries"@, key) {
                            Some(Cell::Instant(secs, nanos)) => Some(secs * 1_000_000_000 + nanos),
                            _ => None,
                        }
                    }
            }
            &&& s.grants.contains_key(id) <==> storage::cell(tables, "resource_rings"@, id) is Some
            &&& storage::cell(tables, "resource_rings"@, id) == Some(Cell::Bytes(row)) ==> {
                &&& s.grants[id].len() == codec::names_in(row).len()
                &&& forall|i: int|
                    0 <= i < s.grants[id].len() ==> {
                        &&& (#[trigger] s.grants[id][i]).ring == codec::names_in(row)[i]
                        &&& forall|p: Permission| #[trigger]
                            s.grants[id][i].permissions.contains(p) <==> match storage::cell(
                                tables,
                                "resource_ring_perms"@,
                                codec::perm_row(id, codec::names_in(row)[i]),
                            ) {
                                Some(Cell::Byte(bits)) => bits & (match p {
                                    Permission::Read => 1u8,
                                    Permission::Write => 2u8,
                                    Permission::Delete => 4u8,
                                }) != 0,
                                _ => false,
                            }
                    }
            }
        }),
{
    let s = shape(tables).state();
    let key = vstd::utf8::encode_utf8(name) + seq![0u8] + peer;
    assert(codec::member_row(name, peer) =~= key);
    assert((0u8 & 1u8) == 0 && (0u8 & 2u8) == 0 && (0u8 & 4u8) == 0) by (bit_vector);
    if storage::cell(tables, "rings"@, vstd::utf8::encode_utf8(name)) == Some(Cell::Bytes(row)) {
        assert(shape(tables).peers(name) == octets::chunks(row));
        assert forall|i: int| 0 <= i < s.rings[name].len() implies (#[trigger] s.rings[name][i]).peer == row.subrange(
            32 * i,
            32 * i + 32,
        ) by {
            assert(shape(tables).members(name)[i].peer == octets::chunks(row)[i]);
        }
    }
}

/// Whether rows fit together: they hold a well-formed registry, and no label and no expiry is kept
/// for somebody who is not in the ring.
pub proof fn law_coherent_rows(s: Shape)
    ensures
        s.coherent() <==> {
            &&& s.state().wf()
            &&& forall|name: Seq<char>, peer: Seq<u8>|
                #![trigger codec::member_row(name, peer)]
                peer.len() == 32 && (s.labels.contains_key(codec::member_row(name, peer)) || s.expiries.contains_key(
                    codec::member_row(name, peer),
                )) ==> s.rings.contains_key(vstd::utf8::encode_utf8(name)) && s.peers(name).contains(peer)
        },
{
}

/// What each write leaves as it is: the tables that do not belong to the registry always, the
/// associations and permissions where members change, and the members where associations do.
pub proof fn law_writes_leave_the_rest(
    s: Shape,
    name: Seq<char>,
    peer: Seq<u8>,
    label: Option<Seq<char>>,
    expiry: Option<(u64, u32)>,
    now: int,
    id: Seq<u8>,
    bits: u8,
)
    ensures
        ({
            let created = s.with_ring(name);
            let added = s.with_peer(name, peer, label, expiry, now);
            let removed = s.without_peer(name, peer);
            let evicted = s.without_expired(name, now);
            let cleared = s.without_resource(id);
            let associated = s.with_association(id, name, bits);
            &&& created.others == s.others && added.others == s.others && removed.others == s.others
            &&& evicted.others == s.others && cleared.others == s.others && associated.others == s.others
            &&& created.resources == s.resources && created.perms == s.perms
            &&& added.resources == s.resources && added.perms == s.perms
            &&& removed.resources == s.resources && removed.perms == s.perms
            &&& evicted.resources == s.resources && evicted.perms == s.perms
            &&& cleared.rings == s.rings && cleared.labels == s.labels && cleared.expiries == s.expiries
            &&& associated.rings == s.rings && associated.labels == s.labels && associated.expiries == s.expiries
            &&& created.labels == s.labels && created.expiries == s.expiries
            &&& forall|key: Seq<u8>|
                key != vstd::utf8::encode_utf8(name) && #[trigger] s.rings.contains_key(key) ==> {
                    &&& created.rings.contains_key(key) && created.rings[key] == s.rings[key]
                    &&& added.rings.contains_key(key) && added.rings[key] == s.rings[key]
                    &&& removed.rings.contains_key(key) && removed.rings[key] == s.rings[key]
                    &&& evicted.rings.contains_key(key) && evicted.rings[key] == s.rings[key]
                }
            &&& forall|key: Seq<u8>|
                key != vstd::utf8::encode_utf8(name) + seq![0u8] + peer && #[trigger] s.labels.contains_key(key) ==> {
                    &&& added.labels.contains_key(key) && added.labels[key] == s.labels[key]
                    &&& removed.labels.contains_key(key) && removed.labels[key] == s.labels[key]
                }
            &&& forall|key: Seq<u8>|
                key != vstd::utf8::encode_utf8(name) + seq![0u8] + peer && #[trigger] s.expiries.contains_key(key)
                    ==> {
                    &&& added.expiries.contains_key(key) && added.expiries[key] == s.expiries[key]
                    &&& removed.expiries.contains_key(key) && removed.expiries[key] == s.expiries[key]
                }
        }),
{
}

/// A database is complete if it has the tables for rings, associations, labels, expiries and
/// permissions, whatever else it has.
pub proof fn law_complete(tables: Map<Seq<char>, Map<Seq<u8>, Cell>>)
    ensures
        complete(tables) <==> {
            &&& tables.contains_key("rings"@)
            &&& tables.contains_key("resource_rings"@)
            &&& tables.contains_key("labels"@)
            &&& tables.contains_key("expiries"@)
            &&& tables.contains_key("resource_ring_perms"@)
        },
{
    assert(complete(tables) ==> registry_tables().contains("rings"@) && registry_tables().contains("resource_rings"@)
        && registry_tables().contains("labels"@) && registry_tables().contains("expiries"@)
        && registry_tables().contains("resource_ring_perms"@));
}

} // verus!
