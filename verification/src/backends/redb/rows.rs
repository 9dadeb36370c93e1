//! The operations of the registry, each within one transaction.
//!
//! Each function reads and writes rows, and is proved to turn the [`Shape`] of what the
//! transaction holds into the one that [`Shape`] names for the operation.

use vstd::prelude::*;

use super::codec;
use super::decisions;
use super::failures;
use super::schema;
use super::schema::{Shape, EXPIRIES, LABELS, RESOURCE_RINGS, RESOURCE_RING_PERMS, RINGS};
use super::storage;
use super::storage::Cell;
use crate::assoc;
use crate::backends::eviction;
use crate::endpoint;
use crate::endpoint::EndpointId;
use crate::error;
use crate::error::{Error, ErrorView};
use crate::model;
use crate::model::{MemberState, RegistryState};
use crate::octets;
use crate::registry;
use crate::registry::{EvictedMembership, Permission, RingMember};
use crate::ring;
use crate::ring::{Ring, OPEN_RING_NAME};
use crate::time;
use crate::time::Timestamp;

verus! {

broadcast use failures::group_reports;

/// The rows that a write transaction holds.
pub open spec fn written(txn: redb::WriteTransaction) -> Shape {
    schema::shape(storage::pending(txn))
}

/// The rows that a read transaction sees.
pub open spec fn seen(txn: redb::ReadTransaction) -> Shape {
    schema::shape(storage::snapshot(txn))
}

/// Ends a write transaction: commits it if all went well, and drops what it wrote otherwise.
pub(crate) fn finish<T>(db: &mut redb::Database, txn: redb::WriteTransaction, outcome: Result<T, Error>) -> (result:
    Result<T, Error>)
    requires
        storage::origin(txn) == *old(db),
    ensures
        failures::owed_to_redb(outcome) ==> failures::owed_to_redb(result),
        !storage::writing(*final(db)),
        storage::opened_at(*final(db)) == storage::opened_at(*old(db)),
        result is Ok ==> result == outcome && storage::committed(*final(db)) == storage::pending(txn),
        outcome is Ok && result is Err ==> {
            &&& error::storage_failed(result)
            &&& {
                ||| storage::committed(*final(db)) == storage::committed(*old(db))
                ||| storage::committed(*final(db)) == storage::pending(txn)
            }
        },
        outcome is Err ==> {
            &&& result == outcome
            &&& storage::committed(*final(db)) == storage::committed(*old(db))
        },
{
    match outcome {
        Ok(value) => match storage::commit(db, txn) {
            Ok(()) => Ok(value),
            Err(e) => Err(Error::Storage(e)),
        },
        Err(error) => {
            storage::discard(db, txn);
            Err(error)
        },
    }
}

/// Creates a ring.
pub(crate) fn create_ring(txn: &mut redb::WriteTransaction, ring_name: &str) -> (result: Result<(), Error>)
    ensures
        result is Ok && schema::complete(storage::pending(*old(txn))) ==> schema::complete(storage::pending(*final(txn))),
        failures::owed_to_redb(result),
        storage::origin(*final(txn)) == storage::origin(*old(txn)),
        match result {
            Ok(()) => {
                &&& !written(*old(txn)).has_ring(ring_name@)
                &&& written(*final(txn)) == written(*old(txn)).with_ring(ring_name@)
            },
            Err(Error::Storage(_)) => true,
            Err(e) => {
                &&& written(*old(txn)).has_ring(ring_name@)
                &&& e@ == ErrorView::RingAlreadyExists(ring_name@)
            },
        },
{
    proof {
        schema::lemma_table_names();
        schema::lemma_opened(storage::pending(*txn), RINGS@);
    }
    let found = match storage::get_text_bytes(txn, RINGS, ring_name) {
        Ok(found) => found,
        Err(e) => return Err(Error::Storage(e)),
    };
    match decisions::absent_ring(&found, ring_name) {
        Ok(()) => {},
        Err(e) => return Err(e),
    }
    let members = codec::encode_peer_ids(&Vec::new());
    proof {
        assert(octets::ids_of(Seq::<[u8; 32]>::empty()) =~= Seq::empty());
        schema::lemma_rows_change(
            storage::pending(*txn),
            vstd::utf8::encode_utf8(ring_name@),
            Cell::Bytes(members@),
        );
    }
    match storage::put_text_bytes(txn, RINGS, ring_name, members.as_slice()) {
        Ok(()) => Ok(()),
        Err(e) => Err(Error::Storage(e)),
    }
}

/// Adds a peer to a ring at `now`.
pub(crate) fn add_peer(
    txn: &mut redb::WriteTransaction,
    ring_name: &str,
    peer: &[u8; 32],
    label: Option<&str>,
    expires_at: Option<Timestamp>,
    now: &Timestamp,
) -> (result: Result<(), Error>)
    ensures
        result is Ok && schema::complete(storage::pending(*old(txn))) ==> schema::complete(storage::pending(*final(txn))),
        written(*old(txn)).coherent() && failures::legible(written(*old(txn)).state()) ==> failures::owed_to_redb(result),
        storage::origin(*final(txn)) == storage::origin(*old(txn)),
        match result {
            Ok(()) => {
                &&& written(*old(txn)).has_ring(ring_name@)
                &&& written(*final(txn)) == written(*old(txn)).with_peer(
                    ring_name@,
                    peer@,
                    registry::text_of(label),
                    match expires_at {
                        Some(t) => Some(codec::expiry_row(t@)),
                        None => None,
                    },
                    now@,
                )
                &&& expires_at matches Some(t) ==> codec::expiry_nanos(codec::expiry_row(t@)) == codec::kept(t@)
                &&& expires_at matches Some(t) ==> codec::kept(t@) < time::TOO_LATE
            },
            Err(Error::Storage(_)) => true,
            Err(e) => {
                &&& !written(*old(txn)).has_ring(ring_name@)
                &&& e@ == ErrorView::RingNotFound(ring_name@)
            },
        },
{
    let ghost before = written(*txn);
    proof {
        schema::lemma_table_names();
        schema::lemma_opened(storage::pending(*txn), RINGS@);
    }
    let found = match storage::get_text_bytes(txn, RINGS, ring_name) {
        Ok(found) => found,
        Err(e) => return Err(Error::Storage(e)),
    };
    let mut members = match decisions::found_ring(found, ring_name) {
        Ok(members) => members,
        Err(e) => return Err(e),
    };
    let key = codec::member_key(ring_name, peer);
    let ghost ring_key = vstd::utf8::encode_utf8(ring_name@);
    assert(octets::ids_of(members@) == before.peers(ring_name@));
    let known = decisions::contains_id(&members, peer);
    if !known {
        let ghost ids = octets::ids_of(members@);
        members.push(*peer);
        assert(octets::ids_of(members@) =~= ids.push(peer@));
        let raw = codec::encode_peer_ids(&members);
        proof {
            schema::lemma_rows_change(storage::pending(*txn), ring_key, Cell::Bytes(raw@));
        }
        match storage::put_text_bytes(txn, RINGS, ring_name, raw.as_slice()) {
            Ok(()) => {},
            Err(e) => return Err(Error::Storage(e)),
        }
    } else {
        proof {
            schema::lemma_opened(storage::pending(*txn), EXPIRIES@);
        }
        let expiry = match storage::get_bytes_instant(txn, EXPIRIES, key.as_slice()) {
            Ok(expiry) => expiry,
            Err(e) => return Err(Error::Storage(e)),
        };
        let passed = match decisions::has_passed(expiry, now) {
            Ok(passed) => passed,
            Err(e) => {
                proof {
                    failures::lemma_illegible(before, ring_name@, peer@);
                }
                return Err(e);
            },
        };
        assert(passed == (before.expiry(key@) matches Some(end) && now@ >= end));
        if passed {
            proof {
                schema::lemma_rows_change(storage::pending(*txn), key@, Cell::Byte(0));
            }
            match storage::cut_bytes_text(txn, LABELS, key.as_slice()) {
                Ok(()) => {},
                Err(e) => return Err(Error::Storage(e)),
            }
            proof {
                schema::lemma_rows_change(storage::pending(*txn), key@, Cell::Byte(0));
            }
            match storage::cut_bytes_instant(txn, EXPIRIES, key.as_slice()) {
                Ok(()) => {},
                Err(e) => return Err(Error::Storage(e)),
            }
        }
    }
    if let Some(text) = label {
        proof {
            schema::lemma_rows_change(storage::pending(*txn), key@, Cell::Text(text@));
        }
        match storage::put_bytes_text(txn, LABELS, key.as_slice(), text) {
            Ok(()) => {},
            Err(e) => return Err(Error::Storage(e)),
        }
    }
    if let Some(end) = expires_at {
        let row = codec::encode_expiry(&end);
        proof {
            schema::lemma_rows_change(storage::pending(*txn), key@, Cell::Instant(row.0, row.1));
        }
        match storage::put_bytes_instant(txn, EXPIRIES, key.as_slice(), row) {
            Ok(()) => {},
            Err(e) => return Err(Error::Storage(e)),
        }
    }
    Ok(())
}

/// Removes a peer from a ring.
pub(crate) fn remove_peer(txn: &mut redb::WriteTransaction, ring_name: &str, peer: &[u8; 32]) -> (result: Result<
    (),
    Error,
>)
    ensures
        result is Ok && schema::complete(storage::pending(*old(txn))) ==> schema::complete(storage::pending(*final(txn))),
        failures::owed_to_redb(result),
        storage::origin(*final(txn)) == storage::origin(*old(txn)),
        match result {
            Ok(()) => {
                &&& written(*old(txn)).has_ring(ring_name@)
                &&& written(*final(txn)) == written(*old(txn)).without_peer(ring_name@, peer@)
            },
            Err(Error::Storage(_)) => true,
            Err(e) => {
                &&& !written(*old(txn)).has_ring(ring_name@)
                &&& e@ == ErrorView::RingNotFound(ring_name@)
            },
        },
{
    let ghost before = written(*txn);
    proof {
        schema::lemma_table_names();
        schema::lemma_opened(storage::pending(*txn), RINGS@);
    }
    let found = match storage::get_text_bytes(txn, RINGS, ring_name) {
        Ok(found) => found,
        Err(e) => return Err(Error::Storage(e)),
    };
    let members = match decisions::found_ring(found, ring_name) {
        Ok(members) => members,
        Err(e) => return Err(e),
    };
    assert(octets::ids_of(members@) == before.peers(ring_name@));
    let kept = other_ids(&members, peer);
    let raw = codec::encode_peer_ids(&kept);
    proof {
        schema::lemma_rows_change(
            storage::pending(*txn),
            vstd::utf8::encode_utf8(ring_name@),
            Cell::Bytes(raw@),
        );
    }
    match storage::put_text_bytes(txn, RINGS, ring_name, raw.as_slice()) {
        Ok(()) => {},
        Err(e) => return Err(Error::Storage(e)),
    }
    let key = codec::member_key(ring_name, peer);
    proof {
        schema::lemma_rows_change(storage::pending(*txn), key@, Cell::Byte(0));
    }
    match storage::cut_bytes_text(txn, LABELS, key.as_slice()) {
        Ok(()) => {},
        Err(e) => return Err(Error::Storage(e)),
    }
    proof {
        schema::lemma_rows_change(storage::pending(*txn), key@, Cell::Byte(0));
    }
    match storage::cut_bytes_instant(txn, EXPIRIES, key.as_slice()) {
        Ok(()) => Ok(()),
        Err(e) => Err(Error::Storage(e)),
    }
}

/// The ids other than a peer's, in order.
fn other_ids(ids: &Vec<[u8; 32]>, peer: &[u8; 32]) -> (kept: Vec<[u8; 32]>)
    ensures
        octets::ids_of(kept@) == octets::ids_of(ids@).filter(schema::differs(peer@)),
{
    let ghost all = octets::ids_of(ids@);
    let ghost pick = schema::differs(peer@);
    let mut kept: Vec<[u8; 32]> = Vec::new();
    let mut i: usize = 0;
    proof {
        reveal(Seq::filter);
        assert(all.take(0).filter(pick) =~= Seq::empty());
        assert(octets::ids_of(kept@) =~= Seq::empty());
    }
    while i < ids.len()
        invariant
            i <= ids@.len(),
            all == octets::ids_of(ids@),
            pick == schema::differs(peer@),
            octets::ids_of(kept@) == all.take(i as int).filter(pick),
        decreases ids@.len() - i,
    {
        proof {
            assoc::lemma_filter_step(all, i as int, pick);
        }
        assert(all[i as int] == ids@[i as int]@);
        if !octets::bytes_eq(ids[i].as_slice(), peer.as_slice()) {
            let ghost listed = kept@;
            kept.push(ids[i]);
            assert(octets::ids_of(kept@) =~= octets::ids_of(listed).push(ids@[i as int]@));
        }
        i = i + 1;
    }
    assert(all.take(all.len() as int) =~= all);
    kept
}

/// The members of a ring whose membership is not over at `now`.
pub(crate) fn list_peers(txn: &redb::ReadTransaction, ring_name: &str, now: &Timestamp) -> (result: Result<
    Vec<RingMember>,
    Error,
>)
    ensures
        seen(*txn).coherent() && failures::legible(seen(*txn).state()) ==> failures::owed_to_redb(result),
        match result {
            Ok(members) => {
                &&& seen(*txn).has_ring(ring_name@)
                &&& registry::members_of(members@) == model::current(seen(*txn).members(ring_name@), now@)
            },
            Err(Error::Storage(_)) => true,
            Err(e) => {
                &&& !seen(*txn).has_ring(ring_name@)
                &&& e@ == ErrorView::RingNotFound(ring_name@)
            },
        },
{
    proof {
        schema::lemma_table_names();
    }
    let found = match storage::read_text_bytes(txn, RINGS, ring_name) {
        Ok(found) => found,
        Err(e) => return Err(Error::Storage(e)),
    };
    let ids = match decisions::found_ring(found, ring_name) {
        Ok(ids) => ids,
        Err(e) => return Err(e),
    };
    let ghost all = seen(*txn).members(ring_name@);
    let ghost pred = |m: MemberState| !m.expired(now@);
    let mut members: Vec<RingMember> = Vec::new();
    let mut i: usize = 0;
    proof {
        assert(octets::ids_of(ids@) == seen(*txn).peers(ring_name@));
        reveal(Seq::filter);
        assert(all.take(0).filter(pred) =~= Seq::empty());
        assert(registry::members_of(members@) =~= Seq::empty());
    }
    while i < ids.len()
        invariant
            i <= ids@.len(),
            LABELS@.len() > 0,
            EXPIRIES@.len() > 0,
            seen(*txn).has_ring(ring_name@),
            octets::ids_of(ids@) == seen(*txn).peers(ring_name@),
            all == seen(*txn).members(ring_name@),
            pred == (|m: MemberState| !m.expired(now@)),
            registry::members_of(members@) == all.take(i as int).filter(pred),
        decreases ids@.len() - i,
    {
        proof {
            assoc::lemma_filter_step(all, i as int, pred);
            assert(octets::ids_of(ids@)[i as int] == ids@[i as int]@);
            assert(all[i as int] == seen(*txn).member(ring_name@, ids@[i as int]@));
        }
        let key = codec::member_key(ring_name, &ids[i]);
        let expiry = match storage::read_bytes_instant(txn, EXPIRIES, key.as_slice()) {
            Ok(expiry) => expiry,
            Err(e) => return Err(Error::Storage(e)),
        };
        assert(seen(*txn).expiry(key@) == decisions::end_in(expiry));
        let current = match decisions::current_member(&ids[i], expiry, now) {
            Ok(current) => current,
            Err(e) => {
                proof {
                    assert(seen(*txn).peers(ring_name@).contains(ids@[i as int]@));
                    failures::lemma_illegible(seen(*txn), ring_name@, ids@[i as int]@);
                }
                return Err(e);
            },
        };
        if let Some((peer, expires_at)) = current {
            let label = match storage::read_bytes_text(txn, LABELS, key.as_slice()) {
                Ok(label) => label,
                Err(e) => return Err(Error::Storage(e)),
            };
            let ghost listed = members@;
            members.push(RingMember::new(peer, label, expires_at));
            assert(registry::members_of(members@) =~= registry::members_of(listed).push(all[i as int]));
        }
        i = i + 1;
    }
    assert(all.take(all.len() as int) =~= all);
    Ok(members)
}

/// All rings, the open ring first.
pub(crate) fn list_rings(txn: &redb::ReadTransaction) -> (result: Result<Vec<Ring>, Error>)
    ensures
        seen(*txn).coherent() && failures::legible(seen(*txn).state()) ==> failures::owed_to_redb(result),
        result matches Err(e) ==> e is Storage,
        result matches Ok(rings) ==> seen(*txn).has_ring(OPEN_RING_NAME@) ==> registry::lists_rings(
            rings@,
            seen(*txn).state(),
        ),
{
    proof {
        schema::lemma_table_names();
    }
    let rows = match storage::read_all_text_bytes(txn, RINGS) {
        Ok(rows) => rows,
        Err(e) => return Err(Error::Storage(e)),
    };
    let rings = match decisions::listed_rings(&rows) {
        Ok(rings) => rings,
        Err(e) => {
            proof {
                let i = choose|i: int|
                    0 <= i < rows@.len() && !ring::valid_name(#[trigger] decisions::row_names(rows@)[i]);
                let name = rows@[i].0@;
                assert(seen(*txn).has_ring(name));
                assert(seen(*txn).state().rings.contains_key(name));
            }
            return Err(e);
        },
    };
    proof {
        let s = seen(*txn);
        if s.has_ring(OPEN_RING_NAME@) {
            lemma_listed(rows@, storage::snapshot(*txn), rings@);
        }
    }
    Ok(rings)
}

/// The rings that are listed are the rings of the registry.
proof fn lemma_listed(rows: Seq<(String, Vec<u8>)>, tables: Map<Seq<char>, Map<Seq<u8>, Cell>>, rings: Seq<Ring>)
    requires
        storage::lists_text_bytes(rows, tables, RINGS@),
        decisions::ring_names(rings) == decisions::ring_list(decisions::row_names(rows)),
        schema::shape(tables).has_ring(OPEN_RING_NAME@),
    ensures
        registry::lists_rings(rings, schema::shape(tables).state()),
{
    let s = schema::shape(tables);
    let state = s.state();
    let names = decisions::row_names(rows);
    let list = decisions::ring_names(rings);
    decisions::lemma_ring_list(names);
    assert(names.no_duplicates()) by {
        assert forall|i: int, j: int| 0 <= i < j < names.len() implies names[i] != names[j] by {
            assert(rows[i].0@ != rows[j].0@);
        }
    }
    assert(rings.len() == list.len());
    assert(rings[0]@ == list[0]);
    assert forall|a: int, b: int| 0 <= a < b < rings.len() implies (#[trigger] rings[a])@ != (#[trigger] rings[b])@ by {
        assert(list[a] != list[b]);
    }
    assert forall|a: int| 0 <= a < rings.len() implies state.rings.contains_key((#[trigger] rings[a])@) by {
        assert(list[a] == rings[a]@);
        if a > 0 {
            assert(names.contains(list[a]));
            let j = choose|j: int| 0 <= j < names.len() && names[j] == list[a];
            assert(rows[j].0@ == rings[a]@);
            assert(s.has_ring(rows[j].0@));
        }
    }
    assert forall|name: Seq<char>| #[trigger] state.rings.contains_key(name) implies exists|a: int|
        0 <= a < rings.len() && (#[trigger] rings[a])@ == name by {
        assert(s.has_ring(name));
        let key = vstd::utf8::encode_utf8(name);
        assert(storage::rows(tables, RINGS@).contains_key(key));
        let j = choose|j: int| 0 <= j < rows.len() && vstd::utf8::encode_utf8((#[trigger] rows[j]).0@) == key;
        octets::lemma_utf8_injective(rows[j].0@, name);
        assert(names[j] == name);
        assert(list.contains(names[j]));
        let a = choose|a: int| 0 <= a < list.len() && list[a] == name;
        assert(rings[a]@ == name);
    }
}

/// Removes all ring associations from a resource.
pub(crate) fn clear_resource(txn: &mut redb::WriteTransaction, id: &[u8]) -> (result: Result<(), Error>)
    ensures
        result is Ok && schema::complete(storage::pending(*old(txn))) ==> schema::complete(storage::pending(*final(txn))),
        failures::owed_to_redb(result),
        storage::origin(*final(txn)) == storage::origin(*old(txn)),
        match result {
            Ok(()) => written(*final(txn)) == written(*old(txn)).without_resource(id@),
            Err(e) => e is Storage,
        },
{
    let ghost before = written(*txn);
    proof {
        schema::lemma_table_names();
        schema::lemma_rows_change(storage::pending(*txn), id@, Cell::Byte(0));
    }
    let names = match storage::cut_bytes_bytes(txn, RESOURCE_RINGS, id) {
        Ok(found) => decisions::found_names(found),
        Err(e) => return Err(Error::Storage(e)),
    };
    assert(codec::names_of(names@) =~= before.names(id@));
    let mut i: usize = 0;
    while i < names.len()
        invariant
            i <= names@.len(),
            RESOURCE_RING_PERMS@.len() > 0,
            codec::names_of(names@) == before.names(id@),
            storage::origin(*txn) == storage::origin(*old(txn)),
            schema::complete(storage::pending(*old(txn))) ==> schema::complete(storage::pending(*txn)),
            written(*txn).rings == before.rings,
            written(*txn).labels == before.labels,
            written(*txn).expiries == before.expiries,
            written(*txn).others == before.others,
            written(*txn).resources == before.resources.remove(id@),
            written(*txn).perms == before.perms.remove_keys(
                Set::new(|key: Seq<u8>| first_perms(before, id@, i as int, key)),
            ),
        decreases names@.len() - i,
    {
        let key = codec::perm_key(id, names[i].as_str());
        proof {
            schema::lemma_rows_change(storage::pending(*txn), key@, Cell::Byte(0));
            assert(codec::names_of(names@)[i as int] == names@[i as int]@);
        }
        match storage::cut_bytes_byte(txn, RESOURCE_RING_PERMS, key.as_slice()) {
            Ok(()) => {},
            Err(e) => return Err(Error::Storage(e)),
        }
        proof {
            assert forall|k: Seq<u8>| first_perms(before, id@, i + 1, k) <==> first_perms(before, id@, i as int, k) || k
                == key@ by {
                if k == key@ {
                    assert(k == codec::perm_row(id@, before.names(id@)[i as int]));
                }
                if first_perms(before, id@, i as int, k) {
                    let j = choose|j: int|
                        0 <= j < i && k == #[trigger] codec::perm_row(id@, before.names(id@)[j]);
                    assert(k == codec::perm_row(id@, before.names(id@)[j]));
                }
            }
            assert(written(*txn).perms =~= before.perms.remove_keys(
                Set::new(|key: Seq<u8>| first_perms(before, id@, i + 1, key)),
            ));
        }
        i = i + 1;
    }
    proof {
        assert forall|k: Seq<u8>| first_perms(before, id@, i as int, k) == before.is_perm_of(id@, k) by {}
        assert(written(*txn) =~= before.without_resource(id@));
    }
    Ok(())
}

/// Whether a key is that of a permission row of one of the first rings of a resource.
spec fn first_perms(s: Shape, id: Seq<u8>, upto: int, key: Seq<u8>) -> bool {
    exists|i: int| 0 <= i < upto && key == #[trigger] codec::perm_row(id, s.names(id)[i])
}

/// The rings associated with a resource, with the permissions that each grants.
pub(crate) fn list_associations(txn: &redb::ReadTransaction, id: &[u8]) -> (result: Result<
    Vec<(Ring, Vec<Permission>)>,
    Error,
>)
    ensures
        seen(*txn).coherent() && failures::legible(seen(*txn).state()) ==> failures::owed_to_redb(result),
        match result {
            Ok(listing) => {
                &&& listing@.len() == seen(*txn).names(id@).len()
                &&& forall|i: int|
                    0 <= i < listing@.len() ==> {
                        &&& (#[trigger] listing@[i]).0@ == seen(*txn).names(id@)[i]
                        &&& listing@[i].1@ == codec::perm_list(seen(*txn).bits(id@, seen(*txn).names(id@)[i]))
                    }
            },
            Err(e) => e is Storage,
        },
{
    proof {
        schema::lemma_table_names();
    }
    let mut listing: Vec<(Ring, Vec<Permission>)> = Vec::new();
    let names = match storage::read_bytes_bytes(txn, RESOURCE_RINGS, id) {
        Ok(found) => decisions::found_names(found),
        Err(e) => return Err(Error::Storage(e)),
    };
    assert(codec::names_of(names@) == seen(*txn).names(id@));
    let mut i: usize = 0;
    while i < names.len()
        invariant
            i <= names@.len(),
            RESOURCE_RING_PERMS@.len() > 0,
            codec::names_of(names@) == seen(*txn).names(id@),
            listing@.len() == i,
            forall|j: int|
                0 <= j < i ==> {
                    &&& (#[trigger] listing@[j]).0@ == seen(*txn).names(id@)[j]
                    &&& listing@[j].1@ == codec::perm_list(seen(*txn).bits(id@, seen(*txn).names(id@)[j]))
                },
        decreases names@.len() - i,
    {
        let name = names[i].as_str();
        assert(codec::names_of(names@)[i as int] == name@);
        let key = codec::perm_key(id, name);
        let row = match storage::read_bytes_byte(txn, RESOURCE_RING_PERMS, key.as_slice()) {
            Ok(row) => row,
            Err(e) => return Err(Error::Storage(e)),
        };
        assert(decisions::bits_in(row) == seen(*txn).bits(id@, name@));
        match decisions::listed_association(name, row) {
            Ok(entry) => listing.push(entry),
            Err(e) => {
                proof {
                    let s = seen(*txn);
                    assert(codec::names_of(names@).len() == names@.len());
                    assert(s.state().grants.contains_key(id@));
                    assert(s.state().grants[id@] == s.grants(id@));
                    assert(s.grants(id@)[i as int].ring == name@);
                    assert(s.coherent() ==> model::grant_wf(s.state().grants[id@][i as int], s.state().rings.dom()));
                }
                return Err(e);
            },
        }
        i = i + 1;
    }
    Ok(listing)
}

/// Associates a ring with a resource.
pub(crate) fn associate(
    txn: &mut redb::WriteTransaction,
    id: &[u8],
    ring_name: &str,
    permissions: &[Permission],
) -> (result: Result<(), Error>)
    ensures
        result is Ok && schema::complete(storage::pending(*old(txn))) ==> schema::complete(storage::pending(*final(txn))),
        failures::owed_to_redb(result),
        storage::origin(*final(txn)) == storage::origin(*old(txn)),
        match result {
            Ok(()) => {
                &&& written(*old(txn)).has_ring(ring_name@)
                &&& codec::perm_set(codec::set_byte(permissions@.to_set())) == permissions@.to_set()
                &&& written(*final(txn)) == written(*old(txn)).with_association(
                    id@,
                    ring_name@,
                    codec::set_byte(permissions@.to_set()),
                )
            },
            Err(Error::Storage(_)) => true,
            Err(e) => {
                &&& !written(*old(txn)).has_ring(ring_name@)
                &&& e@ == ErrorView::RingNotFound(ring_name@)
            },
        },
{
    let ghost before = written(*txn);
    proof {
        schema::lemma_table_names();
        schema::lemma_opened(storage::pending(*txn), RINGS@);
    }
    let found = match storage::get_text_bytes(txn, RINGS, ring_name) {
        Ok(found) => found,
        Err(e) => return Err(Error::Storage(e)),
    };
    match decisions::existing_ring(&found, ring_name) {
        Ok(()) => {},
        Err(e) => return Err(e),
    }
    proof {
        schema::lemma_opened(storage::pending(*txn), RESOURCE_RINGS@);
    }
    let names = match storage::get_bytes_bytes(txn, RESOURCE_RINGS, id) {
        Ok(found) => decisions::found_names(found),
        Err(e) => return Err(Error::Storage(e)),
    };
    assert(codec::names_of(names@) =~= before.names(id@));
    let existing = match stored_permissions(txn, id, names) {
        Ok(existing) => existing,
        Err(e) => return Err(e),
    };
    let ghost entries = registry::entries_of(existing@);
    let updated = registry::compute_resource_rings(existing, ring_name, vstd::slice::slice_to_vec(permissions));
    let next = entry_names(&updated);
    proof {
        lemma_names_with(entries, ring_name@, permissions@, before.names(id@));
        assert(codec::names_of(next@) =~= before.names_with(id@, ring_name@));
    }
    let raw = codec::encode_ring_names(&next);
    proof {
        schema::lemma_rows_change(storage::pending(*txn), id@, Cell::Bytes(raw@));
    }
    match storage::put_bytes_bytes(txn, RESOURCE_RINGS, id, raw.as_slice()) {
        Ok(()) => {},
        Err(e) => return Err(Error::Storage(e)),
    }
    let key = codec::perm_key(id, ring_name);
    let bits = codec::perms_to_byte(permissions);
    proof {
        schema::lemma_rows_change(storage::pending(*txn), key@, Cell::Byte(bits));
    }
    match storage::put_bytes_byte(txn, RESOURCE_RING_PERMS, key.as_slice(), bits) {
        Ok(()) => {
            assert(written(*txn) =~= before.with_association(id@, ring_name@, bits));
            Ok(())
        },
        Err(e) => Err(Error::Storage(e)),
    }
}

/// The names of a ring–permission list.
spec fn entry_keys(entries: Seq<(Seq<char>, Seq<Permission>)>) -> Seq<Seq<char>> {
    entries.map_values(|e: (Seq<char>, Seq<Permission>)| e.0)
}

/// Replacing an entry, or putting one last, does the same to the names.
proof fn lemma_names_with(
    entries: Seq<(Seq<char>, Seq<Permission>)>,
    name: Seq<char>,
    permissions: Seq<Permission>,
    names: Seq<Seq<char>>,
)
    requires
        names == entry_keys(entries),
    ensures
        entry_keys(registry::with_entry(entries, name, permissions)) == if names.contains(name) {
            names
        } else {
            names.push(name)
        },
{
    let next = entry_keys(registry::with_entry(entries, name, permissions));
    let at = registry::first_entry(entries, name);
    registry::lemma_first_entry_at(entries, name);
    if names.contains(name) {
        let k = choose|k: int| 0 <= k < names.len() && names[k] == name;
        assert(entries[k].0 == name);
        assert(at < entries.len());
        assert(next =~= names);
    } else {
        if at < entries.len() {
            assert(names[at] == name);
        }
        assert(next =~= names.push(name));
    }
}

/// The names of a ring–permission list.
fn entry_names(entries: &Vec<(String, Vec<Permission>)>) -> (names: Vec<String>)
    ensures
        codec::names_of(names@) == entry_keys(registry::entries_of(entries@)),
{
    let mut names: Vec<String> = Vec::new();
    let mut i: usize = 0;
    while i < entries.len()
        invariant
            i <= entries@.len(),
            names@.len() == i,
            forall|j: int| 0 <= j < i ==> (#[trigger] names@[j])@ == entries@[j].0@,
        decreases entries@.len() - i,
    {
        names.push(entries[i].0.clone());
        i = i + 1;
    }
    assert(codec::names_of(names@) =~= entry_keys(registry::entries_of(entries@)));
    names
}

/// The stored permissions of each of the rings of a resource.
fn stored_permissions(txn: &mut redb::WriteTransaction, id: &[u8], names: Vec<String>) -> (result: Result<
    Vec<(String, Vec<Permission>)>,
    Error,
>)
    ensures
        result is Ok && schema::complete(storage::pending(*old(txn))) ==> schema::complete(storage::pending(*final(txn))),
        failures::owed_to_redb(result),
        storage::origin(*final(txn)) == storage::origin(*old(txn)),
        match result {
            Ok(entries) => {
                &&& written(*final(txn)) == written(*old(txn))
                &&& entry_keys(registry::entries_of(entries@)) == codec::names_of(names@)
                &&& forall|i: int|
                    0 <= i < entries@.len() ==> (#[trigger] entries@[i]).1@ == codec::perm_list(
                        written(*old(txn)).bits(id@, names@[i]@),
                    )
            },
            Err(e) => e is Storage,
        },
{
    let ghost before = written(*txn);
    let mut entries: Vec<(String, Vec<Permission>)> = Vec::new();
    let mut i: usize = 0;
    proof {
        schema::lemma_table_names();
    }
    while i < names.len()
        invariant
            i <= names@.len(),
            RESOURCE_RING_PERMS@.len() > 0,
            storage::origin(*txn) == storage::origin(*old(txn)),
            schema::complete(storage::pending(*old(txn))) ==> schema::complete(storage::pending(*txn)),
            written(*txn) == before,
            entries@.len() == i,
            forall|j: int|
                0 <= j < i ==> {
                    &&& (#[trigger] entries@[j]).0@ == names@[j]@
                    &&& entries@[j].1@ == codec::perm_list(before.bits(id@, names@[j]@))
                },
        decreases names@.len() - i,
    {
        let key = codec::perm_key(id, names[i].as_str());
        proof {
            schema::lemma_opened(storage::pending(*txn), RESOURCE_RING_PERMS@);
        }
        let bits: u8 = match storage::get_bytes_byte(txn, RESOURCE_RING_PERMS, key.as_slice()) {
            Ok(row) => decisions::found_bits(row),
            Err(e) => return Err(Error::Storage(e)),
        };
        assert(bits == before.bits(id@, names@[i as int]@));
        let permissions = codec::byte_to_perms(bits);
        entries.push((names[i].clone(), permissions));
        i = i + 1;
    }
    assert(entry_keys(registry::entries_of(entries@)) =~= codec::names_of(names@));
    Ok(entries)
}

/// Whether a peer holds a permission on a resource at `now`.
pub(crate) fn has_permission(
    txn: &redb::ReadTransaction,
    peer: &EndpointId,
    id: &[u8],
    permission: Permission,
    now: &Timestamp,
) -> (result: Result<bool, Error>)
    ensures
        seen(*txn).coherent() && failures::legible(seen(*txn).state()) ==> failures::owed_to_redb(result),
        match result {
            Ok(yes) => yes == seen(*txn).state().allows(peer@, id@, permission, now@),
            Err(e) => e is Storage,
        },
{
    let ghost s = seen(*txn);
    let ghost state = s.state();
    proof {
        schema::lemma_table_names();
        schema::lemma_grants_on(s, id@);
    }
    let names = match storage::read_bytes_bytes(txn, RESOURCE_RINGS, id) {
        Ok(found) => decisions::found_names(found),
        Err(e) => return Err(Error::Storage(e)),
    };
    assert(codec::names_of(names@) == s.names(id@));
    let peer_bytes = peer.as_bytes();
    let mut i: usize = 0;
    while i < names.len()
        invariant
            i <= names@.len(),
            RESOURCE_RING_PERMS@.len() > 0,
            RINGS@.len() > 0,
            EXPIRIES@.len() > 0,
            s == seen(*txn),
            state == s.state(),
            peer_bytes@ == peer@,
            codec::names_of(names@) == s.names(id@),
            state.grants_on(id@) == s.grants(id@),
            forall|j: int| 0 <= j < i ==> !state.confers(#[trigger] s.grants(id@)[j], peer@, permission, now@),
        decreases names@.len() - i,
    {
        let name = names[i].as_str();
        let ghost grant = s.grants(id@)[i as int];
        assert(codec::names_of(names@)[i as int] == name@);
        let key = codec::perm_key(id, name);
        let row = match storage::read_bytes_byte(txn, RESOURCE_RING_PERMS, key.as_slice()) {
            Ok(row) => row,
            Err(e) => return Err(Error::Storage(e)),
        };
        assert(decisions::bits_in(row) == s.bits(id@, name@));
        if decisions::grants(row, permission) {
            if octets::str_eq(name, OPEN_RING_NAME) {
                assert(state.confers(grant, peer@, permission, now@));
                return Ok(true);
            }
            let found = match storage::read_text_bytes(txn, RINGS, name) {
                Ok(found) => found,
                Err(e) => return Err(Error::Storage(e)),
            };
            proof {
                if s.has_ring(name@) {
                    lemma_member_active(s, name@, peer@, now@);
                }
            }
            if decisions::holds_peer(&found, peer_bytes) {
                let member_key = codec::member_key(name, peer_bytes);
                let expiry = match storage::read_bytes_instant(txn, EXPIRIES, member_key.as_slice()) {
                    Ok(expiry) => expiry,
                    Err(e) => return Err(Error::Storage(e)),
                };
                let passed = match decisions::has_passed(expiry, now) {
                    Ok(passed) => passed,
                    Err(e) => {
                        proof {
                            failures::lemma_illegible(s, name@, peer@);
                        }
                        return Err(e);
                    },
                };
                assert(passed == s.member(name@, peer@).expired(now@));
                if !passed {
                    assert(state.confers(grant, peer@, permission, now@));
                    return Ok(true);
                }
            }
        }
        i = i + 1;
    }
    Ok(false)
}

/// Who is a current member of a ring, in rows and in the registry they hold.
proof fn lemma_member_active(s: Shape, name: Seq<char>, peer: Seq<u8>, now: int)
    requires
        s.has_ring(name),
    ensures
        s.state().is_member(name, peer, now) <==> s.peers(name).contains(peer) && !s.member(name, peer).expired(now),
{
    let peers = s.peers(name);
    let members = s.members(name);
    assert(s.state().rings[name] == members);
    if peers.contains(peer) && !s.member(name, peer).expired(now) {
        let i = choose|i: int| 0 <= i < peers.len() && peers[i] == peer;
        assert(members[i].peer == peer);
    }
    if model::active(members, peer, now) {
        let i = choose|i: int|
            0 <= i < members.len() && (#[trigger] members[i]).peer == peer && !members[i].expired(now);
        assert(peers[i] == peer);
    }
}

/// Whether a key is that of a membership of one of the first peers of a ring that is over.
spec fn first_lapsed(s: Shape, name: Seq<char>, now: int, upto: int, key: Seq<u8>) -> bool {
    exists|i: int| {
        &&& 0 <= i < upto
        &&& key == #[trigger] codec::member_row(name, s.peers(name)[i])
        &&& s.member(name, s.peers(name)[i]).expired(now)
    }
}

/// The rows without those of the memberships of the first peers of a ring that are over.
spec fn without_first(s: Shape, name: Seq<char>, now: int, upto: int) -> Shape {
    let lapsed = Set::new(|key: Seq<u8>| first_lapsed(s, name, now, upto, key));
    Shape { labels: s.labels.remove_keys(lapsed), expiries: s.expiries.remove_keys(lapsed), ..s }
}

/// Going through one more peer.
proof fn lemma_first_step(s: Shape, name: Seq<char>, now: int, i: int)
    requires
        s.coherent(),
        s.has_ring(name),
        0 <= i < s.peers(name).len(),
    ensures
        ({
            let key = codec::member_row(name, s.peers(name)[i]);
            let before = without_first(s, name, now, i);
            let after = without_first(s, name, now, i + 1);
            &&& before.expiry(key) == s.expiry(key)
            &&& after == if s.member(name, s.peers(name)[i]).expired(now) {
                Shape { labels: before.labels.remove(key), expiries: before.expiries.remove(key), ..before }
            } else {
                before
            }
        }),
{
    let peers = s.peers(name);
    let key = codec::member_row(name, peers[i]);
    let before = without_first(s, name, now, i);
    let after = without_first(s, name, now, i + 1);
    schema::lemma_peers_len(s, name);
    assert(!first_lapsed(s, name, now, i, key)) by {
        if first_lapsed(s, name, now, i, key) {
            let j = choose|j: int| {
                &&& 0 <= j < i
                &&& key == #[trigger] codec::member_row(name, peers[j])
                &&& s.member(name, peers[j]).expired(now)
            };
            codec::law_member_keys_distinct(name, peers[i], name, peers[j]);
            assert(s.state().rings.contains_key(name));
            assert(s.state().rings[name] == s.members(name));
            assert(s.members(name)[j].peer != s.members(name)[i].peer);
        }
    }
    let gone = s.member(name, peers[i]).expired(now);
    assert forall|k: Seq<u8>| first_lapsed(s, name, now, i + 1, k) <==> first_lapsed(s, name, now, i, k) || (k == key
        && gone) by {
        if k == key && gone {
            assert(k == codec::member_row(name, peers[i]));
        }
        if first_lapsed(s, name, now, i, k) {
            let j = choose|j: int| {
                &&& 0 <= j < i
                &&& k == #[trigger] codec::member_row(name, peers[j])
                &&& s.member(name, peers[j]).expired(now)
            };
            assert(k == codec::member_row(name, peers[j]));
        }
    }
    if gone {
        assert(after.labels =~= before.labels.remove(key));
        assert(after.expiries =~= before.expiries.remove(key));
    } else {
        assert(after.labels =~= before.labels);
        assert(after.expiries =~= before.expiries);
    }
}

/// Whether nothing but rings, labels and expiries differs.
pub open spec fn keeps_grants(before: Shape, after: Shape) -> bool {
    &&& after.resources == before.resources
    &&& after.perms == before.perms
    &&& after.others == before.others
}

/// Removes the memberships of a ring that are over at `now`, and puts them on the list.
fn evict_from_ring(
    txn: &mut redb::WriteTransaction,
    ring_name: &str,
    raw: &Vec<u8>,
    now: &Timestamp,
    evicted: &mut Vec<EvictedMembership>,
) -> (result: Result<(), Error>)
    ensures
        result is Ok && schema::complete(storage::pending(*old(txn))) ==> schema::complete(storage::pending(*final(txn))),
        storage::origin(*final(txn)) == storage::origin(*old(txn)),
        result matches Err(e) ==> e is Storage,
        written(*old(txn)).coherent() && failures::legible(written(*old(txn)).state()) && written(*old(txn)).has_ring(
            ring_name@,
        ) && schema::bytes_in(written(*old(txn)).rings[vstd::utf8::encode_utf8(ring_name@)]) == raw@
            ==> failures::owed_to_redb(result),
        result is Ok ==> keeps_grants(written(*old(txn)), written(*final(txn))),
        result is Ok && written(*old(txn)).coherent() && written(*old(txn)).has_ring(ring_name@) && schema::bytes_in(
            written(*old(txn)).rings[vstd::utf8::encode_utf8(ring_name@)],
        ) == raw@ ==> {
            &&& written(*final(txn)) == written(*old(txn)).without_expired(ring_name@, now@)
            &&& eviction::grows_by(
                old(evicted)@,
                final(evicted)@,
                ring_name@,
                eviction::over(written(*old(txn)).members(ring_name@), now@),
            )
        },
{
    let ghost s = written(*txn);
    let ghost name = ring_name@;
    let ghost good = s.coherent() && s.has_ring(name) && schema::bytes_in(
        s.rings[vstd::utf8::encode_utf8(name)],
    ) == raw@;
    let ghost peers = s.peers(name);
    let ghost all = s.members(name);
    let ghost live = s.live(name, now@);
    let ghost pred = |m: MemberState| m.expired(now@);
    let ids = codec::decode_peer_ids(raw.as_slice());
    let mut kept: Vec<[u8; 32]> = Vec::new();
    let mut i: usize = 0;
    proof {
        schema::lemma_table_names();
        reveal(Seq::filter);
        assert(peers.take(0).filter(live) =~= Seq::empty());
        assert(all.take(0).filter(pred) =~= Seq::empty());
        assert(octets::ids_of(kept@) =~= Seq::empty());
        assert(without_first(s, name, now@, 0) =~= s);
    }
    while i < ids.len()
        invariant
            i <= ids@.len(),
            LABELS@.len() > 0,
            EXPIRIES@.len() > 0,
            name == ring_name@,
            s == written(*old(txn)),
            good == (s.coherent() && s.has_ring(name) && schema::bytes_in(s.rings[vstd::utf8::encode_utf8(name)])
                == raw@),
            good ==> s.coherent() && s.has_ring(name) && octets::ids_of(ids@) == peers,
            peers == s.peers(name),
            all == s.members(name),
            live == s.live(name, now@),
            pred == (|m: MemberState| m.expired(now@)),
            storage::origin(*txn) == storage::origin(*old(txn)),
            schema::complete(storage::pending(*old(txn))) ==> schema::complete(storage::pending(*txn)),
            keeps_grants(s, written(*txn)),
            good ==> octets::ids_of(kept@) == peers.take(i as int).filter(live),
            good ==> written(*txn) == without_first(s, name, now@, i as int),
            good ==> eviction::grows_by(old(evicted)@, evicted@, name, all.take(i as int).filter(pred)),
        decreases ids@.len() - i,
    {
        let key = codec::member_key(ring_name, &ids[i]);
        proof {
            if good {
                assert(octets::ids_of(ids@)[i as int] == ids@[i as int]@);
                assert(all[i as int] == s.member(name, ids@[i as int]@));
                lemma_first_step(s, name, now@, i as int);
                assoc::lemma_filter_step(peers, i as int, live);
                assoc::lemma_filter_step(all, i as int, pred);
            }
            schema::lemma_opened(storage::pending(*txn), EXPIRIES@);
        }
        let expiry = match storage::get_bytes_instant(txn, EXPIRIES, key.as_slice()) {
            Ok(expiry) => expiry,
            Err(e) => return Err(Error::Storage(e)),
        };
        let passed = match decisions::has_passed(expiry, now) {
            Ok(passed) => passed,
            Err(e) => {
                proof {
                    if good {
                        assert(peers.contains(ids@[i as int]@));
                        failures::lemma_illegible(s, name, ids@[i as int]@);
                    }
                }
                return Err(e);
            },
        };
        assert(good ==> passed == s.member(name, ids@[i as int]@).expired(now@));
        if passed {
            let peer = match endpoint::decode_endpoint_id(&ids[i]) {
                Ok(peer) => peer,
                Err(e) => {
                    proof {
                        if good {
                            assert(peers.contains(ids@[i as int]@));
                            failures::lemma_illegible(s, name, ids@[i as int]@);
                        }
                    }
                    return Err(e);
                },
            };
            proof {
                schema::lemma_rows_change(storage::pending(*txn), key@, Cell::Byte(0));
            }
            match storage::cut_bytes_text(txn, LABELS, key.as_slice()) {
                Ok(()) => {},
                Err(e) => return Err(Error::Storage(e)),
            }
            proof {
                schema::lemma_rows_change(storage::pending(*txn), key@, Cell::Byte(0));
            }
            match storage::cut_bytes_instant(txn, EXPIRIES, key.as_slice()) {
                Ok(()) => {},
                Err(e) => return Err(Error::Storage(e)),
            }
            evicted.push(EvictedMembership::new(ring_name.to_string(), peer));
        } else {
            let ghost listed = kept@;
            kept.push(ids[i]);
            assert(octets::ids_of(kept@) =~= octets::ids_of(listed).push(ids@[i as int]@));
        }
        i = i + 1;
    }
    let ghost after = written(*txn);
    proof {
        if good {
            assert(peers.take(peers.len() as int) =~= peers);
            assert(all.take(all.len() as int) =~= all);
            assert forall|k: Seq<u8>| first_lapsed(s, name, now@, peers.len() as int, k) == s.is_lapsed_key(
                name,
                now@,
                k,
            ) by {}
            let lapsed = Set::new(|k: Seq<u8>| s.is_lapsed_key(name, now@, k));
            assert(after.labels =~= s.labels.remove_keys(lapsed));
            assert(after.expiries =~= s.expiries.remove_keys(lapsed));
            assert(octets::ids_of(kept@).len() == kept@.len());
            assert(octets::ids_of(ids@).len() == ids@.len());
        }
    }
    if kept.len() < ids.len() {
        let raw = codec::encode_peer_ids(&kept);
        proof {
            schema::lemma_rows_change(storage::pending(*txn), vstd::utf8::encode_utf8(name), Cell::Bytes(raw@));
        }
        match storage::put_text_bytes(txn, RINGS, ring_name, raw.as_slice()) {
            Ok(()) => {},
            Err(e) => return Err(Error::Storage(e)),
        }
    }
    proof {
        if good {
            schema::lemma_nothing_filtered(peers, live);
            assert(written(*txn) =~= s.without_expired(name, now@));
        }
    }
    Ok(())
}

/// The rings that were listed, each with its memberships in `s`.
spec fn records_of(rows: Seq<(String, Vec<u8>)>, s: Shape) -> Seq<(Seq<char>, Seq<MemberState>)> {
    rows.map_values(|row: (String, Vec<u8>)| (row.0@, s.members(row.0@)))
}

/// The rings that were listed are the rings of the registry.
proof fn lemma_records(rows: Seq<(String, Vec<u8>)>, tables: Map<Seq<char>, Map<Seq<u8>, Cell>>)
    requires
        storage::lists_text_bytes(rows, tables, RINGS@),
    ensures
        assoc::unique_keys(records_of(rows, schema::shape(tables))),
        assoc::assoc(records_of(rows, schema::shape(tables))) == schema::shape(tables).state().rings,
{
    let s = schema::shape(tables);
    let records = records_of(rows, s);
    assert forall|i: int, j: int| 0 <= i < j < records.len() implies (#[trigger] records[i]).0 != (
    #[trigger] records[j]).0 by {
        assert(rows[i].0@ != rows[j].0@);
    }
    assert forall|i: int| 0 <= i < records.len() implies s.state().rings.contains_key((#[trigger] records[i]).0)
        && s.state().rings[records[i].0] == records[i].1 by {
        assert(s.has_ring(rows[i].0@));
    }
    assert forall|name: Seq<char>| #[trigger] s.state().rings.contains_key(name) implies assoc::has_key(
        records,
        name,
    ) by {
        let key = vstd::utf8::encode_utf8(name);
        assert(storage::rows(tables, RINGS@).contains_key(key));
        let j = choose|j: int| 0 <= j < rows.len() && vstd::utf8::encode_utf8((#[trigger] rows[j]).0@) == key;
        octets::lemma_utf8_injective(rows[j].0@, name);
        assert(records[j].0 == name);
    }
    assoc::lemma_assoc_is(records, s.state().rings);
}

/// Removing what is over from one ring leaves a registry legible.
proof fn lemma_still_legible(before: RegistryState, after: RegistryState, name: Seq<char>, now: int)
    requires
        failures::legible(before),
        before.rings.contains_key(name),
        after.rings == before.rings.insert(name, model::current(before.rings[name], now)),
    ensures
        failures::legible(after),
{
    assert forall|n: Seq<char>, i: int| after.rings.contains_key(n) && 0 <= i < after.rings[n].len() implies {
        &&& endpoint::encodes_point((#[trigger] after.rings[n][i]).peer)
        &&& after.rings[n][i].expires_at matches Some(end) ==> end < time::TOO_LATE
    } by {
        if n == name {
            failures::lemma_kept(before.rings[name], |m: MemberState| !m.expired(now), i);
            let j = choose|j: int| 0 <= j < before.rings[name].len() && before.rings[name][j] == after.rings[n][i];
            assert(before.rings[name][j] == after.rings[n][i]);
        } else {
            assert(after.rings[n][i] == before.rings[n][i]);
        }
    }
}

/// Removes every membership that is over at `now`.
pub(crate) fn evict(txn: &mut redb::WriteTransaction, now: &Timestamp) -> (result: Result<
    Vec<EvictedMembership>,
    Error,
>)
    ensures
        result is Ok && schema::complete(storage::pending(*old(txn))) ==> schema::complete(storage::pending(*final(txn))),
        written(*old(txn)).coherent() && failures::legible(written(*old(txn)).state()) ==> failures::owed_to_redb(result),
        storage::origin(*final(txn)) == storage::origin(*old(txn)),
        result matches Err(e) ==> e is Storage,
        result is Ok ==> keeps_grants(written(*old(txn)), written(*final(txn))),
        written(*old(txn)).coherent() ==> match result {
            Ok(evicted) => {
                &&& written(*final(txn)).coherent()
                &&& written(*final(txn)).state() == written(*old(txn)).state().evict(now@)
                &&& registry::lists_lapsed(evicted@, written(*old(txn)).state(), now@)
            },
            Err(e) => e is Storage,
        },
{
    let ghost s = written(*txn);
    let ghost good = s.coherent();
    let ghost tables = storage::pending(*txn);
    proof {
        schema::lemma_table_names();
        schema::lemma_opened(tables, RINGS@);
    }
    let rows = match storage::get_all_text_bytes(txn, RINGS) {
        Ok(rows) => rows,
        Err(e) => return Err(Error::Storage(e)),
    };
    let ghost records = records_of(rows@, s);
    proof {
        lemma_records(rows@, tables);
    }
    let mut evicted: Vec<EvictedMembership> = Vec::new();
    let mut i: usize = 0;
    while i < rows.len()
        invariant
            i <= rows@.len(),
            good == s.coherent(),
            s == written(*old(txn)),
            storage::lists_text_bytes(rows@, tables, RINGS@),
            s == schema::shape(tables),
            records == records_of(rows@, s),
            storage::origin(*txn) == storage::origin(*old(txn)),
            schema::complete(storage::pending(*old(txn))) ==> schema::complete(storage::pending(*txn)),
            keeps_grants(s, written(*txn)),
            good ==> written(*txn).coherent(),
            good && failures::legible(s.state()) ==> failures::legible(written(*txn).state()),
            good ==> written(*txn).state().grants == s.state().grants,
            good ==> written(*txn).state().rings.dom() == s.state().rings.dom(),
            good ==> forall|j: int|
                0 <= j < i ==> written(*txn).state().rings[(#[trigger] rows@[j]).0@] == model::current(
                    s.members(rows@[j].0@),
                    now@,
                ),
            good ==> forall|j: int|
                i <= j < rows@.len() ==> written(*txn).rings[vstd::utf8::encode_utf8((#[trigger] rows@[j]).0@)]
                    == Cell::Bytes(rows@[j].1@) && written(*txn).members(rows@[j].0@) == s.members(rows@[j].0@),
            good ==> eviction::collects(evicted@, records, i as int, now@),
        decreases rows@.len() - i,
    {
        let ghost here = written(*txn);
        let ghost name = rows@[i as int].0@;
        let ghost listed = evicted@;
        proof {
            if good {
                assert(s.has_ring(name));
                assert(s.state().rings.dom().contains(name));
                assert(here.state().rings.dom().contains(name));
                assert(here.has_ring(name));
                schema::lemma_without_expired(here, name, now@);
            }
        }
        match evict_from_ring(txn, rows[i].0.as_str(), &rows[i].1, now, &mut evicted) {
            Ok(()) => {},
            Err(e) => return Err(e),
        }
        proof {
            if good {
                let next = written(*txn);
                assert(next == here.without_expired(name, now@));
                if failures::legible(s.state()) {
                    lemma_still_legible(here.state(), next.state(), name, now@);
                }
                assert(here.state().rings[name] == here.members(name));
                assert(next.state().rings.dom() =~= s.state().rings.dom());
                assert forall|j: int| 0 <= j < i + 1 implies next.state().rings[(#[trigger] rows@[j]).0@]
                    == model::current(s.members(rows@[j].0@), now@) by {
                    if j < i {
                        assert(rows@[j].0@ != rows@[i as int].0@);
                    }
                }
                assert forall|j: int| i + 1 <= j < rows@.len() implies next.rings[vstd::utf8::encode_utf8(
                    (#[trigger] rows@[j]).0@,
                )] == Cell::Bytes(rows@[j].1@) && next.members(rows@[j].0@) == s.members(rows@[j].0@) by {
                    let other = rows@[j].0@;
                    assert(rows@[i as int].0@ != other);
                    if vstd::utf8::encode_utf8(other) == vstd::utf8::encode_utf8(name) {
                        octets::lemma_utf8_injective(other, name);
                    }
                    assert(s.has_ring(other));
                    assert(s.state().rings.dom().contains(other));
                    assert(next.state().rings.dom().contains(other));
                    assert(next.has_ring(other));
                    assert(next.state().rings[other] == next.members(other));
                    assert(here.state().rings.dom().contains(other));
                    assert(here.state().rings[other] == here.members(other));
                }
                assert(records[i as int] == (name, s.members(name)));
                eviction::lemma_collect_step(listed, evicted@, records, i as int, now@);
            }
        }
        i = i + 1;
    }
    proof {
        if good {
            let next = written(*txn);
            assert forall|n: Seq<char>| next.state().rings.contains_key(n) implies next.state().rings[n]
                == s.state().evict(now@).rings[n] by {
                assert(s.state().rings.dom().contains(n));
                let key = vstd::utf8::encode_utf8(n);
                assert(storage::rows(tables, RINGS@).contains_key(key));
                let j = choose|j: int|
                    0 <= j < rows@.len() && vstd::utf8::encode_utf8((#[trigger] rows@[j]).0@) == key;
                octets::lemma_utf8_injective(rows@[j].0@, n);
                assert(s.state().rings[n] == s.members(n));
            }
            assert(next.state().rings.dom() =~= s.state().evict(now@).rings.dom());
            assert(next.state() =~= s.state().evict(now@));
            eviction::lemma_collected(evicted@, records, s.state(), now@);
        }
    }
    Ok(evicted)
}

} // verus!
