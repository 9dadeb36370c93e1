//! What follows from the rows that were read.
//!
//! The operations in [`super::rows`] read rows and then decide. Each decision is a function here,
//! from what was read to what is returned; reading fails or not, and the decision is the same.

use vstd::prelude::*;

use super::codec;
use crate::endpoint;
use crate::endpoint::EndpointId;
use crate::error::{Error, ErrorView};
use crate::octets;
use crate::registry;
use crate::registry::Permission;
use crate::ring;
use crate::ring::{Ring, OPEN_RING_NAME};
use crate::time;
use crate::time::Timestamp;

verus! {

/// A ring that is to be created must have no row.
pub fn absent_ring(row: &Option<Vec<u8>>, ring_name: &str) -> (result: Result<(), Error>)
    ensures
        match *row {
            Some(_) => result matches Err(e) && e@ == ErrorView::RingAlreadyExists(ring_name@),
            None => result is Ok,
        },
{
    match row {
        Some(_) => Err(Error::RingAlreadyExists(ring_name.to_string())),
        None => Ok(()),
    }
}

/// A ring that is to be associated must have a row.
pub fn existing_ring(row: &Option<Vec<u8>>, ring_name: &str) -> (result: Result<(), Error>)
    ensures
        match *row {
            Some(_) => result is Ok,
            None => result matches Err(e) && e@ == ErrorView::RingNotFound(ring_name@),
        },
{
    match row {
        Some(_) => Ok(()),
        None => Err(Error::RingNotFound(ring_name.to_string())),
    }
}

/// The peer ids in the row of a ring, which must be there.
pub fn found_ring(row: Option<Vec<u8>>, ring_name: &str) -> (result: Result<Vec<[u8; 32]>, Error>)
    ensures
        match row {
            Some(raw) => result matches Ok(ids) && octets::ids_of(ids@) == octets::chunks(raw@),
            None => result matches Err(e) && e@ == ErrorView::RingNotFound(ring_name@),
        },
{
    match row {
        Some(raw) => Ok(codec::decode_peer_ids(raw.as_slice())),
        None => Err(Error::RingNotFound(ring_name.to_string())),
    }
}

/// Whether a list of ids holds a peer's.
pub fn contains_id(ids: &Vec<[u8; 32]>, peer: &[u8; 32]) -> (yes: bool)
    ensures
        yes == octets::ids_of(ids@).contains(peer@),
{
    let ghost all = octets::ids_of(ids@);
    let mut i: usize = 0;
    while i < ids.len()
        invariant
            i <= ids@.len(),
            all == octets::ids_of(ids@),
            forall|j: int| 0 <= j < i ==> all[j] != peer@,
        decreases ids@.len() - i,
    {
        assert(all[i as int] == ids@[i as int]@);
        if octets::bytes_eq(ids[i].as_slice(), peer.as_slice()) {
            return true;
        }
        i = i + 1;
    }
    false
}

/// Whether the row of a ring, if there is one, holds a peer's id.
pub fn holds_peer(row: &Option<Vec<u8>>, peer: &[u8; 32]) -> (yes: bool)
    ensures
        yes == (*row matches Some(raw) && octets::chunks(raw@).contains(peer@)),
{
    match row {
        Some(raw) => {
            let ids = codec::decode_peer_ids(raw.as_slice());
            contains_id(&ids, peer)
        },
        None => false,
    }
}

/// The ring names in the row of a resource; none, if there is no row.
pub fn found_names(row: Option<Vec<u8>>) -> (names: Vec<String>)
    ensures
        codec::names_of(names@) == (match row {
            Some(raw) => codec::names_in(raw@),
            None => Seq::empty(),
        }),
{
    match row {
        Some(raw) => codec::decode_ring_names(raw.as_slice()),
        None => {
            let names: Vec<String> = Vec::new();
            assert(codec::names_of(names@) =~= Seq::empty());
            names
        },
    }
}

/// The permission bits of a row that was read; none, if there is no row.
pub open spec fn bits_in(row: Option<u8>) -> u8 {
    match row {
        Some(bits) => bits,
        None => 0,
    }
}

/// The permission bits in the row of an association; none, if there is no row.
pub fn found_bits(row: Option<u8>) -> (bits: u8)
    ensures
        bits == bits_in(row),
{
    match row {
        Some(bits) => bits,
        None => 0,
    }
}

/// Whether the row of an association, if there is one, grants a permission.
pub fn grants(row: Option<u8>, permission: Permission) -> (yes: bool)
    ensures
        yes == codec::perm_set(bits_in(row)).contains(permission),
{
    found_bits(row) & codec::permission_bit(permission) != 0
}

/// An association as it is listed: its ring, and what its row grants.
///
/// # Errors
///
/// Fails if the name is not one that a ring can have.
pub fn listed_association(name: &str, row: Option<u8>) -> (result: Result<(Ring, Vec<Permission>), Error>)
    ensures
        match result {
            Ok(entry) => {
                &&& ring::valid_name(name@)
                &&& entry.0@ == name@
                &&& entry.1@ == codec::perm_list(bits_in(row))
            },
            Err(e) => !ring::valid_name(name@) && e is Storage,
        },
{
    match Ring::new(name) {
        Ok(ring) => Ok((ring, codec::byte_to_perms(found_bits(row)))),
        Err(_) => Err(Error::Storage("invalid ring name".to_string())),
    }
}

/// Whether a row can be read as an expiry.
pub open spec fn readable(row: Option<(u64, u32)>) -> bool {
    row matches Some(end) ==> codec::expiry_nanos(end) < time::TOO_LATE
}

/// The expiry of a row that was read, in nanoseconds from the epoch; none, if there is no row.
pub open spec fn end_in(row: Option<(u64, u32)>) -> Option<int> {
    match row {
        Some(end) => Some(codec::expiry_nanos(end)),
        None => None,
    }
}

/// The expiry in the row of a membership; none, if there is no row.
///
/// # Errors
///
/// Fails if it lies too late to be represented.
pub fn found_expiry(row: Option<(u64, u32)>) -> (result: Result<Option<Timestamp>, Error>)
    ensures
        match result {
            Ok(end) => readable(row) && registry::nanos_of(end) == end_in(row),
            Err(e) => !readable(row) && e is Storage,
        },
{
    match row {
        Some(row) => match codec::decode_expiry(row) {
            Ok(end) => Ok(Some(end)),
            Err(e) => Err(e),
        },
        None => Ok(None),
    }
}

/// Whether the expiry in the row of a membership, if there is one, has passed at `now`.
///
/// # Errors
///
/// Fails if it lies too late to be represented.
pub fn has_passed(row: Option<(u64, u32)>, now: &Timestamp) -> (result: Result<bool, Error>)
    ensures
        match result {
            Ok(yes) => readable(row) && yes == (end_in(row) matches Some(end) && now@ >= end),
            Err(e) => !readable(row) && e is Storage,
        },
{
    match found_expiry(row) {
        Ok(Some(end)) => Ok(now.reaches(&end)),
        Ok(None) => Ok(false),
        Err(e) => Err(e),
    }
}

/// A member that is to be listed at `now`, with the expiry in its row: `None`, if the membership is
/// over.
///
/// # Errors
///
/// Fails if the id is not that of a peer, or if the expiry lies too late to be represented.
pub fn current_member(id: &[u8; 32], row: Option<(u64, u32)>, now: &Timestamp) -> (result: Result<
    Option<(EndpointId, Option<Timestamp>)>,
    Error,
>)
    ensures
        match result {
            Ok(found) => {
                &&& endpoint::encodes_point(id@)
                &&& readable(row)
                &&& match found {
                    Some((peer, end)) => {
                        &&& !(end_in(row) matches Some(end) && now@ >= end)
                        &&& peer@ == id@
                        &&& registry::nanos_of(end) == end_in(row)
                    },
                    None => end_in(row) matches Some(end) && now@ >= end,
                }
            },
            Err(e) => e is Storage && (!endpoint::encodes_point(id@) || !readable(row)),
        },
{
    let peer = match endpoint::decode_endpoint_id(id) {
        Ok(peer) => peer,
        Err(e) => return Err(e),
    };
    let end = match found_expiry(row) {
        Ok(end) => end,
        Err(e) => return Err(e),
    };
    let passed = match &end {
        Some(end) => now.reaches(end),
        None => false,
    };
    if passed {
        Ok(None)
    } else {
        Ok(Some((peer, end)))
    }
}

/// The open ring, and then those among `names` that are other rings.
pub open spec fn ring_list(names: Seq<Seq<char>>) -> Seq<Seq<char>>
    decreases names.len(),
{
    if names.len() == 0 {
        seq![OPEN_RING_NAME@]
    } else {
        let before = ring_list(names.drop_last());
        if names.last() == OPEN_RING_NAME@ {
            before
        } else {
            before.push(names.last())
        }
    }
}

/// What the list of rings holds.
pub proof fn lemma_ring_list(names: Seq<Seq<char>>)
    ensures
        ring_list(names).len() > 0,
        ring_list(names)[0] == OPEN_RING_NAME@,
        forall|a: int|
            1 <= a < ring_list(names).len() ==> names.contains(#[trigger] ring_list(names)[a]) && ring_list(names)[a]
                != OPEN_RING_NAME@,
        forall|j: int| 0 <= j < names.len() ==> ring_list(names).contains(#[trigger] names[j]),
        names.no_duplicates() ==> ring_list(names).no_duplicates(),
    decreases names.len(),
{
    let list = ring_list(names);
    if names.len() > 0 {
        let init = names.drop_last();
        let last = names.last();
        let before = ring_list(init);
        lemma_ring_list(init);
        assert(names[names.len() - 1] == last);
        assert forall|a: int| 1 <= a < list.len() implies names.contains(#[trigger] list[a]) && list[a]
            != OPEN_RING_NAME@ by {
            if a < before.len() {
                assert(list[a] == before[a]);
                let j = choose|j: int| 0 <= j < init.len() && init[j] == before[a];
                assert(names[j] == list[a]);
            }
        }
        assert forall|j: int| 0 <= j < names.len() implies list.contains(#[trigger] names[j]) by {
            if j < init.len() {
                assert(init[j] == names[j]);
                assert(before.contains(init[j]));
                let a = choose|a: int| 0 <= a < before.len() && before[a] == names[j];
                assert(list[a] == names[j]);
            } else if last == OPEN_RING_NAME@ {
                assert(list[0] == names[j]);
            } else {
                assert(list[before.len() as int] == names[j]);
            }
        }
        if names.no_duplicates() {
            assert(init.no_duplicates());
            assert forall|a: int, b: int| 0 <= a < b < list.len() implies list[a] != list[b] by {
                if b < before.len() {
                    assert(before[a] != before[b]);
                } else if a > 0 {
                    assert(init.contains(before[a]));
                    let j = choose|j: int| 0 <= j < init.len() && init[j] == before[a];
                    assert(names[j] != names[names.len() - 1]);
                }
            }
        }
    }
}

/// The names in the rows of rings.
pub open spec fn row_names(rows: Seq<(String, Vec<u8>)>) -> Seq<Seq<char>> {
    rows.map_values(|row: (String, Vec<u8>)| row.0@)
}

/// Rings as character sequences.
pub open spec fn ring_names(rings: Seq<Ring>) -> Seq<Seq<char>> {
    rings.map_values(|ring: Ring| ring@)
}

/// The rings as they are listed, from the rows of all rings: the open ring first.
///
/// # Errors
///
/// Fails if a name is not one that a ring can have.
pub fn listed_rings(rows: &Vec<(String, Vec<u8>)>) -> (result: Result<Vec<Ring>, Error>)
    ensures
        match result {
            Ok(rings) => {
                &&& forall|i: int| 0 <= i < rows@.len() ==> ring::valid_name(#[trigger] row_names(rows@)[i])
                &&& ring_names(rings@) == ring_list(row_names(rows@))
            },
            Err(e) => {
                &&& e is Storage
                &&& exists|i: int| 0 <= i < rows@.len() && !ring::valid_name(#[trigger] row_names(rows@)[i])
            },
        },
{
    let ghost names = row_names(rows@);
    let mut rings: Vec<Ring> = vec![Ring::new_open()];
    let mut i: usize = 0;
    proof {
        ring::lemma_open_name_valid();
        assert(names.take(0) =~= Seq::empty());
        assert(ring_names(rings@) =~= ring_list(names.take(0)));
    }
    while i < rows.len()
        invariant
            i <= rows@.len(),
            names == row_names(rows@),
            ring::valid_name(OPEN_RING_NAME@),
            forall|j: int| 0 <= j < i ==> ring::valid_name(#[trigger] names[j]),
            ring_names(rings@) == ring_list(names.take(i as int)),
        decreases rows@.len() - i,
    {
        let name = &rows[i].0;
        let ghost listed = rings@;
        proof {
            assert(names[i as int] == name@);
            assert(names.take(i + 1).drop_last() =~= names.take(i as int));
            assert(names.take(i + 1).last() == name@);
        }
        if !octets::str_eq(name.as_str(), OPEN_RING_NAME) {
            match Ring::new(name.as_str()) {
                Ok(ring) => {
                    rings.push(ring);
                    assert(ring_names(rings@) =~= ring_names(listed).push(name@));
                },
                Err(_) => return Err(Error::Storage("invalid ring name".to_string())),
            }
        }
        i = i + 1;
    }
    assert(names.take(i as int) =~= names);
    Ok(rings)
}

/// A membership without an expiry never ends; one with an expiry is over from the second and
/// nanosecond on that its row gives. A row that gives a time beyond those that there are is an error.
pub proof fn law_expiry_rows(
    row: Option<(u64, u32)>,
    now: &Timestamp,
    passed: Result<bool, Error>,
    found: Result<Option<Timestamp>, Error>,
)
    requires
        call_ensures(has_passed, (row, now), passed),
        call_ensures(found_expiry, (row,), found),
    ensures
        row is None ==> passed == Ok::<bool, Error>(false) && found == Ok::<Option<Timestamp>, Error>(None),
        row matches Some((secs, nanos)) ==> {
            let end = secs * 1_000_000_000 + nanos;
            let there = end < 9_223_372_036_854_775_808_000_000_000;
            &&& there ==> passed == Ok::<bool, Error>(end <= now@)
            &&& there ==> found is Ok && found->Ok_0 is Some && found->Ok_0->Some_0@ == end
            &&& !there ==> passed is Err && found is Err
        },
        passed matches Err(e) ==> e is Storage,
        found matches Err(e) ==> e is Storage,
{
}

/// A row of permissions grants what its bits say, `Read` by the first, `Write` by the second and
/// `Delete` by the third; no row grants nothing.
pub proof fn law_permission_rows(row: Option<u8>, permission: Permission, yes: bool, bits: u8)
    requires
        call_ensures(grants, (row, permission), yes),
        call_ensures(found_bits, (row,), bits),
    ensures
        row is None ==> !yes && bits == 0,
        row matches Some(byte) ==> bits == byte,
        row matches Some(byte) ==> (yes <==> match permission {
            Permission::Read => byte % 2 == 1,
            Permission::Write => byte / 2 % 2 == 1,
            Permission::Delete => byte / 4 % 2 == 1,
        }),
{
    let byte = bits_in(row);
    assert((byte & 0b001u8 != 0) == (byte % 2 == 1)) by (bit_vector);
    assert((byte & 0b010u8 != 0) == (byte / 2 % 2 == 1)) by (bit_vector);
    assert((byte & 0b100u8 != 0) == (byte / 4 % 2 == 1)) by (bit_vector);
    assert((0u8 & 0b001u8) == 0 && (0u8 & 0b010u8) == 0 && (0u8 & 0b100u8) == 0) by (bit_vector);
    assert(codec::perm_set(byte).contains(permission) == (byte & codec::bit(permission) != 0));
}

/// The rings that are listed are the open ring, and then the others in the order of their rows.
pub proof fn law_ring_list(names: Seq<Seq<char>>)
    ensures
        ring_list(names) == seq![seq!['o', 'p', 'e', 'n']] + names.filter(
            |name: Seq<char>| name != seq!['o', 'p', 'e', 'n'],
        ),
    decreases names.len(),
{
    let keep = |name: Seq<char>| name != seq!['o', 'p', 'e', 'n'];
    ring::lemma_open_name_valid();
    reveal(Seq::filter);
    if names.len() > 0 {
        law_ring_list(names.drop_last());
    }
    assert(ring_list(names) =~= seq![seq!['o', 'p', 'e', 'n']] + names.filter(keep));
}

} // verus!
