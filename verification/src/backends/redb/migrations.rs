//! Schema migrations.
//!
//! [`migrate`] runs on every startup. It reads the stored schema version and runs all pending
//! steps in sequence. Each step is one transaction that also bumps the version, so that a crash
//! leaves the database in a state where the step is retried on the next startup.
//!
//! | Version | Change |
//! |---------|--------|
//! | 0 | Initial schema: rings, resource rings, nicknames. No permission data. |
//! | 1 | Added permissions. All existing ring–resource associations are backfilled with `Read`. |
//! | 2 | Renamed nicknames to labels. All existing rows are copied and the old table is deleted. |

use vstd::prelude::*;

use super::codec;
use super::failures;
use super::rows;
use super::schema;
use super::schema::{Shape, LABELS, META, NICKNAMES_LEGACY, RESOURCE_RINGS, RESOURCE_RING_PERMS, SCHEMA_VERSION_KEY};
use super::storage;
use super::storage::Cell;
use crate::error::Error;
use crate::model;
use crate::model::GrantState;
use crate::registry::Permission;
use crate::ring;
use crate::ring::OPEN_RING_NAME;

verus! {

broadcast use failures::group_reports;

/// The schema version this code targets.
pub const CURRENT_VERSION: u32 = 2;

/// Permission bitfield value for `Read`-only access.
pub const READ_BIT: u8 = 0b001;

/// The schema version that tables are marked with; 0, if they are not marked.
pub open spec fn version_in(tables: Map<Seq<char>, Map<Seq<u8>, Cell>>) -> u32 {
    match storage::cell(tables, META@, vstd::utf8::encode_utf8(SCHEMA_VERSION_KEY@)) {
        Some(Cell::Number(version)) => version,
        _ => 0,
    }
}

/// Whether a key is that of a permission row of an association.
pub open spec fn is_association(s: Shape, key: Seq<u8>) -> bool {
    exists|id: Seq<u8>, i: int| {
        &&& s.resources.contains_key(id)
        &&& 0 <= i < s.names(id).len()
        &&& key == #[trigger] codec::perm_row(id, s.names(id)[i])
    }
}

/// The permission rows after every association without one got one for `Read`.
pub open spec fn backfilled(s: Shape) -> Map<Seq<u8>, Cell> {
    Map::new(
        |key: Seq<u8>| s.perms.contains_key(key) || is_association(s, key),
        |key: Seq<u8>|
            if s.perms.contains_key(key) {
                s.perms[key]
            } else {
                Cell::Byte(READ_BIT)
            },
    )
}

/// The tables that do not hold the registry, marked with a schema version.
pub open spec fn marked(
    others: Map<Seq<char>, Map<Seq<u8>, Cell>>,
    version: u32,
) -> Map<Seq<char>, Map<Seq<u8>, Cell>> {
    storage::put(others, META@, vstd::utf8::encode_utf8(SCHEMA_VERSION_KEY@), Cell::Number(version))
}

/// The first step: permissions are backfilled, and the version is set to 1. Nothing else
/// changes.
pub open spec fn with_permissions(s: Shape) -> Shape {
    Shape { perms: backfilled(s), others: marked(s.others, 1), ..s }
}

/// The second step: nicknames become labels, their table is gone, and the version is set to 2.
/// Nothing else changes.
pub open spec fn with_labels(s: Shape) -> Shape {
    Shape {
        labels: s.labels.union_prefer_right(storage::rows(s.others, NICKNAMES_LEGACY@)),
        others: marked(s.others.remove(NICKNAMES_LEGACY@), 2),
        ..s
    }
}

/// Tables of an older version, brought up to the current one: permissions are backfilled below
/// version 1, and nicknames become labels below version 2.
pub open spec fn upgraded(tables: Map<Seq<char>, Map<Seq<u8>, Cell>>) -> Shape {
    let s = schema::shape(tables);
    with_labels(
        if version_in(tables) < 1 {
            with_permissions(s)
        } else {
            s
        },
    )
}

/// Whether `after` are the tables `before`, brought up to the current version.
pub open spec fn migrated(
    before: Map<Seq<char>, Map<Seq<u8>, Cell>>,
    after: Map<Seq<char>, Map<Seq<u8>, Cell>>,
) -> bool {
    if version_in(before) >= CURRENT_VERSION {
        after == before
    } else {
        schema::shape(after) == upgraded(before)
    }
}

/// Whether `after` are the tables `before` after some of the pending steps, each of them done as a
/// whole.
pub open spec fn underway(
    before: Map<Seq<char>, Map<Seq<u8>, Cell>>,
    after: Map<Seq<char>, Map<Seq<u8>, Cell>>,
) -> bool {
    ||| after == before
    ||| version_in(before) < 1 && schema::shape(after) == with_permissions(schema::shape(before))
    ||| migrated(before, after)
}

/// The schema version is among the tables that do not hold the registry.
pub proof fn lemma_version(tables: Map<Seq<char>, Map<Seq<u8>, Cell>>)
    ensures
        version_in(tables) == version_in(schema::shape(tables).others),
        storage::rows(tables, NICKNAMES_LEGACY@) == storage::rows(schema::shape(tables).others, NICKNAMES_LEGACY@),
        tables.contains_key(NICKNAMES_LEGACY@) == schema::shape(tables).others.contains_key(NICKNAMES_LEGACY@),
        forall|others: Map<Seq<char>, Map<Seq<u8>, Cell>>, version: u32| version_in(#[trigger] marked(others, version))
            == version,
        forall|others: Map<Seq<char>, Map<Seq<u8>, Cell>>, version: u32| #[trigger]
            marked(others, version).contains_key(NICKNAMES_LEGACY@) == others.contains_key(NICKNAMES_LEGACY@),
        forall|others: Map<Seq<char>, Map<Seq<u8>, Cell>>, version: u32|
            storage::rows(#[trigger] marked(others, version), NICKNAMES_LEGACY@) == storage::rows(
                others,
                NICKNAMES_LEGACY@,
            ),
{
    schema::lemma_table_names();
}

/// Brings `db` up to [`CURRENT_VERSION`], running all pending migration steps.
///
/// Safe to call on a new database (there is nothing to backfill, only the version is written)
/// and on a current one (nothing is written).
///
/// # Errors
///
/// Returns [`Error::Storage`] if any read or write operation fails. Every step has been done as a
/// whole then, or not at all.
pub fn migrate(db: &mut redb::Database) -> (result: Result<(), Error>)
    requires
        !storage::writing(*old(db)),
    ensures
        schema::complete(storage::committed(*old(db))) ==> schema::complete(storage::committed(*final(db))),
        failures::owed_to_redb(result),
        !storage::writing(*final(db)),
        storage::opened_at(*final(db)) == storage::opened_at(*old(db)),
        match result {
            Ok(()) => migrated(storage::committed(*old(db)), storage::committed(*final(db))),
            Err(e) => {
                &&& e is Storage
                &&& underway(storage::committed(*old(db)), storage::committed(*final(db)))
            },
        },
{
    proof {
        lemma_version(storage::committed(*db));
    }
    let version = match read_version(db) {
        Ok(version) => version,
        Err(e) => return Err(e),
    };
    if version >= CURRENT_VERSION {
        return Ok(());
    }
    if version < 1 {
        match v0_to_v1(db) {
            Ok(()) => {},
            Err(e) => return Err(e),
        }
        proof {
            lemma_version(storage::committed(*db));
        }
    }
    v1_to_v2(db)
}

/// The schema version that a row holds; 0, if there is none.
pub fn found_version(row: Option<u32>) -> (version: u32)
    ensures
        version == (match row {
            Some(version) => version,
            None => 0,
        }),
{
    match row {
        Some(version) => version,
        None => 0,
    }
}

/// Reads the schema version; 0, if there is none.
pub fn read_version(db: &redb::Database) -> (result: Result<u32, Error>)
    ensures
        failures::owed_to_redb(result),
        match result {
            Ok(version) => version == version_in(storage::committed(*db)),
            Err(e) => e is Storage,
        },
{
    proof {
        schema::lemma_table_names();
    }
    let txn = match storage::begin_read(db) {
        Ok(txn) => txn,
        Err(e) => return Err(Error::Storage(e)),
    };
    match storage::read_text_number(&txn, META, SCHEMA_VERSION_KEY) {
        Ok(row) => Ok(found_version(row)),
        Err(e) => Err(Error::Storage(e)),
    }
}

/// Backfills the permissions of every existing association with `Read`, and sets the version
/// to 1.
///
/// Before version 1 there were no permissions, and reading was the only operation. It is one
/// transaction: both the backfill and the version are committed, or neither is.
fn v0_to_v1(db: &mut redb::Database) -> (result: Result<(), Error>)
    requires
        !storage::writing(*old(db)),
    ensures
        schema::complete(storage::committed(*old(db))) ==> schema::complete(storage::committed(*final(db))),
        failures::owed_to_redb(result),
        !storage::writing(*final(db)),
        storage::opened_at(*final(db)) == storage::opened_at(*old(db)),
        ({
            let before = storage::committed(*old(db));
            let after = storage::committed(*final(db));
            match result {
                Ok(()) => schema::shape(after) == with_permissions(schema::shape(before)),
                Err(e) => {
                    &&& e is Storage
                    &&& after == before || schema::shape(after) == with_permissions(schema::shape(before))
                },
            }
        }),
{
    let mut txn = match storage::begin_write(db) {
        Ok(txn) => txn,
        Err(e) => return Err(Error::Storage(e)),
    };
    let outcome = backfill(&mut txn);
    rows::finish(db, txn, outcome)
}

/// Whether a key is that of a permission row of an association in the first rows, or of one of
/// the first names of the row after them.
spec fn backfilled_key(list: Seq<(Vec<u8>, Vec<u8>)>, upto: int, names: int, key: Seq<u8>) -> bool {
    exists|r: int, i: int| {
        &&& 0 <= r < list.len()
        &&& 0 <= i < codec::names_in(list[r].1@).len()
        &&& (r < upto || r == upto && i < names)
        &&& key == #[trigger] codec::perm_row(list[r].0@, codec::names_in(list[r].1@)[i])
    }
}

/// The permission rows after those of the keys of [`backfilled_key`] were added.
spec fn backfilled_upto(
    perms: Map<Seq<u8>, Cell>,
    list: Seq<(Vec<u8>, Vec<u8>)>,
    upto: int,
    names: int,
) -> Map<Seq<u8>, Cell> {
    Map::new(
        |key: Seq<u8>| perms.contains_key(key) || backfilled_key(list, upto, names, key),
        |key: Seq<u8>|
            if perms.contains_key(key) {
                perms[key]
            } else {
                Cell::Byte(READ_BIT)
            },
    )
}

/// One more name.
proof fn lemma_backfill_step(
    perms: Map<Seq<u8>, Cell>,
    list: Seq<(Vec<u8>, Vec<u8>)>,
    r: int,
    i: int,
)
    requires
        0 <= r < list.len(),
        0 <= i < codec::names_in(list[r].1@).len(),
    ensures
        ({
            let key = codec::perm_row(list[r].0@, codec::names_in(list[r].1@)[i]);
            let before = backfilled_upto(perms, list, r, i);
            backfilled_upto(perms, list, r, i + 1) == if before.contains_key(key) {
                before
            } else {
                before.insert(key, Cell::Byte(READ_BIT))
            }
        }),
{
    let key = codec::perm_row(list[r].0@, codec::names_in(list[r].1@)[i]);
    let before = backfilled_upto(perms, list, r, i);
    let after = backfilled_upto(perms, list, r, i + 1);
    assert forall|k: Seq<u8>| backfilled_key(list, r, i + 1, k) <==> backfilled_key(list, r, i, k) || k == key by {
        if backfilled_key(list, r, i, k) {
            let (q, j) = choose|q: int, j: int| {
                &&& 0 <= q < list.len()
                &&& 0 <= j < codec::names_in(list[q].1@).len()
                &&& (q < r || q == r && j < i)
                &&& k == #[trigger] codec::perm_row(list[q].0@, codec::names_in(list[q].1@)[j])
            };
            assert(k == codec::perm_row(list[q].0@, codec::names_in(list[q].1@)[j]));
        }
    }
    if before.contains_key(key) {
        assert(after =~= before);
    } else {
        assert(after =~= before.insert(key, Cell::Byte(READ_BIT)));
    }
}

/// The end of a row is the beginning of the next.
proof fn lemma_backfill_row(perms: Map<Seq<u8>, Cell>, list: Seq<(Vec<u8>, Vec<u8>)>, r: int)
    requires
        0 <= r < list.len(),
    ensures
        backfilled_upto(perms, list, r, codec::names_in(list[r].1@).len() as int) == backfilled_upto(
            perms,
            list,
            r + 1,
            0,
        ),
{
    let n = codec::names_in(list[r].1@).len() as int;
    assert forall|k: Seq<u8>| backfilled_key(list, r, n, k) == backfilled_key(list, r + 1, 0, k) by {
        if backfilled_key(list, r, n, k) {
            let (q, j) = choose|q: int, j: int| {
                &&& 0 <= q < list.len()
                &&& 0 <= j < codec::names_in(list[q].1@).len()
                &&& (q < r || q == r && j < n)
                &&& k == #[trigger] codec::perm_row(list[q].0@, codec::names_in(list[q].1@)[j])
            };
            assert(k == codec::perm_row(list[q].0@, codec::names_in(list[q].1@)[j]));
        }
        if backfilled_key(list, r + 1, 0, k) {
            let (q, j) = choose|q: int, j: int| {
                &&& 0 <= q < list.len()
                &&& 0 <= j < codec::names_in(list[q].1@).len()
                &&& (q < r + 1 || q == r + 1 && j < 0)
                &&& k == #[trigger] codec::perm_row(list[q].0@, codec::names_in(list[q].1@)[j])
            };
            assert(k == codec::perm_row(list[q].0@, codec::names_in(list[q].1@)[j]));
        }
    }
    assert(backfilled_upto(perms, list, r, n) =~= backfilled_upto(perms, list, r + 1, 0));
}

/// When all rows have been gone through, every association has been.
proof fn lemma_backfill_done(s: Shape, list: Seq<(Vec<u8>, Vec<u8>)>, tables: Map<Seq<char>, Map<Seq<u8>, Cell>>)
    requires
        s == schema::shape(tables),
        storage::lists_bytes_bytes(list, tables, RESOURCE_RINGS@),
    ensures
        backfilled_upto(s.perms, list, list.len() as int, 0) == backfilled(s),
        backfilled_upto(s.perms, list, 0, 0) == s.perms,
{
    assert forall|r: int| 0 <= r < list.len() implies s.resources.contains_key((#[trigger] list[r]).0@) && s.names(
        list[r].0@,
    ) == codec::names_in(list[r].1@) by {
        assert(storage::cell(tables, RESOURCE_RINGS@, list[r].0@) == Some(Cell::Bytes(list[r].1@)));
    }
    assert forall|k: Seq<u8>| backfilled_key(list, list.len() as int, 0, k) == is_association(s, k) by {
        if backfilled_key(list, list.len() as int, 0, k) {
            let (q, j) = choose|q: int, j: int| {
                &&& 0 <= q < list.len()
                &&& 0 <= j < codec::names_in(list[q].1@).len()
                &&& (q < list.len() || q == list.len() && j < 0)
                &&& k == #[trigger] codec::perm_row(list[q].0@, codec::names_in(list[q].1@)[j])
            };
            assert(s.resources.contains_key(list[q].0@));
            assert(k == codec::perm_row(list[q].0@, s.names(list[q].0@)[j]));
        }
        if is_association(s, k) {
            let (id, j) = choose|id: Seq<u8>, j: int| {
                &&& s.resources.contains_key(id)
                &&& 0 <= j < s.names(id).len()
                &&& k == #[trigger] codec::perm_row(id, s.names(id)[j])
            };
            assert(storage::rows(tables, RESOURCE_RINGS@).contains_key(id));
            let q = choose|q: int| 0 <= q < list.len() && (#[trigger] list[q]).0@ == id;
            assert(k == codec::perm_row(list[q].0@, codec::names_in(list[q].1@)[j]));
        }
    }
    assert(backfilled_upto(s.perms, list, list.len() as int, 0) =~= backfilled(s));
    assert(backfilled_upto(s.perms, list, 0, 0) =~= s.perms);
}

/// Sets the schema version.
fn set_version(txn: &mut redb::WriteTransaction, version: u32) -> (result: Result<(), Error>)
    ensures
        result is Ok && schema::complete(storage::pending(*old(txn))) ==> schema::complete(storage::pending(*final(txn))),
        failures::owed_to_redb(result),
        storage::origin(*final(txn)) == storage::origin(*old(txn)),
        match result {
            Ok(()) => rows::written(*final(txn)) == (Shape {
                others: marked(rows::written(*old(txn)).others, version),
                ..rows::written(*old(txn))
            }),
            Err(e) => e is Storage,
        },
{
    proof {
        schema::lemma_table_names();
    }
    match storage::put_text_number(txn, META, SCHEMA_VERSION_KEY, version) {
        Ok(()) => {
            assert(rows::written(*txn).others =~= marked(rows::written(*old(txn)).others, version));
            Ok(())
        },
        Err(e) => Err(Error::Storage(e)),
    }
}

/// The backfill, within a transaction.
fn backfill(txn: &mut redb::WriteTransaction) -> (result: Result<(), Error>)
    ensures
        result is Ok && schema::complete(storage::pending(*old(txn))) ==> schema::complete(storage::pending(*final(txn))),
        failures::owed_to_redb(result),
        storage::origin(*final(txn)) == storage::origin(*old(txn)),
        match result {
            Ok(()) => rows::written(*final(txn)) == with_permissions(rows::written(*old(txn))),
            Err(e) => e is Storage,
        },
{
    let ghost tables = storage::pending(*txn);
    let ghost s = schema::shape(tables);
    proof {
        schema::lemma_table_names();
        schema::lemma_opened(tables, RESOURCE_RINGS@);
    }
    let entries = match storage::get_all_bytes_bytes(txn, RESOURCE_RINGS) {
        Ok(entries) => entries,
        Err(e) => return Err(Error::Storage(e)),
    };
    proof {
        lemma_backfill_done(s, entries@, tables);
    }
    let mut r: usize = 0;
    while r < entries.len()
        invariant
            r <= entries@.len(),
            RESOURCE_RING_PERMS@.len() > 0,
            storage::origin(*txn) == storage::origin(*old(txn)),
            schema::complete(storage::pending(*old(txn))) ==> schema::complete(storage::pending(*txn)),
            schema::shape(storage::pending(*txn)) == (Shape {
                perms: backfilled_upto(s.perms, entries@, r as int, 0),
                ..s
            }),
        decreases entries@.len() - r,
    {
        let id = &entries[r].0;
        let names = codec::decode_ring_names(entries[r].1.as_slice());
        let ghost all = codec::names_in(entries@[r as int].1@);
        let mut i: usize = 0;
        while i < names.len()
            invariant
                i <= names@.len(),
                r < entries@.len(),
                id@ == entries@[r as int].0@,
                all == codec::names_in(entries@[r as int].1@),
                codec::names_of(names@) == all,
                RESOURCE_RING_PERMS@.len() > 0,
                storage::origin(*txn) == storage::origin(*old(txn)),
            schema::complete(storage::pending(*old(txn))) ==> schema::complete(storage::pending(*txn)),
                schema::shape(storage::pending(*txn)) == (Shape {
                    perms: backfilled_upto(s.perms, entries@, r as int, i as int),
                    ..s
                }),
            decreases names@.len() - i,
        {
            let key = codec::perm_key(id.as_slice(), names[i].as_str());
            proof {
                assert(codec::names_of(names@)[i as int] == names@[i as int]@);
                lemma_backfill_step(s.perms, entries@, r as int, i as int);
                schema::lemma_opened(storage::pending(*txn), RESOURCE_RING_PERMS@);
            }
            let found = match storage::get_bytes_byte(txn, RESOURCE_RING_PERMS, key.as_slice()) {
                Ok(found) => found,
                Err(e) => return Err(Error::Storage(e)),
            };
            if found.is_none() {
                proof {
                    schema::lemma_rows_change(storage::pending(*txn), key@, Cell::Byte(READ_BIT));
                }
                match storage::put_bytes_byte(txn, RESOURCE_RING_PERMS, key.as_slice(), READ_BIT) {
                    Ok(()) => {},
                    Err(e) => return Err(Error::Storage(e)),
                }
            }
            i = i + 1;
        }
        proof {
            assert(names@.len() == codec::names_of(names@).len());
            lemma_backfill_row(s.perms, entries@, r as int);
        }
        r = r + 1;
    }
    set_version(txn, 1)
}

/// Copies all nicknames to the labels, deletes the old table, and sets the version to 2.
///
/// If the old table does not exist, only the version is written. It is one transaction: all of it
/// is committed, or nothing.
fn v1_to_v2(db: &mut redb::Database) -> (result: Result<(), Error>)
    requires
        !storage::writing(*old(db)),
    ensures
        schema::complete(storage::committed(*old(db))) ==> schema::complete(storage::committed(*final(db))),
        failures::owed_to_redb(result),
        !storage::writing(*final(db)),
        storage::opened_at(*final(db)) == storage::opened_at(*old(db)),
        ({
            let before = storage::committed(*old(db));
            let after = storage::committed(*final(db));
            match result {
                Ok(()) => schema::shape(after) == with_labels(schema::shape(before)),
                Err(e) => {
                    &&& e is Storage
                    &&& after == before || schema::shape(after) == with_labels(schema::shape(before))
                },
            }
        }),
{
    proof {
        schema::lemma_table_names();
        lemma_version(storage::committed(*db));
    }
    let read = match storage::begin_read(db) {
        Ok(read) => read,
        Err(e) => return Err(Error::Storage(e)),
    };
    let nicknames = match storage::read_all_bytes_text(&read, NICKNAMES_LEGACY) {
        Ok(Some(nicknames)) => nicknames,
        Ok(None) => Vec::new(),
        Err(e) => return Err(Error::Storage(e)),
    };
    let mut txn = match storage::begin_write(db) {
        Ok(txn) => txn,
        Err(e) => return Err(Error::Storage(e)),
    };
    let outcome = rename_nicknames(&mut txn, &nicknames);
    rows::finish(db, txn, outcome)
}

/// The labels after the first nicknames were copied to them.
spec fn copied(labels: Map<Seq<u8>, Cell>, list: Seq<(Vec<u8>, String)>) -> Map<Seq<u8>, Cell>
    decreases list.len(),
{
    if list.len() == 0 {
        labels
    } else {
        copied(labels, list.drop_last()).insert(list.last().0@, Cell::Text(list.last().1@))
    }
}

/// What copying does to each row.
proof fn lemma_copied(labels: Map<Seq<u8>, Cell>, list: Seq<(Vec<u8>, String)>, key: Seq<u8>)
    requires
        forall|i: int, j: int| 0 <= i < j < list.len() ==> (#[trigger] list[i]).0@ != (#[trigger] list[j]).0@,
    ensures
        copied(labels, list).contains_key(key) <==> labels.contains_key(key) || exists|i: int|
            0 <= i < list.len() && (#[trigger] list[i]).0@ == key,
        forall|i: int|
            0 <= i < list.len() && (#[trigger] list[i]).0@ == key ==> copied(labels, list)[key] == Cell::Text(
                list[i].1@,
            ),
        (forall|i: int| 0 <= i < list.len() ==> (#[trigger] list[i]).0@ != key) && labels.contains_key(key)
            ==> copied(labels, list)[key] == labels[key],
    decreases list.len(),
{
    if list.len() > 0 {
        let init = list.drop_last();
        let n = list.len() - 1;
        assert forall|i: int, j: int| 0 <= i < j < init.len() implies (#[trigger] init[i]).0@ != (
        #[trigger] init[j]).0@ by {
            assert(list[i].0@ != list[j].0@);
        }
        lemma_copied(labels, init, key);
        if exists|i: int| 0 <= i < list.len() && (#[trigger] list[i]).0@ == key {
            let i = choose|i: int| 0 <= i < list.len() && (#[trigger] list[i]).0@ == key;
            if i < n {
                assert(init[i].0@ == key);
            }
        }
        if exists|i: int| 0 <= i < init.len() && (#[trigger] init[i]).0@ == key {
            let i = choose|i: int| 0 <= i < init.len() && (#[trigger] init[i]).0@ == key;
            assert(list[i].0@ == key);
        }
        assert forall|i: int| 0 <= i < list.len() && (#[trigger] list[i]).0@ == key implies copied(labels, list)[key]
            == Cell::Text(list[i].1@) by {
            if i < n {
                assert(list[i].0@ != list[n].0@);
                assert(init[i].0@ == key);
            }
        }
        if (forall|i: int| 0 <= i < list.len() ==> (#[trigger] list[i]).0@ != key) && labels.contains_key(key) {
            assert(list[n].0@ != key);
            assert forall|i: int| 0 <= i < init.len() implies (#[trigger] init[i]).0@ != key by {
                assert(list[i].0@ != key);
            }
        }
    }
}

/// The copying, within a transaction.
fn rename_nicknames(txn: &mut redb::WriteTransaction, nicknames: &Vec<(Vec<u8>, String)>) -> (result: Result<(), Error>)
    ensures
        result is Ok && schema::complete(storage::pending(*old(txn))) ==> schema::complete(storage::pending(*final(txn))),
        failures::owed_to_redb(result),
        storage::origin(*final(txn)) == storage::origin(*old(txn)),
        match result {
            Ok(()) => storage::lists_bytes_text(nicknames@, storage::pending(*old(txn)), NICKNAMES_LEGACY@)
                ==> rows::written(*final(txn)) == with_labels(rows::written(*old(txn))),
            Err(e) => e is Storage,
        },
{
    let ghost tables = storage::pending(*txn);
    let ghost s = schema::shape(tables);
    proof {
        schema::lemma_table_names();
        assert(nicknames@.take(0) =~= Seq::empty());
    }
    let mut i: usize = 0;
    while i < nicknames.len()
        invariant
            i <= nicknames@.len(),
            LABELS@.len() > 0,
            storage::origin(*txn) == storage::origin(*old(txn)),
            schema::complete(storage::pending(*old(txn))) ==> schema::complete(storage::pending(*txn)),
            schema::shape(storage::pending(*txn)) == (Shape {
                labels: copied(s.labels, nicknames@.take(i as int)),
                ..s
            }),
        decreases nicknames@.len() - i,
    {
        let key = &nicknames[i].0;
        let text = &nicknames[i].1;
        proof {
            assert(nicknames@.take(i + 1).drop_last() =~= nicknames@.take(i as int));
            schema::lemma_rows_change(storage::pending(*txn), key@, Cell::Text(text@));
        }
        match storage::put_bytes_text(txn, LABELS, key.as_slice(), text.as_str()) {
            Ok(()) => {},
            Err(e) => return Err(Error::Storage(e)),
        }
        i = i + 1;
    }
    let ghost labelled = storage::pending(*txn);
    match storage::delete_bytes_text(txn, NICKNAMES_LEGACY) {
        Ok(()) => {},
        Err(e) => return Err(Error::Storage(e)),
    }
    proof {
        lemma_version(tables);
        assert(schema::shape(labelled.remove(NICKNAMES_LEGACY@)) =~= (Shape {
            others: s.others.remove(NICKNAMES_LEGACY@),
            ..schema::shape(labelled)
        }));
        assert(nicknames@.take(i as int) =~= nicknames@);
        if storage::lists_bytes_text(nicknames@, tables, NICKNAMES_LEGACY@) {
            let old_rows = storage::rows(tables, NICKNAMES_LEGACY@);
            let merged = s.labels.union_prefer_right(old_rows);
            let result = copied(s.labels, nicknames@);
            assert forall|key: Seq<u8>| result.contains_key(key) == merged.contains_key(key) by {
                lemma_copied(s.labels, nicknames@, key);
                if exists|j: int| 0 <= j < nicknames@.len() && (#[trigger] nicknames@[j]).0@ == key {
                    let j = choose|j: int| 0 <= j < nicknames@.len() && (#[trigger] nicknames@[j]).0@ == key;
                    assert(storage::cell(tables, NICKNAMES_LEGACY@, nicknames@[j].0@) is Some);
                }
            }
            assert forall|key: Seq<u8>| result.contains_key(key) implies result[key] == merged[key] by {
                lemma_copied(s.labels, nicknames@, key);
                if old_rows.contains_key(key) {
                    let j = choose|j: int| 0 <= j < nicknames@.len() && (#[trigger] nicknames@[j]).0@ == key;
                    assert(storage::cell(tables, NICKNAMES_LEGACY@, nicknames@[j].0@) == Some(
                        Cell::Text(nicknames@[j].1@),
                    ));
                } else {
                    assert forall|j: int| 0 <= j < nicknames@.len() implies (#[trigger] nicknames@[j]).0@ != key by {
                        assert(storage::cell(tables, NICKNAMES_LEGACY@, nicknames@[j].0@) is Some);
                    }
                }
            }
            assert(result =~= merged);
        }
    }
    set_version(txn, 2)
}

/// A migration reaches the current version, or leaves a later one.
pub proof fn law_migration_reaches_the_current_version(
    before: Map<Seq<char>, Map<Seq<u8>, Cell>>,
    after: Map<Seq<char>, Map<Seq<u8>, Cell>>,
)
    requires
        migrated(before, after),
    ensures
        version_in(after) >= CURRENT_VERSION,
        version_in(before) <= CURRENT_VERSION ==> version_in(after) == CURRENT_VERSION,
{
    lemma_version(after);
    lemma_version(before);
}

/// Migrating again changes nothing.
pub proof fn law_migration_is_idempotent(
    before: Map<Seq<char>, Map<Seq<u8>, Cell>>,
    after: Map<Seq<char>, Map<Seq<u8>, Cell>>,
    again: Map<Seq<char>, Map<Seq<u8>, Cell>>,
)
    requires
        migrated(before, after),
        migrated(after, again),
    ensures
        again == after,
{
    law_migration_reaches_the_current_version(before, after);
}

/// An association that had no permissions before version 1 grants `Read`, and nothing else,
/// after the migration.
pub proof fn law_backfill_grants_read(
    before: Map<Seq<char>, Map<Seq<u8>, Cell>>,
    after: Map<Seq<char>, Map<Seq<u8>, Cell>>,
    id: Seq<u8>,
    i: int,
)
    requires
        migrated(before, after),
        version_in(before) == 0,
        schema::shape(before).resources.contains_key(id),
        0 <= i < schema::shape(before).names(id).len(),
        !schema::shape(before).perms.contains_key(codec::perm_row(id, schema::shape(before).names(id)[i])),
    ensures
        schema::shape(after).names(id) == schema::shape(before).names(id),
        codec::perm_set(schema::shape(after).bits(id, schema::shape(after).names(id)[i])) == set![Permission::Read],
{
    let s = schema::shape(before);
    let next = schema::shape(after);
    let key = codec::perm_row(id, s.names(id)[i]);
    assert(is_association(s, key));
    assert(next.perms == backfilled(s));
    assert(next.bits(id, s.names(id)[i]) == READ_BIT);
    assert(1u8 & 1 == 1 && 1u8 & 2 == 0 && 1u8 & 4 == 0) by (bit_vector);
    assert(codec::perm_set(READ_BIT) =~= set![Permission::Read]);
}

/// A nickname from before version 2 is a label after the migration, under the same key.
pub proof fn law_nicknames_become_labels(
    before: Map<Seq<char>, Map<Seq<u8>, Cell>>,
    after: Map<Seq<char>, Map<Seq<u8>, Cell>>,
    key: Seq<u8>,
    text: Seq<char>,
)
    requires
        migrated(before, after),
        version_in(before) < 2,
        storage::cell(before, NICKNAMES_LEGACY@, key) == Some(Cell::Text(text)),
    ensures
        schema::shape(after).label(key) == Some(text),
        !after.contains_key(NICKNAMES_LEGACY@),
{
    lemma_version(before);
    lemma_version(after);
}

/// Whether every row that is under the key of a membership belongs to a membership.
pub open spec fn belong(rows: Map<Seq<u8>, Cell>, s: Shape) -> bool {
    forall|name: Seq<char>, peer: Seq<u8>|
        peer.len() == 32 && rows.contains_key(#[trigger] codec::member_row(name, peer)) ==> s.has_ring(name)
            && s.peers(name).contains(peer)
}

/// Turning nicknames into labels keeps coherent rows coherent, if every nickname belongs to a
/// membership. Rings keep their peers with their expiries, and resources their grants.
pub proof fn law_labels_keep_the_registry(s: Shape)
    requires
        s.coherent(),
        belong(storage::rows(s.others, NICKNAMES_LEGACY@), s),
    ensures
        with_labels(s).coherent(),
        with_labels(s).state().grants == s.state().grants,
        with_labels(s).state().rings.dom() == s.state().rings.dom(),
        forall|name: Seq<char>| #[trigger] s.has_ring(name) ==> {
            &&& with_labels(s).peers(name) == s.peers(name)
            &&& forall|peer: Seq<u8>|
                (#[trigger] with_labels(s).member(name, peer)).expires_at == s.member(name, peer).expires_at
        },
{
    let next = with_labels(s);
    let nicknames = storage::rows(s.others, NICKNAMES_LEGACY@);
    assert forall|id: Seq<u8>| #[trigger] next.grants(id) == s.grants(id) by {
        assert(next.grants(id) =~= s.grants(id));
    }
    assert(next.state().grants =~= s.state().grants);
    assert(next.state().rings.dom() =~= s.state().rings.dom());
    assert(next.state().wf()) by {
        assert forall|name: Seq<char>| #[trigger] next.state().rings.contains_key(name) implies ring::valid_name(name)
            && model::distinct(next.state().rings[name]) by {
            assert(s.has_ring(name));
            assert(s.state().rings.contains_key(name));
            let before = s.members(name);
            let after = next.members(name);
            assert(s.state().rings[name] == before);
            assert(next.state().rings[name] == after);
            assert forall|i: int, j: int| 0 <= i < j < after.len() implies (#[trigger] after[i]).peer != (
            #[trigger] after[j]).peer by {
                assert(before[i].peer != before[j].peer);
            }
        }
        assert(s.state().rings.contains_key(OPEN_RING_NAME@));
        assert(next.has_ring(OPEN_RING_NAME@));
    }
    assert(next.tidy()) by {
        assert forall|r: Seq<char>, p: Seq<u8>|
            p.len() == 32 && (next.labels.contains_key(#[trigger] codec::member_row(r, p))
                || next.expiries.contains_key(codec::member_row(r, p))) implies next.has_ring(r)
            && next.peers(r).contains(p) by {
            let key = codec::member_row(r, p);
            assert(s.labels.contains_key(key) || nicknames.contains_key(key) || s.expiries.contains_key(key));
            assert(s.has_ring(r) && s.peers(r).contains(p));
        }
    }
}

/// Whether rows from before there were permissions fit together: the open ring exists, ring names
/// are valid, nobody is a member of a ring twice, every resource has rings, which exist and of
/// which none occurs twice, every label and expiry belongs to a membership, and there are no
/// permissions.
pub open spec fn coherent_without_permissions(s: Shape) -> bool {
    &&& s.has_ring(OPEN_RING_NAME@)
    &&& forall|name: Seq<char>| #[trigger]
        s.has_ring(name) ==> ring::valid_name(name) && model::distinct(s.members(name))
    &&& forall|id: Seq<u8>| #[trigger]
        s.resources.contains_key(id) ==> s.names(id).len() > 0 && s.names(id).no_duplicates()
    &&& forall|id: Seq<u8>, i: int|
        s.resources.contains_key(id) && 0 <= i < s.names(id).len() ==> s.has_ring(#[trigger] s.names(id)[i])
    &&& s.tidy()
    &&& s.perms == Map::<Seq<u8>, Cell>::empty()
}

/// Backfilling permissions makes rows from before there were any coherent: every ring of a
/// resource grants `Read`, and nothing else. Memberships stay as they are.
pub proof fn law_permissions_make_a_registry(s: Shape)
    requires
        coherent_without_permissions(s),
    ensures
        with_permissions(s).coherent(),
        with_permissions(s).state().rings == s.state().rings,
        with_permissions(s).state().grants.dom() == s.resources.dom(),
        forall|id: Seq<u8>| #[trigger] s.resources.contains_key(id) ==> with_permissions(s).grants(id) == s.names(
            id,
        ).map_values(|name: Seq<char>| GrantState { ring: name, permissions: set![Permission::Read] }),
{
    let next = with_permissions(s);
    let read = |name: Seq<char>| GrantState { ring: name, permissions: set![Permission::Read] };
    assert(1u8 & 1 == 1 && 1u8 & 2 == 0 && 1u8 & 4 == 0) by (bit_vector);
    assert(codec::perm_set(READ_BIT) =~= set![Permission::Read]);
    assert forall|id: Seq<u8>| #[trigger] s.resources.contains_key(id) implies next.grants(id) == s.names(
        id,
    ).map_values(read) by {
        assert forall|i: int| 0 <= i < s.names(id).len() implies next.grants(id)[i] == s.names(id).map_values(
            read,
        )[i] by {
            let key = codec::perm_row(id, s.names(id)[i]);
            assert(is_association(s, key));
            assert(next.perms.contains_key(key));
            assert(next.bits(id, s.names(id)[i]) == READ_BIT);
        }
        assert(next.names(id) == s.names(id));
        assert(next.grants(id) =~= s.names(id).map_values(read));
    }
    assert forall|name: Seq<char>| #[trigger] next.members(name) == s.members(name) by {
        assert(next.members(name) =~= s.members(name));
    }
    assert(next.state().rings =~= s.state().rings);
    assert(next.state().grants.dom() =~= s.resources.dom());
    assert(next.state().wf()) by {
        let rings = next.state().rings.dom();
        assert forall|name: Seq<char>| #[trigger] next.state().rings.contains_key(name) implies ring::valid_name(name)
            && model::distinct(next.state().rings[name]) by {
            assert(s.has_ring(name));
        }
        assert forall|id: Seq<u8>| #[trigger] next.state().grants.contains_key(id) implies model::grants_wf(
            next.state().grants[id],
            rings,
        ) by {
            assert(s.resources.contains_key(id));
            let grants = next.grants(id);
            assert(next.state().grants[id] == grants);
            assert forall|i: int, j: int| 0 <= i < j < grants.len() implies (#[trigger] grants[i]).ring != (
            #[trigger] grants[j]).ring by {
                assert(s.names(id)[i] != s.names(id)[j]);
            }
            assert forall|i: int| 0 <= i < grants.len() implies model::grant_wf(#[trigger] grants[i], rings) by {
                assert(s.has_ring(s.names(id)[i]));
                assert(next.has_ring(grants[i].ring));
                assert(grants[i].permissions.contains(Permission::Read));
            }
        }
        assert(next.has_ring(OPEN_RING_NAME@));
    }
    assert(next.tidy()) by {
        assert forall|r: Seq<char>, p: Seq<u8>|
            p.len() == 32 && (next.labels.contains_key(#[trigger] codec::member_row(r, p))
                || next.expiries.contains_key(codec::member_row(r, p))) implies next.has_ring(r)
            && next.peers(r).contains(p) by {
            assert(s.has_ring(r) && s.peers(r).contains(p));
        }
    }
}

/// When an older database becomes a coherent registry: at version 1 if its rows are coherent, at
/// version 0 if they are but for the permissions that there were not yet, and in both if every
/// nickname belongs to a membership.
pub proof fn law_older_database_becomes_a_registry(
    before: Map<Seq<char>, Map<Seq<u8>, Cell>>,
    after: Map<Seq<char>, Map<Seq<u8>, Cell>>,
)
    requires
        migrated(before, after),
        version_in(before) < CURRENT_VERSION,
        if version_in(before) == 0 {
            coherent_without_permissions(schema::shape(before))
        } else {
            schema::shape(before).coherent()
        },
        belong(storage::rows(before, NICKNAMES_LEGACY@), schema::shape(before)),
    ensures
        schema::shape(after).coherent(),
        schema::shape(after).state().grants == if version_in(before) == 0 {
            with_permissions(schema::shape(before)).state().grants
        } else {
            schema::shape(before).state().grants
        },
        forall|name: Seq<char>| #[trigger] schema::shape(before).has_ring(name) ==> {
            &&& schema::shape(after).has_ring(name)
            &&& schema::shape(after).peers(name) == schema::shape(before).peers(name)
        },
{
    let s = schema::shape(before);
    lemma_version(before);
    if version_in(before) == 0 {
        let mid = with_permissions(s);
        law_permissions_make_a_registry(s);
        lemma_version(mid.others);
        assert(storage::rows(mid.others, NICKNAMES_LEGACY@) == storage::rows(s.others, NICKNAMES_LEGACY@));
        assert(belong(storage::rows(mid.others, NICKNAMES_LEGACY@), mid)) by {
            assert forall|name: Seq<char>, peer: Seq<u8>|
                peer.len() == 32 && storage::rows(mid.others, NICKNAMES_LEGACY@).contains_key(
                    #[trigger] codec::member_row(name, peer),
                ) implies mid.has_ring(name) && mid.peers(name).contains(peer) by {
                assert(s.has_ring(name) && s.peers(name).contains(peer));
            }
        }
        law_labels_keep_the_registry(mid);
    } else {
        law_labels_keep_the_registry(s);
    }
}

/// What a migration does, row by row. Rings, their members, expiries and the rings of resources stay.
/// Permissions stay too, and where a database without a version has none for an association, `Read`
/// is put there. Nicknames become labels, in place of any label in the same row, and their table is
/// gone. Tables of others are left alone. A current database is left as it is.
pub proof fn law_migration_row_by_row(
    before: Map<Seq<char>, Map<Seq<u8>, Cell>>,
    after: Map<Seq<char>, Map<Seq<u8>, Cell>>,
    key: Seq<u8>,
    other: Seq<char>,
)
    requires
        migrated(before, after),
    ensures
        version_in(before) == match storage::cell(before, "meta"@, vstd::utf8::encode_utf8("schema_version"@)) {
            Some(Cell::Number(version)) => version,
            _ => 0,
        },
        version_in(before) >= 2 ==> after == before,
        version_in(before) < 2 ==> {
            &&& storage::cell(after, "rings"@, key) == storage::cell(before, "rings"@, key)
            &&& storage::cell(after, "expiries"@, key) == storage::cell(before, "expiries"@, key)
            &&& storage::cell(after, "resource_rings"@, key) == storage::cell(before, "resource_rings"@, key)
            &&& storage::cell(after, "labels"@, key) == if storage::cell(before, "nicknames"@, key) is Some {
                storage::cell(before, "nicknames"@, key)
            } else {
                storage::cell(before, "labels"@, key)
            }
            &&& storage::cell(before, "resource_ring_perms"@, key) is Some || version_in(before) == 1
                ==> storage::cell(after, "resource_ring_perms"@, key) == storage::cell(
                before,
                "resource_ring_perms"@,
                key,
            )
            &&& storage::cell(before, "resource_ring_perms"@, key) is None && version_in(before) == 0
                ==> storage::cell(after, "resource_ring_perms"@, key) == if exists|id: Seq<u8>, i: int| {
                &&& storage::cell(before, "resource_rings"@, id) is Some
                &&& 0 <= i < schema::shape(before).names(id).len()
                &&& key == #[trigger] codec::perm_row(id, schema::shape(before).names(id)[i])
            } {
                Some(Cell::Byte(1))
            } else {
                None
            }
            &&& !after.contains_key("nicknames"@)
            &&& storage::cell(after, "meta"@, vstd::utf8::encode_utf8("schema_version"@)) == Some(Cell::Number(2))
            &&& key != vstd::utf8::encode_utf8("schema_version"@) ==> storage::cell(after, "meta"@, key)
                == storage::cell(before, "meta"@, key)
            &&& other != "rings"@ && other != "expiries"@ && other != "resource_rings"@ && other != "labels"@ && other
                != "resource_ring_perms"@ && other != "meta"@ && other != "nicknames"@ ==> storage::cell(after, other, key)
                == storage::cell(before, other, key)
        },
{
    schema::lemma_table_names();
    lemma_version(before);
    if version_in(before) < 2 {
        let s = schema::shape(before);
        let t = schema::shape(after);
        assert forall|table: Seq<char>, row: Seq<u8>| !schema::registry_tables().contains(table) implies #[trigger]
            storage::cell(after, table, row) == storage::cell(t.others, table, row) by {}
        assert forall|table: Seq<char>, row: Seq<u8>| !schema::registry_tables().contains(table) implies #[trigger]
            storage::cell(before, table, row) == storage::cell(s.others, table, row) by {}
        assert(!t.others.contains_key(NICKNAMES_LEGACY@));
        assert(after.contains_key(NICKNAMES_LEGACY@) ==> t.others.contains_key(NICKNAMES_LEGACY@));
        assert(is_association(s, key) <==> exists|id: Seq<u8>, i: int| {
            &&& storage::cell(before, "resource_rings"@, id) is Some
            &&& 0 <= i < schema::shape(before).names(id).len()
            &&& key == #[trigger] codec::perm_row(id, schema::shape(before).names(id)[i])
        });
    }
}

/// A migration that fails loses no ring, no expiry and no association either, and no label.
pub proof fn law_failed_migration(
    before: Map<Seq<char>, Map<Seq<u8>, Cell>>,
    after: Map<Seq<char>, Map<Seq<u8>, Cell>>,
    key: Seq<u8>,
)
    requires
        underway(before, after),
    ensures
        storage::cell(after, "rings"@, key) == storage::cell(before, "rings"@, key),
        storage::cell(after, "expiries"@, key) == storage::cell(before, "expiries"@, key),
        storage::cell(after, "resource_rings"@, key) == storage::cell(before, "resource_rings"@, key),
        storage::cell(before, "resource_ring_perms"@, key) is Some ==> storage::cell(after, "resource_ring_perms"@, key)
            == storage::cell(before, "resource_ring_perms"@, key),
        storage::cell(before, "labels"@, key) is Some ==> storage::cell(after, "labels"@, key) == storage::cell(
            before,
            "labels"@,
            key,
        ) || storage::cell(after, "labels"@, key) == storage::cell(before, "nicknames"@, key),
{
    schema::lemma_table_names();
    if migrated(before, after) {
        law_migration_row_by_row(before, after, key, "rings"@);
    }
}

} // verus!
