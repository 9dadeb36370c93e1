//! The persistent registry: expiries, reopening, migrations and the format of its rows.

use std::path::{Path, PathBuf};

use iroh_rings::backends::redb::codec::{
    byte_to_perms, decode_expiry, decode_peer_ids, decode_ring_names, encode_expiry, encode_peer_ids,
    encode_ring_names, member_key, perm_key, permission_bit, perms_to_byte,
};
use iroh_rings::backends::redb::migrations::{found_version, migrate, read_version, CURRENT_VERSION, READ_BIT};
use iroh_rings::backends::redb::decisions;
use iroh_rings::registry::RingMember;
use iroh_rings::{EndpointId, Error, Permission, RedbRegistry, Registry, Ring, Timestamp};
use redb::{ReadableDatabase, ReadableTable, TableDefinition, TableError};
use tempfile::{tempdir, TempDir};

const RES: [u8; 32] = [0xab; 32];

const RINGS_TABLE: TableDefinition<&str, &[u8]> = TableDefinition::new("rings");
const RESOURCE_RINGS_TABLE: TableDefinition<&[u8], &[u8]> = TableDefinition::new("resource_rings");
const PERMS_TABLE: TableDefinition<&[u8], u8> = TableDefinition::new("resource_ring_perms");
const LABELS_TABLE: TableDefinition<&[u8], &str> = TableDefinition::new("labels");
const EXPIRIES_TABLE: TableDefinition<&[u8], (u64, u32)> = TableDefinition::new("expiries");
const NICKNAMES_TABLE: TableDefinition<&[u8], &str> = TableDefinition::new("nicknames");
const META_TABLE: TableDefinition<&str, u32> = TableDefinition::new("meta");

fn make_peer() -> EndpointId {
    EndpointId::from_bytes(iroh::SecretKey::generate().public().as_bytes()).unwrap()
}

fn open(path: &Path) -> RedbRegistry {
    RedbRegistry::open(path.to_str().unwrap()).unwrap()
}

/// Registry with ring `r` granting `Read` on `RES`. The `TempDir` keeps the
/// database file alive; the path allows reopening it.
fn registry_with_ring() -> (RedbRegistry, TempDir, PathBuf) {
    let dir = tempdir().unwrap();
    let path = dir.path().join("test.redb");
    let mut reg = open(&path);
    reg.create_ring("r").unwrap();
    reg.add_ring_to_resource(RES, "r", &[Permission::Read]).unwrap();
    (reg, dir, path)
}

fn in_one_hour() -> Timestamp {
    let now = Timestamp::now();
    Timestamp::new(now.secs() + 3600, now.subsec_nanos()).unwrap()
}

#[test]
fn expired_member_is_denied_and_not_listed() {
    let (mut reg, _dir, _) = registry_with_ring();
    let peer = make_peer();
    reg.add_peer_to_ring("r", peer, Some("alice"), Some(Timestamp::epoch())).unwrap();

    assert!(!reg.has_permission(&peer, &RES, Permission::Read).unwrap());
    assert!(reg.list_ring_peers("r").unwrap().is_empty());
}

#[test]
fn member_with_future_expiry_is_active() {
    let (mut reg, _dir, _) = registry_with_ring();
    let peer = make_peer();
    let expires_at = in_one_hour();
    reg.add_peer_to_ring("r", peer, Some("alice"), Some(expires_at)).unwrap();

    assert!(reg.has_permission(&peer, &RES, Permission::Read).unwrap());
    assert_eq!(
        reg.list_ring_peers("r").unwrap(),
        vec![RingMember::new(peer, Some("alice".to_string()), Some(expires_at))]
    );
}

#[test]
fn expiry_survives_reopen() {
    let (mut reg, _dir, path) = registry_with_ring();
    let live = make_peer();
    let expired = make_peer();
    let expires_at = in_one_hour();
    reg.add_peer_to_ring("r", live, None, Some(expires_at)).unwrap();
    reg.add_peer_to_ring("r", expired, None, Some(Timestamp::epoch())).unwrap();
    drop(reg);

    let reg = open(&path);
    assert!(reg.has_permission(&live, &RES, Permission::Read).unwrap());
    assert!(!reg.has_permission(&expired, &RES, Permission::Read).unwrap());
    assert_eq!(
        reg.list_ring_peers("r").unwrap(),
        vec![RingMember::new(live, None, Some(expires_at))]
    );
}

#[test]
fn readding_live_member_without_expiry_keeps_existing_expiry() {
    let (mut reg, _dir, _) = registry_with_ring();
    let peer = make_peer();
    let expires_at = in_one_hour();
    reg.add_peer_to_ring("r", peer, None, Some(expires_at)).unwrap();
    reg.add_peer_to_ring("r", peer, None, None).unwrap();

    assert_eq!(reg.list_ring_peers("r").unwrap()[0].expires_at, Some(expires_at));
}

#[test]
fn readding_expired_member_starts_a_fresh_membership() {
    let (mut reg, _dir, _) = registry_with_ring();
    let peer = make_peer();
    reg.add_peer_to_ring("r", peer, Some("old"), Some(Timestamp::epoch())).unwrap();
    assert!(!reg.has_permission(&peer, &RES, Permission::Read).unwrap());

    reg.add_peer_to_ring("r", peer, None, None).unwrap();
    assert!(reg.has_permission(&peer, &RES, Permission::Read).unwrap());
    assert_eq!(reg.list_ring_peers("r").unwrap(), vec![RingMember::new(peer, None, None)]);
}

#[test]
fn remove_clears_expiry() {
    let (mut reg, _dir, _) = registry_with_ring();
    let peer = make_peer();
    reg.add_peer_to_ring("r", peer, None, Some(in_one_hour())).unwrap();
    reg.remove_peer_from_ring("r", peer).unwrap();
    reg.add_peer_to_ring("r", peer, None, None).unwrap();

    assert_eq!(reg.list_ring_peers("r").unwrap()[0].expires_at, None);
}

#[test]
fn expiry_is_scoped_to_the_ring() {
    let (mut reg, _dir, _) = registry_with_ring();
    reg.create_ring("other").unwrap();
    reg.add_ring_to_resource(RES, "other", &[Permission::Write]).unwrap();
    let peer = make_peer();
    reg.add_peer_to_ring("r", peer, None, Some(Timestamp::epoch())).unwrap();
    reg.add_peer_to_ring("other", peer, None, None).unwrap();

    assert!(!reg.has_permission(&peer, &RES, Permission::Read).unwrap());
    assert!(reg.has_permission(&peer, &RES, Permission::Write).unwrap());
}

#[test]
fn pre_epoch_expiry_is_treated_as_expired() {
    let (mut reg, _dir, _) = registry_with_ring();
    let peer = make_peer();
    let before_epoch = Timestamp::new(-1, 0).unwrap();
    reg.add_peer_to_ring("r", peer, None, Some(before_epoch)).unwrap();

    assert!(!reg.has_permission(&peer, &RES, Permission::Read).unwrap());
}

fn open_bare(path: &Path) -> redb::Database {
    redb::Database::create(path).unwrap()
}

/// Simulate an old-schema database: create the first tables without permissions or version.
fn bootstrap_old_schema(db: &redb::Database) {
    let write = db.begin_write().unwrap();
    write.open_table(RINGS_TABLE).unwrap();
    write.open_table(RESOURCE_RINGS_TABLE).unwrap();
    write.open_table(NICKNAMES_TABLE).unwrap();
    write.commit().unwrap();
}

/// Insert a ring–resource association directly into the old-schema tables.
fn insert_old_association(db: &redb::Database, resource_id: &[u8], ring_name: &str) {
    let write = db.begin_write().unwrap();
    {
        let mut rings = write.open_table(RINGS_TABLE).unwrap();
        if rings.get(ring_name).unwrap().is_none() {
            rings.insert(ring_name, &[][..]).unwrap();
        }
        drop(rings);
        let mut rr = write.open_table(RESOURCE_RINGS_TABLE).unwrap();
        rr.insert(resource_id, ring_name.as_bytes()).unwrap();
    }
    write.commit().unwrap();
}

#[test]
fn new_database_migrates_to_current_version() {
    let dir = tempdir().unwrap();
    let mut db = open_bare(&dir.path().join("test.redb"));
    migrate(&mut db).unwrap();
    assert_eq!(read_version(&db).unwrap(), CURRENT_VERSION);
}

#[test]
fn migration_is_idempotent() {
    let dir = tempdir().unwrap();
    let mut db = open_bare(&dir.path().join("test.redb"));
    migrate(&mut db).unwrap();
    migrate(&mut db).unwrap();
    assert_eq!(read_version(&db).unwrap(), CURRENT_VERSION);
}

#[test]
fn v0_data_gets_read_permission_backfilled() {
    let dir = tempdir().unwrap();
    let path = dir.path().join("test.redb");
    let resource_id = [0xabu8; 32];

    {
        let db = open_bare(&path);
        bootstrap_old_schema(&db);
        insert_old_association(&db, &resource_id, "friends");
    }

    let mut db = open_bare(&path);
    migrate(&mut db).unwrap();

    let read = db.begin_read().unwrap();
    let perm_table = read.open_table(PERMS_TABLE).unwrap();
    let key = perm_key(&resource_id, "friends");
    let bits = perm_table
        .get(key.as_slice())
        .unwrap()
        .expect("perm row must exist after migration")
        .value();
    assert_eq!(bits & READ_BIT, READ_BIT, "Read bit must be set");
}

#[test]
fn already_current_database_is_not_modified() {
    let dir = tempdir().unwrap();
    let mut db = open_bare(&dir.path().join("test.redb"));
    migrate(&mut db).unwrap();
    let version_before = read_version(&db).unwrap();
    migrate(&mut db).unwrap();
    assert_eq!(read_version(&db).unwrap(), version_before);
}

#[test]
fn v1_nicknames_get_migrated_to_labels() {
    let dir = tempdir().unwrap();
    let path = dir.path().join("test.redb");

    let peer_id = make_peer();
    let ring_name = "friends";
    let label = "alice";

    // Build a version 1 database: old schema + version set to 1 + a nickname row.
    {
        let db = open_bare(&path);
        bootstrap_old_schema(&db);
        insert_old_association(&db, &[0xabu8; 32], ring_name);

        let write = db.begin_write().unwrap();
        {
            let mut meta = write.open_table(META_TABLE).unwrap();
            meta.insert("schema_version", 1u32).unwrap();

            let mut nick_table = write.open_table(NICKNAMES_TABLE).unwrap();
            let mut key = ring_name.as_bytes().to_vec();
            key.push(b'\0');
            key.extend_from_slice(peer_id.as_bytes());
            nick_table.insert(key.as_slice(), label).unwrap();
        }
        write.commit().unwrap();
    }

    // Run migration and verify the label is now in the labels table.
    {
        let mut db = open_bare(&path);
        migrate(&mut db).unwrap();
        assert_eq!(read_version(&db).unwrap(), CURRENT_VERSION);

        // Old table must be gone.
        let read = db.begin_read().unwrap();
        assert!(matches!(
            read.open_table(NICKNAMES_TABLE),
            Err(TableError::TableDoesNotExist(_))
        ));

        // New table must contain the migrated row.
        let label_table = read.open_table(LABELS_TABLE).unwrap();
        let mut key = ring_name.as_bytes().to_vec();
        key.push(b'\0');
        key.extend_from_slice(peer_id.as_bytes());
        let stored = label_table
            .get(key.as_slice())
            .unwrap()
            .expect("label row must exist after migration")
            .value()
            .to_owned();
        assert_eq!(stored, label);
    }
}

#[test]
fn an_old_database_opens_as_a_registry() {
    let dir = tempdir().unwrap();
    let path = dir.path().join("test.redb");
    let peer = make_peer();
    {
        let db = open_bare(&path);
        bootstrap_old_schema(&db);
        let write = db.begin_write().unwrap();
        {
            let mut rings = write.open_table(RINGS_TABLE).unwrap();
            rings.insert("friends", &peer.as_bytes()[..]).unwrap();
            rings.insert("work", &[][..]).unwrap();
            let mut rr = write.open_table(RESOURCE_RINGS_TABLE).unwrap();
            rr.insert(&RES[..], &b"friends\0work"[..]).unwrap();
            let mut nicknames = write.open_table(NICKNAMES_TABLE).unwrap();
            nicknames.insert(member_key("friends", peer.as_bytes()).as_slice(), "al").unwrap();
        }
        write.commit().unwrap();
    }
    let reg = open(&path);
    assert!(reg.has_permission(&peer, &RES, Permission::Read).unwrap());
    assert!(!reg.has_permission(&peer, &RES, Permission::Write).unwrap());
    assert_eq!(
        reg.list_ring_peers("friends").unwrap(),
        vec![RingMember::new(peer, Some("al".to_string()), None)]
    );
    let listing = reg.list_resource_rings(RES).unwrap();
    assert_eq!(listing.len(), 2);
    assert!(listing.iter().all(|(_, permissions)| *permissions == vec![Permission::Read]));
    assert_eq!(reg.list_rings().unwrap().len(), 3);
}

#[test]
fn existing_permissions_are_not_overwritten_by_the_backfill() {
    let dir = tempdir().unwrap();
    let path = dir.path().join("test.redb");
    let mut db = open_bare(&path);
    insert_old_association(&db, &RES, "friends");
    let write = db.begin_write().unwrap();
    {
        let mut perms = write.open_table(PERMS_TABLE).unwrap();
        perms.insert(perm_key(&RES, "friends").as_slice(), 0b110).unwrap();
    }
    write.commit().unwrap();
    migrate(&mut db).unwrap();
    let read = db.begin_read().unwrap();
    let perms = read.open_table(PERMS_TABLE).unwrap();
    let row = perms.get(perm_key(&RES, "friends").as_slice()).unwrap().unwrap();
    assert_eq!(row.value(), 0b110);
}

#[test]
fn a_newer_database_is_left_alone() {
    let dir = tempdir().unwrap();
    let mut db = open_bare(&dir.path().join("test.redb"));
    let write = db.begin_write().unwrap();
    {
        let mut meta = write.open_table(META_TABLE).unwrap();
        meta.insert("schema_version", 7u32).unwrap();
    }
    write.commit().unwrap();
    migrate(&mut db).unwrap();
    assert_eq!(read_version(&db).unwrap(), 7);
}

#[test]
fn a_registry_writes_the_documented_rows() {
    let dir = tempdir().unwrap();
    let path = dir.path().join("test.redb");
    let peer = make_peer();
    {
        let mut reg = open(&path);
        reg.create_ring("r").unwrap();
        reg.add_peer_to_ring("r", peer, Some("al"), Some(Timestamp::new(5, 7).unwrap())).unwrap();
        reg.add_ring_to_resource(vec![9u8], "r", &[Permission::Write, Permission::Delete]).unwrap();
        reg.add_ring_to_resource(vec![9u8], "open", &[Permission::Read]).unwrap();
    }
    let db = open_bare(&path);
    let read = db.begin_read().unwrap();
    let rings = read.open_table(RINGS_TABLE).unwrap();
    assert_eq!(rings.get("r").unwrap().unwrap().value(), &peer.as_bytes()[..]);
    assert_eq!(rings.get("open").unwrap().unwrap().value(), &[] as &[u8]);
    let resources = read.open_table(RESOURCE_RINGS_TABLE).unwrap();
    assert_eq!(resources.get(&[9u8][..]).unwrap().unwrap().value(), b"r\0open");
    let mut key = b"r\0".to_vec();
    key.extend_from_slice(peer.as_bytes());
    let labels = read.open_table(LABELS_TABLE).unwrap();
    assert_eq!(labels.get(key.as_slice()).unwrap().unwrap().value(), "al");
    let expiries = read.open_table(EXPIRIES_TABLE).unwrap();
    assert_eq!(expiries.get(key.as_slice()).unwrap().unwrap().value(), (5, 7));
    let perms = read.open_table(PERMS_TABLE).unwrap();
    assert_eq!(perms.get(&[1u8, 0, 9, b'r'][..]).unwrap().unwrap().value(), 0b110);
    assert_eq!(perms.get(&b"\x01\0\x09open"[..]).unwrap().unwrap().value(), 0b001);
}

#[test]
fn clearing_and_evicting_take_the_rows_out() {
    let dir = tempdir().unwrap();
    let path = dir.path().join("test.redb");
    let (gone, stays) = (make_peer(), make_peer());
    {
        let mut reg = open(&path);
        reg.create_ring("r").unwrap();
        reg.add_ring_to_resource(RES, "r", &[Permission::Read]).unwrap();
        reg.remove_ring_from_resource(RES).unwrap();
        reg.add_peer_to_ring("r", gone, Some("g"), Some(Timestamp::epoch())).unwrap();
        reg.add_peer_to_ring("r", stays, Some("s"), None).unwrap();
        assert_eq!(reg.evict_expired(Timestamp::now()).unwrap().len(), 1);
    }
    let db = open_bare(&path);
    let read = db.begin_read().unwrap();
    assert_eq!(read.open_table(RESOURCE_RINGS_TABLE).unwrap().iter().unwrap().count(), 0);
    assert_eq!(read.open_table(PERMS_TABLE).unwrap().iter().unwrap().count(), 0);
    assert_eq!(read.open_table(EXPIRIES_TABLE).unwrap().iter().unwrap().count(), 0);
    assert_eq!(read.open_table(LABELS_TABLE).unwrap().iter().unwrap().count(), 1);
    let rings = read.open_table(RINGS_TABLE).unwrap();
    assert_eq!(rings.get("r").unwrap().unwrap().value(), &stays.as_bytes()[..]);
}

#[test]
fn a_refused_operation_leaves_the_database_as_it_was() {
    let (mut reg, _dir, path) = registry_with_ring();
    assert!(reg.create_ring("r").is_err());
    assert!(reg.add_peer_to_ring("ghost", make_peer(), None, None).is_err());
    assert!(reg.add_ring_to_resource(vec![1u8], "ghost", &[Permission::Read]).is_err());
    // The registry can still be written to.
    reg.create_ring("s").unwrap();
    drop(reg);
    let reg = open(&path);
    assert_eq!(reg.list_rings().unwrap().len(), 3);
    assert!(reg.list_resource_rings(vec![1u8]).unwrap().is_empty());
}

#[test]
fn a_file_that_is_no_database_is_a_storage_error() {
    let dir = tempdir().unwrap();
    // A directory cannot be opened as a database file.
    let result = RedbRegistry::open(dir.path().to_str().unwrap());
    assert!(matches!(result, Err(Error::Storage(_))));
}

/// Bytes that do not encode a public key; about every second y coordinate has no point.
fn no_key() -> [u8; 32] {
    (0..=255u8)
        .map(|first| {
            let mut bytes = [0u8; 32];
            bytes[0] = first;
            bytes
        })
        .find(|bytes| iroh::EndpointId::from_bytes(bytes).is_err())
        .unwrap()
}

#[test]
fn corrupt_rows_are_storage_errors() {
    let dir = tempdir().unwrap();
    let path = dir.path().join("test.redb");
    {
        let mut reg = open(&path);
        reg.create_ring("r").unwrap();
    }
    {
        let db = open_bare(&path);
        let write = db.begin_write().unwrap();
        {
            let mut rings = write.open_table(RINGS_TABLE).unwrap();
            rings.insert("r", &no_key()[..]).unwrap();
            rings.insert("not a name", &[][..]).unwrap();
        }
        write.commit().unwrap();
    }
    let reg = open(&path);
    assert!(matches!(reg.list_ring_peers("r"), Err(Error::Storage(_))));
    assert!(matches!(reg.list_rings(), Err(Error::Storage(_))));
}

#[test]
fn peer_ids_round_trip() {
    let ids = vec![[1u8; 32], [2u8; 32]];
    let raw = encode_peer_ids(&ids);
    assert_eq!(raw.len(), 64);
    assert_eq!(decode_peer_ids(&raw), ids);
    assert_eq!(decode_peer_ids(&raw[..40]), vec![[1u8; 32]]);
    assert_eq!(encode_peer_ids(&vec![]), Vec::<u8>::new());
}

#[test]
fn ring_names_round_trip() {
    let names = vec!["friends".to_string(), "caf\u{e9}".to_string(), "x".to_string()];
    let raw = encode_ring_names(&names);
    assert_eq!(raw, "friends\0caf\u{e9}\0x".as_bytes());
    assert_eq!(decode_ring_names(&raw), names);
    assert_eq!(decode_ring_names(&[]), Vec::<String>::new());
    assert_eq!(decode_ring_names(b"a\0"), vec!["a".to_string(), String::new()]);
    assert_eq!(decode_ring_names(b"a\xff"), vec!["a\u{fffd}".to_string()]);
}

#[test]
fn permission_bits_round_trip() {
    let all = [Permission::Read, Permission::Write, Permission::Delete];
    assert_eq!(all.map(permission_bit), [0b001, 0b010, 0b100]);
    assert_eq!(perms_to_byte(&all), 0b111);
    assert_eq!(perms_to_byte(&[Permission::Delete, Permission::Read, Permission::Delete]), 0b101);
    assert_eq!(perms_to_byte(&[]), 0);
    assert_eq!(byte_to_perms(0b101), vec![Permission::Read, Permission::Delete]);
    assert_eq!(byte_to_perms(0b1111_1111), all.to_vec());
    assert_eq!(byte_to_perms(0), vec![]);
}

#[test]
fn keys_tell_memberships_and_associations_apart() {
    assert_eq!(member_key("r", &[7; 32])[..3], [b'r', 0, 7]);
    assert_eq!(perm_key(b"ab", "r"), vec![2, 0, b'a', b'b', b'r']);
    assert_ne!(perm_key(b"a", "br"), perm_key(b"ab", "r"));
}

#[test]
fn keys_of_long_resource_ids_are_unambiguous() {
    let longest_short = vec![b'a'; 0xffff];
    assert_eq!(perm_key(&longest_short, "x")[..3], [0xff, 0xff, b'a']);

    let long = vec![b'a'; 0x1_0000];
    let name = "a".repeat(0x1_0000) + "x";
    assert_ne!(perm_key(&long, "x"), perm_key(&[], &name));
    let key = perm_key(&long, "x");
    assert_eq!(key[..4], [0, 0, 0xff, b'a']);
    assert_eq!(key[key.len() - 3..], [b'a', 0xff, b'x']);

    // An id may hold any bytes, those that frame it too.
    let mut framed = long.clone();
    framed.extend([0xff, b'x']);
    assert_ne!(perm_key(&framed, "x"), perm_key(&long, "x"));
    assert_ne!(perm_key(&framed, ""), perm_key(&long, "x"));
}

#[test]
fn long_resource_ids_are_told_apart() {
    let (mut reg, _dir, _) = registry_with_ring();
    let peer = make_peer();
    reg.add_peer_to_ring("r", peer, None, None).unwrap();
    let long = vec![b'a'; 0x1_0000];
    let longer = vec![b'a'; 0x1_0001];

    reg.add_ring_to_resource(long.clone(), "r", &[Permission::Read]).unwrap();
    assert!(reg.has_permission(&peer, &long, Permission::Read).unwrap());
    assert!(!reg.has_permission(&peer, &longer, Permission::Read).unwrap());
    assert!(!reg.has_permission(&peer, &Vec::new(), Permission::Read).unwrap());
    assert_eq!(
        reg.list_resource_rings(long.clone()).unwrap(),
        vec![(Ring::new("r").unwrap(), vec![Permission::Read])]
    );
    assert!(matches!(reg.add_ring_to_resource(long.clone(), "r", &[]), Err(Error::EmptyPermissionSet)));

    reg.remove_ring_from_resource(long.clone()).unwrap();
    assert!(!reg.has_permission(&peer, &long, Permission::Read).unwrap());
}

#[test]
fn rows_decide_what_is_returned() {
    let row = vec![7u8; 64];
    assert!(decisions::absent_ring(&None, "r").is_ok());
    assert_eq!(decisions::absent_ring(&Some(row.clone()), "r"), Err(Error::RingAlreadyExists("r".to_string())));
    assert!(decisions::existing_ring(&Some(row.clone()), "r").is_ok());
    assert_eq!(decisions::existing_ring(&None, "r"), Err(Error::RingNotFound("r".to_string())));
    assert_eq!(decisions::found_ring(Some(row.clone()), "r"), Ok(vec![[7; 32], [7; 32]]));
    assert_eq!(decisions::found_ring(None, "r"), Err(Error::RingNotFound("r".to_string())));
    assert!(decisions::holds_peer(&Some(row.clone()), &[7; 32]));
    assert!(!decisions::holds_peer(&Some(row), &[8; 32]));
    assert!(!decisions::holds_peer(&None, &[7; 32]));
    assert_eq!(decisions::found_names(Some(b"a\0b".to_vec())), vec!["a".to_string(), "b".to_string()]);
    assert!(decisions::found_names(None).is_empty());
    assert!(decisions::grants(Some(0b101), Permission::Delete));
    assert!(!decisions::grants(Some(0b101), Permission::Write));
    assert!(!decisions::grants(None, Permission::Read));
    assert_eq!(
        decisions::listed_association("r", Some(0b110)),
        Ok((Ring::new("r").unwrap(), vec![Permission::Write, Permission::Delete]))
    );
    assert!(matches!(decisions::listed_association("a b", Some(1)), Err(Error::Storage(_))));
    assert_eq!(found_version(None), 0);
    assert_eq!(found_version(Some(2)), 2);
}

#[test]
fn expiry_rows_decide_who_is_current() {
    let now = Timestamp::new(10, 0).unwrap();
    assert_eq!(decisions::has_passed(Some((10, 0)), &now), Ok(true));
    assert_eq!(decisions::has_passed(Some((10, 1)), &now), Ok(false));
    assert_eq!(decisions::has_passed(None, &now), Ok(false));
    assert!(matches!(decisions::has_passed(Some((u64::MAX, 0)), &now), Err(Error::Storage(_))));

    let peer = make_peer();
    let end = Timestamp::new(11, 5).unwrap();
    assert_eq!(decisions::current_member(peer.as_bytes(), None, &now), Ok(Some((peer, None))));
    assert_eq!(decisions::current_member(peer.as_bytes(), Some((11, 5)), &now), Ok(Some((peer, Some(end)))));
    assert_eq!(decisions::current_member(peer.as_bytes(), Some((9, 0)), &now), Ok(None));
}

#[test]
fn ring_rows_are_listed_after_the_open_ring() {
    let rows = vec![("a".to_string(), Vec::new()), ("open".to_string(), Vec::new()), ("z".to_string(), Vec::new())];
    let names: Vec<String> = decisions::listed_rings(&rows).unwrap().iter().map(|r| r.to_string()).collect();
    assert_eq!(names, ["open", "a", "z"]);
    assert!(matches!(decisions::listed_rings(&vec![("a b".to_string(), Vec::new())]), Err(Error::Storage(_))));
}

#[test]
fn a_migration_leaves_other_tables_alone() {
    let dir = tempdir().unwrap();
    let path = dir.path().join("foreign.redb");
    let foreign: TableDefinition<&str, u32> = TableDefinition::new("foreign");
    let meta: TableDefinition<&str, u32> = TableDefinition::new("meta");
    {
        let db = redb::Database::create(&path).unwrap();
        let write = db.begin_write().unwrap();
        write.open_table(foreign).unwrap().insert("k", 7).unwrap();
        write.open_table(meta).unwrap().insert("other", 9).unwrap();
        write.commit().unwrap();
    }
    drop(RedbRegistry::open(path.to_str().unwrap()).unwrap());
    let db = redb::Database::create(&path).unwrap();
    let read = db.begin_read().unwrap();
    assert_eq!(read.open_table(foreign).unwrap().get("k").unwrap().unwrap().value(), 7);
    assert_eq!(read.open_table(meta).unwrap().get("other").unwrap().unwrap().value(), 9);
    assert_eq!(read.open_table(meta).unwrap().get("schema_version").unwrap().unwrap().value(), 2);
}

#[test]
fn expiries_round_trip() {
    let t = Timestamp::new(1_700_000_000, 123_456_789).unwrap();
    assert_eq!(encode_expiry(&t), (1_700_000_000, 123_456_789));
    assert_eq!(decode_expiry(encode_expiry(&t)).unwrap(), t);
    assert_eq!(encode_expiry(&Timestamp::new(-1, 5).unwrap()), (0, 0));
    assert_eq!(decode_expiry((1, 2_000_000_000)).unwrap(), Timestamp::new(3, 0).unwrap());
    assert!(matches!(decode_expiry((u64::MAX, 0)), Err(Error::Storage(_))));
}

#[test]
fn every_write_is_there_after_reopening() {
    let (mut reg, _dir, path) = registry_with_ring();
    let peer = make_peer();
    let gone = make_peer();
    let lapsed = make_peer();
    reg.create_ring("other").unwrap();
    reg.add_peer_to_ring("r", peer, Some("alice"), Some(in_one_hour())).unwrap();
    reg.add_peer_to_ring("r", gone, None, None).unwrap();
    reg.add_peer_to_ring("r", lapsed, None, Some(Timestamp::epoch())).unwrap();
    reg.remove_peer_from_ring("r", gone).unwrap();
    reg.add_ring_to_resource(RES, "other", &[Permission::Write]).unwrap();
    reg.add_ring_to_resource([1; 32], "other", &[Permission::Write]).unwrap();
    reg.remove_ring_from_resource([1; 32]).unwrap();
    assert_eq!(reg.evict_expired(Timestamp::now()).unwrap().len(), 1);

    let rings = reg.list_rings().unwrap();
    let peers = reg.list_ring_peers("r").unwrap();
    let granted = reg.list_resource_rings(RES).unwrap();
    assert_eq!(peers.len(), 1);
    drop(reg);

    let db = redb::Database::create(&path).unwrap();
    assert_eq!(read_version(&db).unwrap(), CURRENT_VERSION);
    let reg = RedbRegistry::from_database(db).unwrap();
    assert_eq!(reg.list_rings().unwrap(), rings);
    assert_eq!(reg.list_ring_peers("r").unwrap(), peers);
    assert_eq!(reg.list_resource_rings(RES).unwrap(), granted);
    assert!(reg.list_resource_rings([1; 32]).unwrap().is_empty());
    assert!(reg.has_permission(&peer, &RES, Permission::Read).unwrap());
    assert!(!reg.has_permission(&gone, &RES, Permission::Read).unwrap());
}
