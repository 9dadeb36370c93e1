//! What every registry must do, run against both backends.

use iroh_rings::registry::{EvictedMembership, RingMember};
use iroh_rings::{
    EndpointId, Error, InMemoryRegistry, Permission, RedbRegistry, Registry, Ring, Timestamp, OPEN_RING_NAME,
};
use tempfile::tempdir;

fn make_resource(b: u8) -> [u8; 32] {
    [b; 32]
}

fn make_peer() -> EndpointId {
    EndpointId::from_bytes(iroh::SecretKey::generate().public().as_bytes()).unwrap()
}

fn in_hours(hours: i64) -> Timestamp {
    let now = Timestamp::now();
    Timestamp::new(now.secs() + hours * 3600, now.subsec_nanos()).unwrap()
}

/// Shared contract test: each assertion enforces the behaviour all backends must satisfy.
fn registry_contract<R: Registry>(reg: &mut R) {
    // list_rings / create_ring

    assert!(reg.list_rings().unwrap().iter().any(|r| r.is_open()));

    reg.create_ring("friends").unwrap();
    assert!(reg
        .list_rings()
        .unwrap()
        .iter()
        .any(|r| r.as_str() == "friends"));

    assert!(reg.create_ring("friends").is_err()); // duplicate rejected
    assert!(reg.create_ring(OPEN_RING_NAME).is_err()); // reserved name rejected
    assert!(reg.create_ring("").is_err()); // empty name rejected
    assert!(reg.create_ring("my ring").is_err()); // whitespace rejected
    assert!(reg.create_ring("tab\there").is_err());
    assert!(reg.create_ring("ring\0name").is_err()); // nul rejected

    reg.create_ring("work").unwrap();
    let rings = reg.list_rings().unwrap();
    assert!(rings.iter().any(|r| r.as_str() == "friends"));
    assert!(rings.iter().any(|r| r.as_str() == "work"));
    assert_eq!(rings.len(), 3); // open + friends + work

    // add_peer_to_ring / remove_peer_from_ring / list_ring_peers

    let alice = make_peer();
    reg.add_peer_to_ring("friends", alice, Some("alice"), None)
        .unwrap();
    let peers = reg.list_ring_peers("friends").unwrap();
    assert_eq!(peers.len(), 1);
    assert_eq!(peers[0].label.as_deref(), Some("alice"));

    reg.add_peer_to_ring("friends", alice, None, None).unwrap(); // idempotent
    assert_eq!(reg.list_ring_peers("friends").unwrap().len(), 1);

    reg.remove_peer_from_ring("friends", alice).unwrap();
    assert_eq!(reg.list_ring_peers("friends").unwrap().len(), 0);

    assert!(reg
        .add_peer_to_ring("ghost", make_peer(), None, None)
        .is_err());
    assert!(reg.remove_peer_from_ring("ghost", make_peer()).is_err());
    assert!(reg.list_ring_peers("ghost").is_err());

    let extra = make_peer();
    reg.remove_peer_from_ring("friends", extra).unwrap(); // noop when not a member
    assert_eq!(reg.list_ring_peers("friends").unwrap().len(), 0);

    // has_permission

    let resource = make_resource(0xab);
    let bob = make_peer();
    // no associations → all permissions denied
    assert!(!reg
        .has_permission(&bob, &resource, Permission::Read)
        .unwrap());
    assert!(!reg
        .has_permission(&bob, &resource, Permission::Write)
        .unwrap());
    assert!(!reg
        .has_permission(&bob, &resource, Permission::Delete)
        .unwrap());

    reg.add_peer_to_ring("friends", bob, None, None).unwrap();
    reg.add_ring_to_resource(resource, "friends", &[Permission::Read])
        .unwrap();
    assert!(reg
        .has_permission(&bob, &resource, Permission::Read)
        .unwrap()); // ring member with READ
    assert!(!reg
        .has_permission(&bob, &resource, Permission::Write)
        .unwrap()); // no WRITE granted

    reg.add_ring_to_resource(resource, "friends", &[Permission::Read, Permission::Write])
        .unwrap();
    assert!(reg
        .has_permission(&bob, &resource, Permission::Write)
        .unwrap()); // permissions updated

    let stranger = make_peer();
    assert!(!reg
        .has_permission(&stranger, &resource, Permission::Read)
        .unwrap()); // non-member denied

    reg.add_ring_to_resource(resource, OPEN_RING_NAME, &[Permission::Read])
        .unwrap();
    assert!(reg
        .has_permission(&stranger, &resource, Permission::Read)
        .unwrap()); // open ring allows anyone for READ
    assert!(!reg
        .has_permission(&stranger, &resource, Permission::Write)
        .unwrap()); // but not WRITE
    assert!(reg
        .has_permission(&bob, &resource, Permission::Write)
        .unwrap()); // friends ring Write survives adding the open ring

    let resource_multi = make_resource(0x01);
    let peer_work = make_peer();
    reg.add_ring_to_resource(resource_multi, "friends", &[Permission::Read])
        .unwrap();
    reg.add_ring_to_resource(
        resource_multi,
        "work",
        &[Permission::Read, Permission::Write],
    )
    .unwrap();
    reg.add_peer_to_ring("work", peer_work, None, None).unwrap();
    assert!(reg
        .has_permission(&peer_work, &resource_multi, Permission::Write)
        .unwrap()); // member of ring with WRITE

    reg.remove_ring_from_resource(resource).unwrap();
    assert_eq!(reg.list_resource_rings(resource).unwrap().len(), 0);
    assert!(!reg
        .has_permission(&stranger, &resource, Permission::Read)
        .unwrap());

    // empty permission set is rejected
    assert!(reg
        .add_ring_to_resource(make_resource(0xac), "friends", &[])
        .is_err());

    // resource–ring association semantics

    assert_eq!(
        reg.list_resource_rings(make_resource(0xfe)).unwrap(),
        vec![]
    );
    assert!(reg
        .add_ring_to_resource(make_resource(0xfd), "ghost", &[Permission::Read])
        .is_err());

    // open ring rejects Write and Delete permissions
    let res_open_guard = make_resource(0xb0);
    assert!(reg
        .add_ring_to_resource(res_open_guard, OPEN_RING_NAME, &[Permission::Write])
        .is_err());
    assert!(reg
        .add_ring_to_resource(res_open_guard, OPEN_RING_NAME, &[Permission::Delete])
        .is_err());
    assert!(reg
        .add_ring_to_resource(
            res_open_guard,
            OPEN_RING_NAME,
            &[Permission::Read, Permission::Write]
        )
        .is_err());
    assert!(reg
        .add_ring_to_resource(res_open_guard, OPEN_RING_NAME, &[Permission::Read])
        .is_ok());

    // open ring and private rings coexist on the same resource
    let res_a = make_resource(0x02);
    reg.create_ring("ring_a").unwrap();
    reg.add_ring_to_resource(res_a, "ring_a", &[Permission::Write])
        .unwrap();
    reg.add_ring_to_resource(res_a, OPEN_RING_NAME, &[Permission::Read])
        .unwrap();
    let rings_a = reg.list_resource_rings(res_a).unwrap();
    assert_eq!(rings_a.len(), 2);
    assert!(rings_a.iter().any(|(r, _)| r.is_open()));
    assert!(rings_a
        .iter()
        .any(|(r, _)| r == &Ring::new("ring_a").unwrap()));

    // any peer can read via the open ring; only ring_a members can write
    let ring_a_peer = make_peer();
    reg.add_peer_to_ring("ring_a", ring_a_peer, None, None)
        .unwrap();
    let outsider = make_peer();
    assert!(reg
        .has_permission(&outsider, &res_a, Permission::Read)
        .unwrap());
    assert!(!reg
        .has_permission(&outsider, &res_a, Permission::Write)
        .unwrap());
    assert!(reg
        .has_permission(&ring_a_peer, &res_a, Permission::Read)
        .unwrap());
    assert!(reg
        .has_permission(&ring_a_peer, &res_a, Permission::Write)
        .unwrap());

    // adding the open ring to a resource that already has private rings keeps both
    let res_b = make_resource(0x03);
    reg.create_ring("ring_b").unwrap();
    reg.add_ring_to_resource(res_b, "ring_b", &[Permission::Read])
        .unwrap();
    reg.add_ring_to_resource(res_b, OPEN_RING_NAME, &[Permission::Read])
        .unwrap();
    let rings_b = reg.list_resource_rings(res_b).unwrap();
    assert_eq!(rings_b.len(), 2);
    assert!(reg
        .has_permission(&outsider, &res_b, Permission::Read)
        .unwrap()); // non-member can read via open ring

    // associating the same ring twice updates its permissions
    let res_c = make_resource(0x04);
    reg.create_ring("ring_c").unwrap();
    reg.add_ring_to_resource(res_c, "ring_c", &[Permission::Read])
        .unwrap();
    reg.add_ring_to_resource(res_c, "ring_c", &[Permission::Read, Permission::Write])
        .unwrap();
    let rings_c = reg.list_resource_rings(res_c).unwrap();
    assert_eq!(rings_c.len(), 1);
    assert!(rings_c[0].1.contains(&Permission::Write));

    // multiple private rings accumulate
    let res_d = make_resource(0x05);
    reg.create_ring("ring_d").unwrap();
    reg.create_ring("ring_e").unwrap();
    reg.add_ring_to_resource(res_d, "ring_d", &[Permission::Read])
        .unwrap();
    reg.add_ring_to_resource(res_d, "ring_e", &[Permission::Read, Permission::Write])
        .unwrap();
    let rings_d = reg.list_resource_rings(res_d).unwrap();
    assert_eq!(rings_d.len(), 2);
    assert!(rings_d
        .iter()
        .any(|(r, _)| r == &Ring::new("ring_d").unwrap()));
    assert!(rings_d
        .iter()
        .any(|(r, _)| r == &Ring::new("ring_e").unwrap()));

    // permissions of an existing ring survive when a second ring is added to the same resource
    let res_perm_survival = make_resource(0x06);
    let peer_survival = make_peer();
    reg.create_ring("survival_a").unwrap();
    reg.create_ring("survival_b").unwrap();
    reg.add_peer_to_ring("survival_a", peer_survival, None, None)
        .unwrap();
    reg.add_ring_to_resource(res_perm_survival, "survival_a", &[Permission::Read])
        .unwrap();
    reg.add_ring_to_resource(res_perm_survival, "survival_b", &[Permission::Write])
        .unwrap();
    assert!(
        reg.has_permission(&peer_survival, &res_perm_survival, Permission::Read)
            .unwrap(),
        "survival_a Read permission must survive adding survival_b to the same resource",
    );

    // labels

    let labeled_peer = make_peer();
    let unlabeled_peer = make_peer();
    reg.create_ring("nick_ring").unwrap();

    reg.add_peer_to_ring("nick_ring", labeled_peer, Some("alice"), None)
        .unwrap();
    let members = reg.list_ring_peers("nick_ring").unwrap();
    assert_eq!(members.len(), 1);
    assert_eq!(members[0].label.as_deref(), Some("alice"));

    reg.add_peer_to_ring("nick_ring", unlabeled_peer, None, None)
        .unwrap();
    let found = reg.list_ring_peers("nick_ring").unwrap();
    assert_eq!(
        found
            .iter()
            .find(|m| m.peer == unlabeled_peer)
            .unwrap()
            .label,
        None
    );

    reg.add_peer_to_ring("nick_ring", labeled_peer, Some("alice2"), None)
        .unwrap(); // update label
    let members = reg.list_ring_peers("nick_ring").unwrap();
    assert_eq!(members.len(), 2);
    assert_eq!(
        members
            .iter()
            .find(|m| m.peer == labeled_peer)
            .unwrap()
            .label
            .as_deref(),
        Some("alice2")
    );

    reg.remove_peer_from_ring("nick_ring", labeled_peer)
        .unwrap();
    reg.add_peer_to_ring("nick_ring", labeled_peer, None, None)
        .unwrap(); // label cleared on removal
    let found = reg.list_ring_peers("nick_ring").unwrap();
    assert_eq!(
        found.iter().find(|m| m.peer == labeled_peer).unwrap().label,
        None
    );

    // same peer can have different labels in different rings
    let cross_peer = make_peer();
    reg.create_ring("nick_ring2").unwrap();
    reg.add_peer_to_ring("nick_ring", cross_peer, Some("name_a"), None)
        .unwrap();
    reg.add_peer_to_ring("nick_ring2", cross_peer, Some("name_b"), None)
        .unwrap();
    let r1 = reg.list_ring_peers("nick_ring").unwrap();
    let r2 = reg.list_ring_peers("nick_ring2").unwrap();
    assert_eq!(
        r1.iter()
            .find(|m| m.peer == cross_peer)
            .unwrap()
            .label
            .as_deref(),
        Some("name_a")
    );
    assert_eq!(
        r2.iter()
            .find(|m| m.peer == cross_peer)
            .unwrap()
            .label
            .as_deref(),
        Some("name_b")
    );

    // members with and without labels coexist in the same ring
    let labels: Vec<_> = reg
        .list_ring_peers("nick_ring")
        .unwrap()
        .into_iter()
        .map(|m| m.label)
        .collect();
    assert!(labels.iter().any(|n| n.as_deref() == Some("name_a")));
    assert!(labels.iter().any(|n| n.is_none()));

    // members with expires_at set
    let short_lived_peer = make_peer();
    reg.create_ring("exp_ring").unwrap();
    let expiration = in_hours(10);
    reg.add_peer_to_ring(
        "exp_ring",
        short_lived_peer,
        Some("name_ex"),
        Some(expiration),
    )
    .unwrap();
    let r1 = reg.list_ring_peers("exp_ring").unwrap();
    assert_eq!(
        r1.iter()
            .find(|m| m.peer == short_lived_peer)
            .unwrap()
            .expires_at,
        Some(expiration)
    );

    // expiry behaviour: expired means denied, hidden, and treated as absent on re-add

    let res_exp = make_resource(0x10);
    reg.create_ring("exp_a").unwrap();
    reg.add_ring_to_resource(res_exp, "exp_a", &[Permission::Read])
        .unwrap();

    // an already-expired membership is denied and omitted from the listing
    let expired_peer = make_peer();
    reg.add_peer_to_ring("exp_a", expired_peer, Some("old"), Some(Timestamp::epoch()))
        .unwrap();
    assert!(!reg
        .has_permission(&expired_peer, &res_exp, Permission::Read)
        .unwrap());
    assert!(reg
        .list_ring_peers("exp_a")
        .unwrap()
        .iter()
        .all(|m| m.peer != expired_peer));

    // a future expiry keeps the member active
    let live_peer = make_peer();
    let live_expiry = in_hours(1);
    reg.add_peer_to_ring("exp_a", live_peer, Some("alice"), Some(live_expiry))
        .unwrap();
    assert!(reg
        .has_permission(&live_peer, &res_exp, Permission::Read)
        .unwrap());
    assert_eq!(
        reg.list_ring_peers("exp_a")
            .unwrap()
            .into_iter()
            .find(|m| m.peer == live_peer),
        Some(RingMember::new(
            live_peer,
            Some("alice".to_string()),
            Some(live_expiry)
        ))
    );

    // re-adding a live member with `expires_at: None` keeps its existing expiry
    reg.add_peer_to_ring("exp_a", live_peer, None, None)
        .unwrap();
    assert_eq!(
        reg.list_ring_peers("exp_a")
            .unwrap()
            .into_iter()
            .find(|m| m.peer == live_peer)
            .unwrap()
            .expires_at,
        Some(live_expiry)
    );

    // re-adding an already-expired member starts a fresh membership: the stale
    // label and expiry are dropped, not carried forward
    reg.add_peer_to_ring("exp_a", expired_peer, None, None)
        .unwrap();
    assert!(reg
        .has_permission(&expired_peer, &res_exp, Permission::Read)
        .unwrap());
    assert_eq!(
        reg.list_ring_peers("exp_a")
            .unwrap()
            .into_iter()
            .find(|m| m.peer == expired_peer),
        Some(RingMember::new(expired_peer, None, None))
    );

    // removing a member clears its expiry, so re-adding it plainly has none
    reg.remove_peer_from_ring("exp_a", live_peer).unwrap();
    reg.add_peer_to_ring("exp_a", live_peer, None, None)
        .unwrap();
    assert_eq!(
        reg.list_ring_peers("exp_a")
            .unwrap()
            .into_iter()
            .find(|m| m.peer == live_peer)
            .unwrap()
            .expires_at,
        None
    );

    // expiry is scoped to the ring: the same peer can be expired in one ring
    // and live in another
    let res_exp_b = make_resource(0x11);
    reg.create_ring("exp_b").unwrap();
    reg.add_ring_to_resource(res_exp_b, "exp_b", &[Permission::Write])
        .unwrap();
    let cross_ring_peer = make_peer();
    reg.add_peer_to_ring("exp_a", cross_ring_peer, None, Some(Timestamp::epoch()))
        .unwrap();
    reg.add_peer_to_ring("exp_b", cross_ring_peer, None, None)
        .unwrap();
    assert!(!reg
        .has_permission(&cross_ring_peer, &res_exp, Permission::Read)
        .unwrap());
    assert!(reg
        .has_permission(&cross_ring_peer, &res_exp_b, Permission::Write)
        .unwrap());

    // evict_expired: reclaims storage for expired rows without changing what
    // has_permission / list_ring_peers already report (they enforce expiry
    // lazily, with or without eviction ever running)

    reg.create_ring("evict_a").unwrap();
    reg.create_ring("evict_b").unwrap();
    let evict_now = Timestamp::now();

    // drain the backlog left by earlier sections (e.g. `cross_ring_peer`, whose
    // expired membership was never re-added and so was never cleaned up — by
    // design, since expiry is enforced lazily whether or not this is ever
    // called) to get a clean baseline for the no-op assertion below
    reg.evict_expired(evict_now).unwrap();

    // calling it again with nothing (newly) expired is a no-op
    assert_eq!(reg.evict_expired(evict_now).unwrap(), Vec::new());

    let live_in_a = make_peer();
    let expired_in_a = make_peer();
    let no_expiry_in_a = make_peer();
    let expired_in_b = make_peer();
    reg.add_peer_to_ring("evict_a", live_in_a, None, Some(in_hours(1)))
        .unwrap();
    reg.add_peer_to_ring("evict_a", expired_in_a, None, Some(Timestamp::epoch()))
        .unwrap();
    reg.add_peer_to_ring("evict_a", no_expiry_in_a, None, None)
        .unwrap();
    reg.add_peer_to_ring("evict_b", expired_in_b, None, Some(Timestamp::epoch()))
        .unwrap();

    let mut evicted = reg.evict_expired(evict_now).unwrap();
    evicted.sort_by(|a, b| a.ring_name.cmp(&b.ring_name));
    assert_eq!(
        evicted,
        vec![
            EvictedMembership::new("evict_a".to_string(), expired_in_a),
            EvictedMembership::new("evict_b".to_string(), expired_in_b),
        ]
    );

    // the non-expired members of the ring evicted from are untouched
    let remaining: Vec<_> = reg
        .list_ring_peers("evict_a")
        .unwrap()
        .into_iter()
        .map(|m| m.peer)
        .collect();
    assert!(remaining.contains(&live_in_a));
    assert!(remaining.contains(&no_expiry_in_a));
    assert!(!remaining.contains(&expired_in_a));

    // an evicted membership can be added back as if it had never existed
    reg.add_peer_to_ring("evict_a", expired_in_a, None, None)
        .unwrap();
    assert_eq!(
        reg.list_ring_peers("evict_a")
            .unwrap()
            .into_iter()
            .find(|m| m.peer == expired_in_a),
        Some(RingMember::new(expired_in_a, None, None))
    );

    // already-evicted rows are not evicted again
    assert_eq!(reg.evict_expired(evict_now).unwrap(), Vec::new());
}

#[test]
fn memory_satisfies_registry_contract() {
    registry_contract(&mut InMemoryRegistry::new());
}

#[test]
fn default_satisfies_registry_contract() {
    registry_contract(&mut InMemoryRegistry::default());
}

#[test]
fn redb_satisfies_registry_contract() {
    let dir = tempdir().unwrap();
    let path = dir.path().join("test.redb");
    let mut reg = RedbRegistry::open(path.to_str().unwrap()).unwrap();
    registry_contract(&mut reg);
}

#[test]
fn mod_satisfies_registry_contract() {
    let dir = tempdir().unwrap();
    let path = dir.path().join("test.redb");
    let mut reg = RedbRegistry::from_database(redb::Database::create(&path).unwrap()).unwrap();
    registry_contract(&mut reg);
}

fn errors_say_what_is_wrong<R: Registry>(reg: &mut R) {
    let peer = make_peer();
    reg.create_ring("r").unwrap();
    assert_eq!(reg.create_ring("").unwrap_err(), Error::RingNameEmpty);
    assert_eq!(reg.create_ring("a b").unwrap_err(), Error::RingNameInvalidChars);
    assert_eq!(reg.create_ring("open").unwrap_err(), Error::RingNameReserved("open".to_string()));
    assert_eq!(reg.create_ring("r").unwrap_err(), Error::RingAlreadyExists("r".to_string()));
    let gone = Error::RingNotFound("ghost".to_string());
    assert_eq!(reg.add_peer_to_ring("ghost", peer, None, None).unwrap_err(), gone);
    assert_eq!(reg.remove_peer_from_ring("ghost", peer).unwrap_err(), gone);
    assert_eq!(reg.list_ring_peers("ghost").unwrap_err(), gone);
    let res = make_resource(1);
    assert_eq!(reg.add_ring_to_resource(res, "ghost", &[Permission::Read]).unwrap_err(), gone);
    // An empty permission set and the open ring are judged before the ring is looked up.
    assert_eq!(reg.add_ring_to_resource(res, "ghost", &[]).unwrap_err(), Error::EmptyPermissionSet);
    assert_eq!(
        reg.add_ring_to_resource(res, "open", &[Permission::Read, Permission::Delete]).unwrap_err(),
        Error::OpenRingReadOnly
    );
    // Nothing of this left a trace.
    assert_eq!(reg.list_rings().unwrap().len(), 2);
    assert!(reg.list_resource_rings(res).unwrap().is_empty());
}

#[test]
fn memory_errors_say_what_is_wrong() {
    errors_say_what_is_wrong(&mut InMemoryRegistry::new());
}

#[test]
fn redb_errors_say_what_is_wrong() {
    let dir = tempdir().unwrap();
    let path = dir.path().join("test.redb");
    errors_say_what_is_wrong(&mut RedbRegistry::open(path.to_str().unwrap()).unwrap());
}

fn time_decides<R: Registry>(reg: &mut R) {
    let res = make_resource(7);
    let peer = make_peer();
    let at = |secs: i64, nanos: u32| Timestamp::new(secs, nanos).unwrap();
    reg.create_ring("r").unwrap();
    reg.add_ring_to_resource(res, "r", &[Permission::Read]).unwrap();
    reg.add_peer_to_ring_at("r", peer, Some("p"), Some(at(100, 5)), at(50, 0)).unwrap();
    // A membership is over at its expiry, and not a nanosecond earlier.
    assert!(reg.has_permission_at(&peer, &res, Permission::Read, at(100, 4)).unwrap());
    assert!(!reg.has_permission_at(&peer, &res, Permission::Read, at(100, 5)).unwrap());
    assert_eq!(reg.list_ring_peers_at("r", at(100, 4)).unwrap().len(), 1);
    assert_eq!(reg.list_ring_peers_at("r", at(100, 5)).unwrap().len(), 0);
    // Re-adding a live member without an expiry keeps label and expiry.
    reg.add_peer_to_ring_at("r", peer, None, None, at(100, 4)).unwrap();
    assert_eq!(
        reg.list_ring_peers_at("r", at(60, 0)).unwrap(),
        vec![RingMember::new(peer, Some("p".to_string()), Some(at(100, 5)))]
    );
    // Eviction before the expiry takes nothing; after it, the membership is gone for good.
    assert_eq!(reg.evict_expired(at(100, 4)).unwrap(), vec![]);
    assert_eq!(
        reg.evict_expired(at(100, 5)).unwrap(),
        vec![EvictedMembership::new("r".to_string(), peer)]
    );
    assert_eq!(reg.list_ring_peers_at("r", at(60, 0)).unwrap().len(), 0);
    assert!(!reg.has_permission_at(&peer, &res, Permission::Read, at(60, 0)).unwrap());
    assert_eq!(reg.evict_expired(at(200, 0)).unwrap(), vec![]);
}

#[test]
fn memory_time_decides() {
    time_decides(&mut InMemoryRegistry::new());
}

#[test]
fn redb_time_decides() {
    let dir = tempdir().unwrap();
    let path = dir.path().join("test.redb");
    time_decides(&mut RedbRegistry::open(path.to_str().unwrap()).unwrap());
}

fn listings_keep_their_order<R: Registry>(reg: &mut R) {
    let res = b"any bytes".to_vec();
    let (a, b, c) = (make_peer(), make_peer(), make_peer());
    reg.create_ring("z").unwrap();
    reg.create_ring("y").unwrap();
    for peer in [a, b, c] {
        reg.add_peer_to_ring("z", peer, None, None).unwrap();
    }
    reg.remove_peer_from_ring("z", b).unwrap();
    reg.add_peer_to_ring("z", b, None, None).unwrap();
    let peers: Vec<_> = reg.list_ring_peers("z").unwrap().into_iter().map(|m| m.peer).collect();
    assert_eq!(peers, vec![a, c, b]);
    assert!(reg.list_rings().unwrap()[0].is_open());
    reg.add_ring_to_resource(res.clone(), "z", &[Permission::Write]).unwrap();
    reg.add_ring_to_resource(res.clone(), "open", &[Permission::Read]).unwrap();
    reg.add_ring_to_resource(res.clone(), "y", &[Permission::Read, Permission::Delete]).unwrap();
    reg.add_ring_to_resource(res.clone(), "z", &[Permission::Read]).unwrap();
    let rings: Vec<_> = reg
        .list_resource_rings(res)
        .unwrap()
        .into_iter()
        .map(|(ring, permissions)| (ring.as_str().to_string(), permissions))
        .collect();
    assert_eq!(
        rings,
        vec![
            ("z".to_string(), vec![Permission::Read]),
            ("open".to_string(), vec![Permission::Read]),
            ("y".to_string(), vec![Permission::Read, Permission::Delete]),
        ]
    );
}

#[test]
fn memory_listings_keep_their_order() {
    listings_keep_their_order(&mut InMemoryRegistry::new());
}

#[test]
fn redb_listings_keep_their_order() {
    let dir = tempdir().unwrap();
    let path = dir.path().join("test.redb");
    listings_keep_their_order(&mut RedbRegistry::open(path.to_str().unwrap()).unwrap());
}

#[test]
fn permissions_of_several_rings_add_up() {
    let mut reg = InMemoryRegistry::new();
    let res = make_resource(3);
    let peer = make_peer();
    for (ring, permission) in [("a", Permission::Read), ("b", Permission::Delete)] {
        reg.create_ring(ring).unwrap();
        reg.add_peer_to_ring(ring, peer, None, None).unwrap();
        reg.add_ring_to_resource(res, ring, &[permission]).unwrap();
    }
    assert!(reg.has_permission(&peer, &res, Permission::Read).unwrap());
    assert!(reg.has_permission(&peer, &res, Permission::Delete).unwrap());
    assert!(!reg.has_permission(&peer, &res, Permission::Write).unwrap());
    reg.remove_peer_from_ring("b", peer).unwrap();
    assert!(reg.has_permission(&peer, &res, Permission::Read).unwrap());
    assert!(!reg.has_permission(&peer, &res, Permission::Delete).unwrap());
}

#[test]
fn an_expiry_in_the_past_makes_adding_twice_drop_the_label() {
    let mut reg = InMemoryRegistry::new();
    let peer = make_peer();
    let at = |secs: i64| Timestamp::new(secs, 0).unwrap();
    reg.create_ring("r").unwrap();
    reg.add_peer_to_ring_at("r", peer, Some("p"), None, at(10)).unwrap();
    reg.add_peer_to_ring_at("r", peer, None, Some(at(5)), at(10)).unwrap();
    let once = reg.list_ring_peers_at("r", at(0)).unwrap();
    assert_eq!(once, vec![RingMember::new(peer, Some("p".to_string()), Some(at(5)))]);
    reg.add_peer_to_ring_at("r", peer, None, Some(at(5)), at(10)).unwrap();
    let twice = reg.list_ring_peers_at("r", at(0)).unwrap();
    assert_eq!(twice, vec![RingMember::new(peer, None, Some(at(5)))]);
}

#[test]
fn compute_resource_rings_replaces_or_appends() {
    let list = iroh_rings::registry::compute_resource_rings(vec![], "a", vec![Permission::Read]);
    let list = iroh_rings::registry::compute_resource_rings(list, "b", vec![Permission::Write]);
    let list = iroh_rings::registry::compute_resource_rings(list, "a", vec![Permission::Delete]);
    assert_eq!(
        list,
        vec![
            ("a".to_string(), vec![Permission::Delete]),
            ("b".to_string(), vec![Permission::Write]),
        ]
    );
}

/// Bytes that do not encode a public key; about every second y coordinate has no point.
fn no_key() -> [u8; 32] {
    (0..=255u8)
        .map(|first| {
            let mut bytes = [0u8; 32];
            bytes[0] = first;
            bytes
        })
        .find(|bytes| iroh::EndpointId::from_bytes(bytes).is_err())
        .unwrap()
}

#[test]
fn bytes_that_are_no_key_are_no_peer() {
    assert!(EndpointId::from_bytes(&no_key()).is_none());
    let key = iroh::SecretKey::generate().public();
    let peer = EndpointId::from_bytes(key.as_bytes()).unwrap();
    assert_eq!(peer.as_bytes(), key.as_bytes());
    assert!(peer.same(&peer));
    assert!(!peer.same(&make_peer()));
}

#[test]
fn points_in_time_have_seconds_and_nanoseconds() {
    let t = Timestamp::new(-1, 1).unwrap();
    assert_eq!((t.secs(), t.subsec_nanos()), (-1, 1));
    assert!(Timestamp::new(0, 1_000_000_000).is_none());
    assert!(Timestamp::epoch().reaches(&t));
    assert!(!t.reaches(&Timestamp::epoch()));
    assert_eq!(Timestamp::from_offset(Err((1, 5))), Timestamp::new(-2, 999_999_995).unwrap());
    assert_eq!(Timestamp::from_offset(Ok((u64::MAX, 0))).secs(), i64::MAX);
    assert_eq!(Timestamp::from_offset(Err((u64::MAX, 0))).secs(), i64::MIN);
    // Any year this runs in lies between these.
    let now = Timestamp::now();
    assert!(now.reaches(&Timestamp::new(1_600_000_000, 0).unwrap()));
    assert!(!now.reaches(&Timestamp::new(32_503_680_000, 0).unwrap()));
}

#[test]
fn an_evicted_membership_can_be_cloned() {
    let peer = EndpointId::from_bytes(iroh::SecretKey::generate().public().as_bytes()).unwrap();
    let evicted = EvictedMembership::new("r".to_string(), peer);
    assert_eq!(evicted.clone(), evicted);
}
