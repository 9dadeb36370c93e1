//! Sequences of calls: which rings there are after them.

use iroh_rings::{EndpointId, InMemoryRegistry, Permission, RedbRegistry, Registry, Timestamp};
use tempfile::tempdir;

fn names<R: Registry>(reg: &R) -> Vec<String> {
    let mut names: Vec<String> = reg.list_rings().unwrap().iter().map(|ring| ring.to_string()).collect();
    assert_eq!(names[0], "open");
    names[1..].sort();
    names
}

fn only_creation_changes_the_rings<R: Registry>(reg: &mut R) {
    let peer = EndpointId::from_bytes(iroh::SecretKey::generate().public().as_bytes()).unwrap();
    assert_eq!(names(reg), ["open"]);
    reg.create_ring("friends").unwrap();
    reg.create_ring("work").unwrap();
    assert!(reg.create_ring("work").is_err());
    assert!(reg.create_ring("open").is_err());
    assert!(reg.create_ring("").is_err());
    assert_eq!(names(reg), ["open", "friends", "work"]);

    reg.add_peer_to_ring("friends", peer, None, Some(Timestamp::epoch())).unwrap();
    assert!(reg.add_peer_to_ring("ghost", peer, None, None).is_err());
    reg.add_ring_to_resource([1; 32], "work", &[Permission::Read]).unwrap();
    assert!(reg.add_ring_to_resource([1; 32], "ghost", &[Permission::Read]).is_err());
    reg.remove_ring_from_resource([1; 32]).unwrap();
    assert_eq!(reg.evict_expired(Timestamp::now()).unwrap().len(), 1);
    reg.remove_peer_from_ring("friends", peer).unwrap();
    assert_eq!(names(reg), ["open", "friends", "work"]);
}

#[test]
fn only_creation_changes_the_rings_in_memory() {
    only_creation_changes_the_rings(&mut InMemoryRegistry::new());
}

#[test]
fn only_creation_changes_the_rings_in_a_database() {
    let dir = tempdir().unwrap();
    let path = dir.path().join("history.redb");
    only_creation_changes_the_rings(&mut RedbRegistry::open(path.to_str().unwrap()).unwrap());
}
