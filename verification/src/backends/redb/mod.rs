//! Persistent registry backed by an embedded redb database.
//!
//! [`schema`] says which tables make up the data model and what they mean, [`codec`] how their
//! rows are written, [`rows`] how each operation reads and writes them within a transaction,
//! [`decisions`] what follows from what was read, and [`migrations`] how older databases are
//! brought up to date. [`storage`] is the database itself, and [`failures`] says whose errors come
//! back.
//!
//! # Open ring
//!
//! The open ring is a built-in, reserved ring. Resources associated with it are readable by any
//! peer regardless of membership. It is bootstrapped on first open and cannot be deleted or
//! renamed.
//!
//! # Membership expiry
//!
//! A membership whose expiry has passed is denied by `has_permission`, omitted by
//! `list_ring_peers`, and treated as absent by `add_peer_to_ring`. Its rows are removed when the
//! peer is removed or added again, or by `evict_expired`.

use vstd::prelude::*;

use crate::effects;
use crate::endpoint::EndpointId;
use crate::error::Error;
use crate::laws;
use crate::model::{GrantState, MemberState, RegistryState};
use crate::octets;
use crate::registry;
use crate::registry::{EvictedMembership, Permission, Registry, ResourceId, RingMember};
use crate::ring;
use crate::ring::{Ring, OPEN_RING_NAME};
use crate::time;
use crate::time::Timestamp;
use schema::{Shape, EXPIRIES, LABELS, RESOURCE_RINGS, RESOURCE_RING_PERMS, RINGS};
use storage::Cell;

pub mod codec;
pub mod decisions;
pub mod failures;
pub mod migrations;
pub mod rows;
pub mod schema;
pub mod storage;

verus! {

broadcast use failures::group_reports;

/// Persistent registry.
pub struct RedbRegistry {
    db: redb::Database,
}

/// The tables after the registry's tables were created where they were missing.
pub open spec fn with_tables(tables: Map<Seq<char>, Map<Seq<u8>, Cell>>) -> Map<Seq<char>, Map<Seq<u8>, Cell>> {
    let t = storage::opened(tables, RINGS@);
    let t = storage::opened(t, RESOURCE_RINGS@);
    let t = storage::opened(t, LABELS@);
    let t = storage::opened(t, EXPIRIES@);
    storage::opened(t, RESOURCE_RING_PERMS@)
}

/// The tables after the registry's tables, and the open ring, were created where they were
/// missing.
pub open spec fn bootstrapped(tables: Map<Seq<char>, Map<Seq<u8>, Cell>>) -> Map<Seq<char>, Map<Seq<u8>, Cell>> {
    let key = vstd::utf8::encode_utf8(OPEN_RING_NAME@);
    if storage::cell(tables, RINGS@, key) is Some {
        with_tables(tables)
    } else {
        storage::put(with_tables(tables), RINGS@, key, Cell::Bytes(codec::concat(Seq::empty())))
    }
}

/// Whether a write turned the tables `before` into `after`. If it succeeded, their rows are those of
/// `next`. If it failed, nothing has changed; only where the storage failed at the very end, all of
/// it may have been done.
pub open spec fn writes(
    result: Result<(), Error>,
    before: Map<Seq<char>, Map<Seq<u8>, Cell>>,
    after: Map<Seq<char>, Map<Seq<u8>, Cell>>,
    next: Shape,
) -> bool {
    match result {
        Ok(()) => schema::shape(after) == next,
        Err(e) => after == before || e is Storage && schema::shape(after) == next,
    }
}

/// Creates what is missing, within a transaction.
fn bootstrap(txn: &mut redb::WriteTransaction) -> (result: Result<(), Error>)
    ensures
        failures::owed_to_redb(result),
        storage::origin(*final(txn)) == storage::origin(*old(txn)),
        match result {
            Ok(()) => storage::pending(*final(txn)) == bootstrapped(storage::pending(*old(txn))),
            Err(e) => e is Storage,
        },
{
    proof {
        schema::lemma_table_names();
    }
    let none: [u8; 0] = [];
    // Looking up a row creates the table.
    let open = match storage::get_text_bytes(txn, RINGS, OPEN_RING_NAME) {
        Ok(open) => open,
        Err(e) => return Err(Error::Storage(e)),
    };
    match storage::get_bytes_bytes(txn, RESOURCE_RINGS, none.as_slice()) {
        Ok(_) => {},
        Err(e) => return Err(Error::Storage(e)),
    }
    match storage::get_bytes_text(txn, LABELS, none.as_slice()) {
        Ok(_) => {},
        Err(e) => return Err(Error::Storage(e)),
    }
    match storage::get_bytes_instant(txn, EXPIRIES, none.as_slice()) {
        Ok(_) => {},
        Err(e) => return Err(Error::Storage(e)),
    }
    match storage::get_bytes_byte(txn, RESOURCE_RING_PERMS, none.as_slice()) {
        Ok(_) => {},
        Err(e) => return Err(Error::Storage(e)),
    }
    if open.is_none() {
        let members = codec::encode_peer_ids(&Vec::new());
        assert(octets::ids_of(Seq::<[u8; 32]>::empty()) =~= Seq::empty());
        match storage::put_text_bytes(txn, RINGS, OPEN_RING_NAME, members.as_slice()) {
            Ok(()) => {},
            Err(e) => return Err(Error::Storage(e)),
        }
    }
    Ok(())
}

impl RedbRegistry {
    /// The tables of the database.
    pub closed spec fn tables(&self) -> Map<Seq<char>, Map<Seq<u8>, Cell>> {
        storage::committed(self.db)
    }

    /// Whether the tables are coherent and of the current schema version. Every write keeps it.
    pub open spec fn current(&self) -> bool {
        &&& self.coherent()
        &&& migrations::version_in(self.tables()) >= migrations::CURRENT_VERSION
    }

    /// Whether no table of the registry is missing. Every write keeps it.
    pub open spec fn complete(&self) -> bool {
        schema::complete(self.tables())
    }

    /// Whether this is the registry that the tables `found` make: what is missing was created, and
    /// an older schema was migrated. Of no tables it is an empty registry, and of the coherent
    /// tables of a registry it is that registry.
    pub open spec fn restores(&self, found: Map<Seq<char>, Map<Seq<u8>, Cell>>) -> bool {
        &&& migrations::migrated(bootstrapped(found), self.tables())
        &&& migrations::version_in(self.tables()) >= migrations::CURRENT_VERSION
        &&& found == Map::<Seq<char>, Map<Seq<u8>, Cell>>::empty() ==> {
            &&& self.coherent()
            &&& self.state() == RegistryState::initial()
        }
        &&& schema::shape(found).coherent() && migrations::version_in(found) >= migrations::CURRENT_VERSION ==> {
            &&& self.coherent()
            &&& self.state() == schema::shape(found).state()
        }
    }

    /// The path of the file that the registry was opened at.
    pub closed spec fn path(&self) -> Seq<char> {
        storage::opened_at(self.db)
    }

    /// Opens (or creates) the registry at `path`.
    ///
    /// On first creation the open ring is bootstrapped automatically, and an older database is
    /// migrated. The registry is made of the tables that the file held when it was opened; which
    /// they were is left open: they are on disk. A database at a path that is not UTF-8 can be handed
    /// to [`RedbRegistry::from_database`].
    ///
    /// # Errors
    ///
    /// Returns [`Error::Storage`] if the database cannot be opened or initialised.
    pub fn open(path: &str) -> (result: Result<RedbRegistry, Error>)
        ensures
            failures::owed_to_redb(result),
            match result {
                Ok(registry) => {
                    &&& registry.complete()
                    &&& registry.ready()
                    &&& registry.path() == path@
                    &&& exists|db: redb::Database| #[trigger]
                        storage::opened_from(path, db) && registry.restores(storage::committed(db))
                    &&& exists|found: Map<Seq<char>, Map<Seq<u8>, Cell>>| #[trigger]
                        registry.restores(found)
                },
                Err(e) => e is Storage,
            },
    {
        match storage::create_database(path) {
            Ok(db) => {
                proof {
                    storage::law_opened_from(path, db);
                }
                RedbRegistry::from_database(db)
            },
            Err(e) => Err(Error::Storage(e)),
        }
    }

    /// The registry that an open database holds.
    ///
    /// What is missing is created, and an older database is migrated.
    ///
    /// # Errors
    ///
    /// Returns [`Error::Storage`] if the database cannot be initialised.
    pub fn from_database(database: redb::Database) -> (result: Result<RedbRegistry, Error>)
        requires
            !storage::writing(database),
        ensures
            failures::owed_to_redb(result),
            match result {
                Ok(registry) => {
                    &&& registry.complete()
                    &&& registry.ready()
                    &&& registry.path() == storage::opened_at(database)
                    &&& registry.restores(storage::committed(database))
                },
                Err(e) => e is Storage,
            },
    {
        let mut db = database;
        let mut txn = match storage::begin_write(&mut db) {
            Ok(txn) => txn,
            Err(e) => return Err(Error::Storage(e)),
        };
        let outcome = bootstrap(&mut txn);
        match rows::finish(&mut db, txn, outcome) {
            Ok(()) => {},
            Err(e) => return Err(e),
        }
        match migrations::migrate(&mut db) {
            Ok(()) => {
                let registry = RedbRegistry { db };
                proof {
                    law_restored(registry, storage::committed(database));
                }
                Ok(registry)
            },
            Err(e) => Err(e),
        }
    }

    /// Starts reading.
    fn read(&self) -> (result: Result<redb::ReadTransaction, Error>)
        ensures
            failures::owed_to_redb(result),
            match result {
                Ok(txn) => storage::snapshot(txn) == self.tables(),
                Err(e) => e is Storage,
            },
    {
        match storage::begin_read(&self.db) {
            Ok(txn) => Ok(txn),
            Err(e) => Err(Error::Storage(e)),
        }
    }
}

impl Registry for RedbRegistry {
    open spec fn state(&self) -> RegistryState {
        schema::shape(self.tables()).state()
    }

    open spec fn coherent(&self) -> bool {
        schema::shape(self.tables()).coherent()
    }

    open spec fn reliable() -> bool {
        false
    }

    closed spec fn ready(&self) -> bool {
        !storage::writing(self.db)
    }

    open spec fn kept_expiry(end: Option<int>) -> Option<int> {
        match end {
            Some(e) => Some(codec::kept(e)),
            None => None,
        }
    }

    proof fn kept_expiry_is_near(end: Option<int>) {
    }

    proof fn coherent_is_wf(&self) {
    }

    fn create_ring(&mut self, ring_name: &str) -> (result: Result<(), Error>)
        ensures
            result is Ok ==> !schema::shape(old(self).tables()).has_ring(ring_name@),
            result matches Err(e) ==> match e {
                Error::RingAlreadyExists(name) => name@ == ring_name@ && schema::shape(old(self).tables()).has_ring(
                    ring_name@,
                ),
                Error::RingNameEmpty => true,
                Error::RingNameInvalidChars => true,
                Error::RingNameReserved(_) => true,
                Error::Storage(_) => true,
                _ => false,
            },
            failures::owed_to_redb(result),
            old(self).coherent() && failures::legible(old(self).state()) ==> failures::legible(final(self).state()),
            final(self).path() == old(self).path(),
            migrations::version_in(final(self).tables()) == migrations::version_in(old(self).tables()),
            old(self).current() ==> final(self).current(),
            old(self).complete() ==> final(self).complete(),
            writes(
                result,
                old(self).tables(),
                final(self).tables(),
                schema::shape(old(self).tables()).with_ring(ring_name@),
            ),
            ring_name@.len() == 0 <==> result matches Err(Error::RingNameEmpty),
            ring_name@.len() > 0 && !ring::clean(ring_name@) <==> result matches Err(Error::RingNameInvalidChars),
            ring::valid_name(ring_name@) && ring_name@ == OPEN_RING_NAME@ <==> result matches Err(
                Error::RingNameReserved(_),
            ),
            result matches Err(Error::RingNameReserved(name)) ==> name@ == OPEN_RING_NAME@,
    {
        let ring = match Ring::new(ring_name) {
            Ok(ring) => ring,
            Err(e) => return Err(e),
        };
        if ring.is_open() {
            return Err(Error::RingNameReserved(OPEN_RING_NAME.to_string()));
        }
        let ghost before = schema::shape(self.tables());
        let mut txn = match storage::begin_write(&mut self.db) {
            Ok(txn) => txn,
            Err(e) => return Err(Error::Storage(e)),
        };
        let outcome = rows::create_ring(&mut txn, ring_name);
        proof {
            if before.coherent() && outcome is Ok {
                schema::lemma_with_ring(before, ring_name@);
            }
        }
        let result = rows::finish(&mut self.db, txn, outcome);
        proof {
            lemma_same_version(old(self).tables(), self.tables());
            if old(self).coherent() && failures::legible(old(self).state()) {
                failures::law_legible(old(self).state(), ring_name@, Seq::empty(), None, None, 0, Seq::empty(), Set::empty());
            }
        }
        result
    }

    fn add_peer_to_ring_at(
        &mut self,
        ring_name: &str,
        peer: EndpointId,
        label: Option<&str>,
        expires_at: Option<Timestamp>,
        now: Timestamp,
    ) -> (result: Result<(), Error>)
        ensures
            result is Ok ==> schema::shape(old(self).tables()).has_ring(ring_name@),
            result matches Err(e) ==> match e {
                Error::RingNotFound(name) => name@ == ring_name@ && !schema::shape(old(self).tables()).has_ring(
                    ring_name@,
                ),
                Error::Storage(_) => true,
                _ => false,
            },
            old(self).coherent() && failures::legible(old(self).state()) ==> failures::owed_to_redb(result),
            old(self).coherent() && failures::legible(old(self).state()) ==> failures::legible(final(self).state()),
            final(self).path() == old(self).path(),
            migrations::version_in(final(self).tables()) == migrations::version_in(old(self).tables()),
            old(self).current() ==> final(self).current(),
            old(self).complete() ==> final(self).complete(),
            writes(
                result,
                old(self).tables(),
                final(self).tables(),
                schema::shape(old(self).tables()).with_peer(
                    ring_name@,
                    peer@,
                    registry::text_of(label),
                    match expires_at {
                        Some(t) => Some(codec::expiry_row(t@)),
                        None => None,
                    },
                    now@,
                ),
            ),
    {
        let ghost before = schema::shape(self.tables());
        let mut txn = match storage::begin_write(&mut self.db) {
            Ok(txn) => txn,
            Err(e) => return Err(Error::Storage(e)),
        };
        let outcome = rows::add_peer(&mut txn, ring_name, peer.as_bytes(), label, expires_at, &now);
        proof {
            if before.coherent() && outcome is Ok {
                let row = match expires_at {
                    Some(t) => Some(codec::expiry_row(t@)),
                    None => None,
                };
                schema::lemma_with_peer(before, ring_name@, peer@, registry::text_of(label), row, now@);
            }
        }
        let result = rows::finish(&mut self.db, txn, outcome);
        proof {
            lemma_same_version(old(self).tables(), self.tables());
            if old(self).coherent() && failures::legible(old(self).state()) {
                failures::law_legible(
                    old(self).state(),
                    ring_name@,
                    peer@,
                    registry::text_of(label),
                    Self::kept_expiry(registry::nanos_of(expires_at)),
                    now@,
                    Seq::empty(),
                    Set::empty(),
                );
            }
        }
        result
    }

    fn add_peer_to_ring(
        &mut self,
        ring_name: &str,
        peer: EndpointId,
        label: Option<&str>,
        expires_at: Option<Timestamp>,
    ) -> (result: Result<(), Error>)
        ensures
            result is Ok ==> schema::shape(old(self).tables()).has_ring(ring_name@),
            result matches Err(e) ==> match e {
                Error::RingNotFound(name) => name@ == ring_name@ && !schema::shape(old(self).tables()).has_ring(
                    ring_name@,
                ),
                Error::Storage(_) => true,
                _ => false,
            },
            old(self).coherent() && failures::legible(old(self).state()) ==> failures::owed_to_redb(result),
            old(self).coherent() && failures::legible(old(self).state()) ==> failures::legible(final(self).state()),
            final(self).path() == old(self).path(),
            migrations::version_in(final(self).tables()) == migrations::version_in(old(self).tables()),
            old(self).current() ==> final(self).current(),
            old(self).complete() ==> final(self).complete(),
            exists|now: Timestamp| #[trigger]
                call_ensures(Timestamp::now, (), now) && time::representable(now@) && writes(
                    result,
                    old(self).tables(),
                    final(self).tables(),
                    schema::shape(old(self).tables()).with_peer(
                        ring_name@,
                        peer@,
                        registry::text_of(label),
                        match expires_at {
                            Some(t) => Some(codec::expiry_row(t@)),
                            None => None,
                        },
                        now@,
                    ),
                ),
    {
        let now = Timestamp::now();
        self.add_peer_to_ring_at(ring_name, peer, label, expires_at, now)
    }

    fn remove_peer_from_ring(&mut self, ring_name: &str, peer: EndpointId) -> (result: Result<(), Error>)
        ensures
            result is Ok ==> schema::shape(old(self).tables()).has_ring(ring_name@),
            result matches Err(e) ==> match e {
                Error::RingNotFound(name) => name@ == ring_name@ && !schema::shape(old(self).tables()).has_ring(
                    ring_name@,
                ),
                Error::Storage(_) => true,
                _ => false,
            },
            failures::owed_to_redb(result),
            old(self).coherent() && failures::legible(old(self).state()) ==> failures::legible(final(self).state()),
            final(self).path() == old(self).path(),
            migrations::version_in(final(self).tables()) == migrations::version_in(old(self).tables()),
            old(self).current() ==> final(self).current(),
            old(self).complete() ==> final(self).complete(),
            writes(
                result,
                old(self).tables(),
                final(self).tables(),
                schema::shape(old(self).tables()).without_peer(ring_name@, peer@),
            ),
    {
        let ghost before = schema::shape(self.tables());
        let mut txn = match storage::begin_write(&mut self.db) {
            Ok(txn) => txn,
            Err(e) => return Err(Error::Storage(e)),
        };
        let outcome = rows::remove_peer(&mut txn, ring_name, peer.as_bytes());
        proof {
            if before.coherent() && outcome is Ok {
                schema::lemma_without_peer(before, ring_name@, peer@);
            }
        }
        let result = rows::finish(&mut self.db, txn, outcome);
        proof {
            lemma_same_version(old(self).tables(), self.tables());
            if old(self).coherent() && failures::legible(old(self).state()) {
                failures::law_legible(old(self).state(), ring_name@, peer@, None, None, 0, Seq::empty(), Set::empty());
            }
        }
        result
    }

    fn list_ring_peers_at(&self, ring_name: &str, now: Timestamp) -> (result: Result<Vec<RingMember>, Error>)
        ensures
            self.coherent() && failures::legible(self.state()) ==> failures::owed_to_redb(result),
            registry::lists_peers(result, self.state(), ring_name@, now@),
    {
        let txn = match self.read() {
            Ok(txn) => txn,
            Err(e) => return Err(e),
        };
        rows::list_peers(&txn, ring_name, &now)
    }

    fn list_ring_peers(&self, ring_name: &str) -> (result: Result<Vec<RingMember>, Error>)
        ensures
            self.coherent() && failures::legible(self.state()) ==> failures::owed_to_redb(result),
            exists|now: Timestamp| #[trigger]
                call_ensures(Timestamp::now, (), now) && time::representable(now@) && registry::lists_peers(
                    result,
                    self.state(),
                    ring_name@,
                    now@,
                ),
    {
        let now = Timestamp::now();
        self.list_ring_peers_at(ring_name, now)
    }

    fn list_rings(&self) -> (result: Result<Vec<Ring>, Error>)
        ensures
            self.coherent() && failures::legible(self.state()) ==> failures::owed_to_redb(result),
            result matches Err(e) ==> e is Storage,
            result matches Ok(rings) ==> self.state().rings.contains_key(OPEN_RING_NAME@) ==> registry::lists_rings(
                rings@,
                self.state(),
            ),
    {
        let txn = match self.read() {
            Ok(txn) => txn,
            Err(e) => return Err(e),
        };
        rows::list_rings(&txn)
    }

    fn remove_ring_from_resource<ResId: ResourceId>(&mut self, resource_id: ResId) -> (result: Result<(), Error>)
        ensures
            failures::owed_to_redb(result),
            old(self).coherent() && failures::legible(old(self).state()) ==> failures::legible(final(self).state()),
            final(self).path() == old(self).path(),
            migrations::version_in(final(self).tables()) == migrations::version_in(old(self).tables()),
            old(self).current() ==> final(self).current(),
            old(self).complete() ==> final(self).complete(),
            result matches Err(e) ==> e is Storage,
            writes(
                result,
                old(self).tables(),
                final(self).tables(),
                schema::shape(old(self).tables()).without_resource(resource_id.id()),
            ),
    {
        let ghost before = schema::shape(self.tables());
        let mut txn = match storage::begin_write(&mut self.db) {
            Ok(txn) => txn,
            Err(e) => return Err(Error::Storage(e)),
        };
        let outcome = rows::clear_resource(&mut txn, resource_id.as_bytes());
        proof {
            if before.coherent() {
                schema::lemma_without_resource(before, resource_id.id());
            }
        }
        let result = rows::finish(&mut self.db, txn, outcome);
        proof {
            lemma_same_version(old(self).tables(), self.tables());
            if old(self).coherent() && failures::legible(old(self).state()) {
                failures::law_legible(
                    old(self).state(),
                    Seq::empty(),
                    Seq::empty(),
                    None,
                    None,
                    0,
                    resource_id.id(),
                    Set::empty(),
                );
            }
        }
        result
    }

    fn list_resource_rings<ResId: ResourceId>(&self, resource_id: ResId) -> (result: Result<
        Vec<(Ring, Vec<Permission>)>,
        Error,
    >)
        ensures
            self.coherent() && failures::legible(self.state()) ==> failures::owed_to_redb(result),
            match result {
                Ok(listing) => {
                    &&& registry::lists_grants(listing@, self.state(), resource_id.id())
                    &&& forall|i: int|
                        0 <= i < listing@.len() ==> (#[trigger] listing@[i]).1@ == codec::perm_list(
                            schema::shape(self.tables()).bits(resource_id.id(), listing@[i].0@),
                        )
                },
                Err(e) => e is Storage,
            },
    {
        let txn = match self.read() {
            Ok(txn) => txn,
            Err(e) => return Err(e),
        };
        let id = resource_id.as_bytes();
        let result = rows::list_associations(&txn, id);
        proof {
            let s = schema::shape(self.tables());
            if result is Ok {
                let listing = result->Ok_0;
                assert forall|i: int| 0 <= i < listing@.len() implies (#[trigger] listing@[i]).1@.to_set()
                    == codec::perm_set(s.bits(id@, s.names(id@)[i])) by {
                    codec::lemma_perm_list(s.bits(id@, s.names(id@)[i]));
                }
            }
            schema::lemma_grants_on(s, id@);
        }
        result
    }

    fn add_ring_to_resource<ResId: ResourceId>(
        &mut self,
        resource_id: ResId,
        ring_name: &str,
        permissions: &[Permission],
    ) -> (result: Result<(), Error>)
        ensures
            result is Ok ==> schema::shape(old(self).tables()).has_ring(ring_name@),
            result matches Err(e) ==> match e {
                Error::RingNotFound(name) => name@ == ring_name@ && !schema::shape(old(self).tables()).has_ring(
                    ring_name@,
                ),
                Error::EmptyPermissionSet => true,
                Error::OpenRingReadOnly => true,
                Error::Storage(_) => true,
                _ => false,
            },
            failures::owed_to_redb(result),
            old(self).coherent() && failures::legible(old(self).state()) ==> failures::legible(final(self).state()),
            final(self).path() == old(self).path(),
            migrations::version_in(final(self).tables()) == migrations::version_in(old(self).tables()),
            old(self).current() ==> final(self).current(),
            old(self).complete() ==> final(self).complete(),
            writes(
                result,
                old(self).tables(),
                final(self).tables(),
                schema::shape(old(self).tables()).with_association(
                    resource_id.id(),
                    ring_name@,
                    codec::set_byte(permissions@.to_set()),
                ),
            ),
            permissions@.len() == 0 <==> result matches Err(Error::EmptyPermissionSet),
            permissions@.len() > 0 && ring_name@ == OPEN_RING_NAME@ && (exists|i: int|
                0 <= i < permissions@.len() && permissions@[i] != Permission::Read) <==> result matches Err(
                Error::OpenRingReadOnly,
            ),
    {
        proof {
            registry::lemma_permission_set(permissions@);
        }
        match registry::validate_ring_permissions(ring_name, permissions) {
            Ok(()) => {},
            Err(e) => return Err(e),
        }
        let ghost before = schema::shape(self.tables());
        let mut txn = match storage::begin_write(&mut self.db) {
            Ok(txn) => txn,
            Err(e) => return Err(Error::Storage(e)),
        };
        let id = resource_id.as_bytes();
        let outcome = rows::associate(&mut txn, id, ring_name, permissions);
        proof {
            if before.coherent() && outcome is Ok {
                let set = permissions@.to_set();
                schema::lemma_with_association(before, id@, ring_name@, codec::set_byte(set), set);
            }
        }
        let result = rows::finish(&mut self.db, txn, outcome);
        proof {
            lemma_same_version(old(self).tables(), self.tables());
            if old(self).coherent() && failures::legible(old(self).state()) {
                failures::law_legible(
                    old(self).state(),
                    ring_name@,
                    Seq::empty(),
                    None,
                    None,
                    0,
                    resource_id.id(),
                    permissions@.to_set(),
                );
            }
        }
        result
    }

    fn has_permission_at<ResId: ResourceId>(
        &self,
        peer: &EndpointId,
        resource_id: &ResId,
        permission: Permission,
        now: Timestamp,
    ) -> (result: Result<bool, Error>)
        ensures
            self.coherent() && failures::legible(self.state()) ==> failures::owed_to_redb(result),
            match result {
                Ok(yes) => yes == self.state().allows(peer@, resource_id.id(), permission, now@),
                Err(e) => e is Storage,
            },
    {
        let txn = match self.read() {
            Ok(txn) => txn,
            Err(e) => return Err(e),
        };
        rows::has_permission(&txn, peer, resource_id.as_bytes(), permission, &now)
    }

    fn has_permission<ResId: ResourceId>(
        &self,
        peer: &EndpointId,
        resource_id: &ResId,
        permission: Permission,
    ) -> (result: Result<bool, Error>)
        ensures
            self.coherent() && failures::legible(self.state()) ==> failures::owed_to_redb(result),
            match result {
                Ok(yes) => exists|now: Timestamp| #[trigger]
                    call_ensures(Timestamp::now, (), now) && time::representable(now@) && yes == self.state().allows(
                        peer@,
                        resource_id.id(),
                        permission,
                        now@,
                    ),
                Err(e) => e is Storage,
            },
    {
        let now = Timestamp::now();
        self.has_permission_at(peer, resource_id, permission, now)
    }

    fn evict_expired(&mut self, now: Timestamp) -> (result: Result<Vec<EvictedMembership>, Error>)
        ensures
            old(self).coherent() && failures::legible(old(self).state()) ==> failures::owed_to_redb(result),
            old(self).coherent() && failures::legible(old(self).state()) ==> failures::legible(final(self).state()),
            final(self).path() == old(self).path(),
            migrations::version_in(final(self).tables()) == migrations::version_in(old(self).tables()),
            old(self).current() ==> final(self).current(),
            old(self).complete() ==> final(self).complete(),
            result matches Err(e) ==> e is Storage,
            final(self).tables() == old(self).tables() || rows::keeps_grants(
                schema::shape(old(self).tables()),
                schema::shape(final(self).tables()),
            ),
    {
        let mut txn = match storage::begin_write(&mut self.db) {
            Ok(txn) => txn,
            Err(e) => return Err(Error::Storage(e)),
        };
        let outcome = rows::evict(&mut txn, &now);
        let result = rows::finish(&mut self.db, txn, outcome);
        proof {
            lemma_same_version(old(self).tables(), self.tables());
            if old(self).coherent() && failures::legible(old(self).state()) {
                failures::law_legible(
                    old(self).state(),
                    Seq::empty(),
                    Seq::empty(),
                    None,
                    None,
                    now@,
                    Seq::empty(),
                    Set::empty(),
                );
            }
        }
        result
    }
}

/// A new database makes an empty registry.
pub proof fn law_new_database(after: Map<Seq<char>, Map<Seq<u8>, Cell>>)
    requires
        migrations::migrated(bootstrapped(Map::empty()), after),
    ensures
        schema::shape(after).coherent(),
        schema::shape(after).state() == RegistryState::initial(),
        migrations::version_in(after) == migrations::CURRENT_VERSION,
{
    let tables = bootstrapped(Map::empty());
    let s = schema::shape(after);
    let key = vstd::utf8::encode_utf8(OPEN_RING_NAME@);
    schema::lemma_table_names();
    migrations::lemma_version(tables);
    migrations::lemma_version(after);
    assert(migrations::version_in(tables) == 0);
    assert(schema::shape(tables).perms =~= Map::empty());
    assert(schema::shape(tables).resources =~= Map::empty());
    assert(schema::shape(tables).others =~= Map::empty());
    assert(s.perms =~= Map::empty());
    assert(s.labels =~= Map::empty());
    assert(s.expiries =~= Map::empty());
    assert(s.rings =~= Map::empty().insert(key, Cell::Bytes(codec::concat(Seq::empty()))));
    assert(codec::concat(Seq::empty()) =~= Seq::empty());
    assert(s.members(OPEN_RING_NAME@) =~= Seq::empty());
    schema::lemma_initial(s);
    laws::law_initial_wf();
}

/// Creating what is missing changes no rows and no version, if the open ring is there.
pub proof fn law_bootstrap_keeps_the_rows(found: Map<Seq<char>, Map<Seq<u8>, Cell>>)
    requires
        schema::shape(found).has_ring(OPEN_RING_NAME@),
    ensures
        schema::shape(bootstrapped(found)) == schema::shape(found),
        migrations::version_in(bootstrapped(found)) == migrations::version_in(found),
{
    schema::lemma_table_names();
    assert(schema::shape(with_tables(found)) =~= schema::shape(found));
}

/// Opening a database that is current and coherent changes no rows: what was committed before it
/// was closed is what the registry holds afterwards.
pub proof fn law_reopening_keeps_the_registry(
    before: Map<Seq<char>, Map<Seq<u8>, Cell>>,
    after: Map<Seq<char>, Map<Seq<u8>, Cell>>,
)
    requires
        schema::shape(before).coherent(),
        migrations::version_in(before) >= migrations::CURRENT_VERSION,
        migrations::migrated(bootstrapped(before), after),
    ensures
        schema::shape(after) == schema::shape(before),
{
    assert(schema::shape(before).state().rings.contains_key(OPEN_RING_NAME@));
    law_bootstrap_keeps_the_rows(before);
}

/// A registry whose tables are those of a database, with what is missing created and an older
/// schema migrated, is empty if the database was new, and is the registry that the database held
/// if it held one.
pub proof fn law_restored(registry: RedbRegistry, found: Map<Seq<char>, Map<Seq<u8>, Cell>>)
    requires
        migrations::migrated(bootstrapped(found), registry.tables()),
    ensures
        registry.restores(found),
{
    migrations::law_migration_reaches_the_current_version(bootstrapped(found), registry.tables());
    if found == Map::<Seq<char>, Map<Seq<u8>, Cell>>::empty() {
        law_new_database(registry.tables());
    }
    if schema::shape(found).coherent() && migrations::version_in(found) >= migrations::CURRENT_VERSION {
        law_reopening_keeps_the_registry(found, registry.tables());
    }
}

/// What was written is there after reopening: a registry that is made of the tables of another one,
/// which was current, has all its rows, and so holds the same rings, memberships and grants, and
/// is current itself.
///
/// A new registry is current, and every write keeps it so.
pub proof fn law_reopened(closed: RedbRegistry, reopened: RedbRegistry)
    requires
        closed.current(),
        reopened.restores(closed.tables()),
    ensures
        schema::shape(reopened.tables()) == schema::shape(closed.tables()),
        reopened.state() == closed.state(),
        reopened.current(),
{
    law_reopening_keeps_the_registry(closed.tables(), reopened.tables());
}

/// A registry that is made of no tables is empty and current.
pub proof fn law_new_registry(registry: RedbRegistry)
    requires
        registry.restores(Map::empty()),
    ensures
        registry.state() == RegistryState::initial(),
        registry.current(),
        failures::legible(registry.state()),
{
}

/// What keeps the tables that do not hold the registry keeps the schema version.
proof fn lemma_same_version(
    before: Map<Seq<char>, Map<Seq<u8>, Cell>>,
    after: Map<Seq<char>, Map<Seq<u8>, Cell>>,
)
    ensures
        schema::shape(after).others == schema::shape(before).others ==> migrations::version_in(after)
            == migrations::version_in(before),
{
    migrations::lemma_version(before);
    migrations::lemma_version(after);
}

/// Opening a path gives the registry of the tables that the file held. Where the file held the
/// tables that a registry left, which was current, each ring has the same members in the same
/// order, with the same labels and expiries, and each resource has the same grants; where it held
/// nothing, the registry has the open ring and nothing else.
pub proof fn law_opening_a_path(path: &str, opened: RedbRegistry, closed: RedbRegistry)
    requires
        call_ensures(RedbRegistry::open, (path,), Ok(opened)),
    ensures
        opened.path() == path@,
        opened.ready(),
        opened.complete(),
        exists|db: redb::Database| {
            &&& #[trigger] storage::opened_from(path, db)
            &&& storage::committed(db) == closed.tables() && closed.current() ==> {
                &&& opened.state().rings == closed.state().rings
                &&& opened.state().grants == closed.state().grants
                &&& opened.current()
                &&& forall|table: Seq<char>, key: Seq<u8>|
                    storage::cell(closed.tables(), table, key) is Some ==> #[trigger] storage::cell(
                        opened.tables(),
                        table,
                        key,
                    ) == storage::cell(closed.tables(), table, key)
            }
            &&& storage::committed(db) == Map::<Seq<char>, Map<Seq<u8>, Cell>>::empty() ==> {
                &&& opened.state().rings == Map::<Seq<char>, Seq<MemberState>>::empty().insert(
                    seq!['o', 'p', 'e', 'n'],
                    Seq::empty(),
                )
                &&& opened.state().grants == Map::<Seq<u8>, Seq<GrantState>>::empty()
                &&& opened.current()
            }
        },
{
    let db = choose|db: redb::Database| #[trigger]
        storage::opened_from(path, db) && opened.restores(storage::committed(db));
    if storage::committed(db) == closed.tables() && closed.current() {
        law_reopened(closed, opened);
    }
    if storage::committed(db) == Map::<Seq<char>, Map<Seq<u8>, Cell>>::empty() {
        law_new_registry(opened);
        effects::law_initial();
    }
}

/// What is created where it is missing, row by row: the open ring, without members, and nothing else.
pub proof fn law_bootstrap_row_by_row(found: Map<Seq<char>, Map<Seq<u8>, Cell>>, table: Seq<char>, key: Seq<u8>)
    ensures
        storage::cell(found, table, key) is Some ==> storage::cell(bootstrapped(found), table, key) == storage::cell(
            found,
            table,
            key,
        ),
        storage::cell(found, table, key) is None ==> storage::cell(bootstrapped(found), table, key) == if table
            == "rings"@ && key == vstd::utf8::encode_utf8(seq!['o', 'p', 'e', 'n']) {
            Some(Cell::Bytes(Seq::empty()))
        } else {
            None
        },
        bootstrapped(found).contains_key("rings"@),
        bootstrapped(found).contains_key("resource_rings"@),
        bootstrapped(found).contains_key("labels"@),
        bootstrapped(found).contains_key("expiries"@),
        bootstrapped(found).contains_key("resource_ring_perms"@),
        found.contains_key(table) ==> bootstrapped(found).contains_key(table),
{
    schema::lemma_table_names();
    ring::lemma_open_name_valid();
    assert(codec::concat(Seq::empty()) =~= Seq::empty());
}

/// Opening a database loses no row: the members of its rings, their expiries and labels, and the
/// rings and permissions of its resources are all there afterwards. Only a nickname of an older
/// database takes the place of a label.
pub proof fn law_opening_loses_nothing(db: redb::Database, registry: RedbRegistry, key: Seq<u8>)
    requires
        call_ensures(RedbRegistry::from_database, (db,), Ok(registry)),
    ensures
        ({
            let found = storage::committed(db);
            let after = registry.tables();
            let current = migrations::version_in(found) >= 2;
            &&& storage::cell(found, "rings"@, key) is Some ==> storage::cell(after, "rings"@, key) == storage::cell(
                found,
                "rings"@,
                key,
            )
            &&& storage::cell(after, "expiries"@, key) == storage::cell(found, "expiries"@, key)
            &&& storage::cell(after, "resource_rings"@, key) == storage::cell(found, "resource_rings"@, key)
            &&& storage::cell(found, "resource_ring_perms"@, key) is Some ==> storage::cell(
                after,
                "resource_ring_perms"@,
                key,
            ) == storage::cell(found, "resource_ring_perms"@, key)
            &&& storage::cell(after, "labels"@, key) == if !current && storage::cell(
                found,
                "nicknames"@,
                key,
            ) is Some {
                storage::cell(found, "nicknames"@, key)
            } else {
                storage::cell(found, "labels"@, key)
            }
        }),
{
    let found = storage::committed(db);
    schema::lemma_table_names();
    assert forall|table: Seq<char>, row: Seq<u8>| #[trigger]
        storage::cell(bootstrapped(found), table, row) == storage::cell(found, table, row) || table == "rings"@ && row
            == vstd::utf8::encode_utf8(seq!['o', 'p', 'e', 'n']) by {
        law_bootstrap_row_by_row(found, table, row);
    }
    law_bootstrap_row_by_row(found, "rings"@, key);
    assert(migrations::version_in(bootstrapped(found)) == migrations::version_in(found));
    migrations::law_migration_row_by_row(bootstrapped(found), registry.tables(), key, "rings"@);
}

/// A persistent registry keeps an expiry to the nanosecond, and one before the epoch as the epoch.
pub proof fn law_kept_expiries(end: int)
    ensures
        RedbRegistry::kept_expiry(None) is None,
        end >= 0 ==> RedbRegistry::kept_expiry(Some(end)) == Some(end),
        end < 0 ==> RedbRegistry::kept_expiry(Some(end)) == Some(0int),
{
}

/// A registry is current if its rows fit together and the version of their schema is at least the
/// second.
pub proof fn law_current(registry: RedbRegistry)
    ensures
        registry.current() <==> schema::shape(registry.tables()).coherent() && migrations::version_in(
            registry.tables(),
        ) >= 2,
{
}

} // verus!
