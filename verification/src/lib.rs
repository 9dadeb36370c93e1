//! Ring-based, permission-typed access control for resources over iroh protocols.
//!
//! A **ring** is a named group of peers. Resources are associated with rings together
//! with a set of [`Permission`]s; every member of a ring inherits those permissions on
//! the resource. There are no per-peer overrides: rings are the single access-control
//! unit.
//!
//! Three permissions cover the operations a remote peer may request:
//!
//! | [`Permission`] | Remote operation |
//! |---|---|
//! | `Read`   | Download the resource |
//! | `Write`  | Push or update the resource (only into rings the peer belongs to) |
//! | `Delete` | Remove the ring–resource association (underlying data is untouched) |
//!
//! The built-in [`OPEN_RING_NAME`] ring is read-only: it grants [`Permission::Read`]
//! to any peer regardless of membership.
//!
//! What a registry means is said in [`model`]. What each operation does to single memberships and
//! grants is proved in [`effects`], what holds of every registry in [`laws`], and what holds after
//! every sequence of calls in [`history`]. The [`backends`] are proved to behave as the model says,
//! and the [`protocol`] to let nobody through who may not.

pub mod assoc;
pub mod backends;
pub mod effects;
pub mod endpoint;
pub mod error;
pub mod history;
pub mod laws;
pub mod model;
pub mod octets;
pub mod protocol;
pub mod registry;
pub mod ring;
pub mod time;
pub mod transfers;

pub use backends::memory::InMemoryRegistry;
pub use backends::redb::RedbRegistry;
pub use endpoint::EndpointId;
pub use error::Error;
pub use protocol::gate::RingGate;
pub use protocol::RINGS_ALPN as ALPN;
pub use registry::{Permission, Registry, ResourceId};
pub use ring::{Ring, OPEN_RING_NAME};
pub use time::Timestamp;
