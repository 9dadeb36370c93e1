//! [`Registry`](crate::registry::Registry) backends.
//!
//! Each backend has the same ring-management and access-control semantics;
//! they differ only in persistence:
//!
//! | Backend | Persistence |
//! |---------|-------------|
//! | [`memory`] | In-process only, lost on drop |
//! | [`redb`] | Durable, in an embedded database file |

pub mod eviction;
pub mod memory;
pub mod redb;
