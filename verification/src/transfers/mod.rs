//! What a transfer decides.
//!
//! A transfer defines the sub-protocol that runs after a request has been granted. [`fs`] holds
//! the decisions of the one that streams blobs, and [`ranges`] the chunk ranges that it
//! negotiates.

pub mod fs;
pub mod ranges;
