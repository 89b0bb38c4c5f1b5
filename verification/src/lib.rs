//! A small in-memory entity store: users with cash balances and savings
//! objectives tied to users, mirrored to two delimiter-encoded flat text
//! files ("snapshot on write").
//!
//! The crate is organised leaf-first:
//! - [`structs`]: the record types and their mathematical views;
//! - [`codec`]: one record to or from one delimited text line;
//! - [`tables`]: the in-memory tables with id allocation and uniqueness;
//! - [`persist`]: whole-table snapshots to and from file text;
//! - [`store`]: the concurrent store behind reader/writer locks.
//!
//! File reading and writing, and the transport layer that turns requests
//! into store calls, live outside the library: the library computes the
//! snapshot text and parses file text handed to it.

pub mod codec;
pub mod persist;
pub mod store;
pub mod structs;
pub mod tables;

use vstd::prelude::*;

verus! {

/// Outcomes an operation can report to its caller.
#[derive(Clone, Copy, Debug, PartialEq, Eq, Structural)]
pub enum StoreError {
    /// A referenced user does not exist.
    NotFound,
    /// A persisted line cannot be parsed; scoped to load time.
    MalformedRecord,
}

} // verus!
