//! A group-messaging directory: named channels with a single owner, a
//! bidirectional channel/member relation, a join-request approval workflow,
//! an append-and-tombstone message ledger per channel, and paginated read
//! queries over all of it.
//!
//! Every operation takes the attested caller identity (and, where a record is
//! stamped, a logical timestamp) as a plain argument; the surrounding
//! execution environment supplies both and serializes calls, so each method
//! here is one atomic step against the shared state. Each successful mutation
//! appends its domain events to an in-state event log for the environment to
//! deliver.

pub mod channels;
pub mod directory;
pub mod errors;
pub mod events;
pub mod membership;
pub mod messages;
pub mod pagination;
pub mod requests;
pub mod types;
