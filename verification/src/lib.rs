//! A persistence engine for a chat application: it stores users, rooms and
//! messages and serves paginated, reverse-chronological message history per
//! room, over an ordered, column-partitioned key-value store.
//!
//! - [`types`] — the entity model: identity, equality and construction rules.
//! - [`order`] — byte-lexicographic order and the big-endian rendering whose
//!   byte order is numeric order.
//! - [`keys`] — the message-key scheme: room, reverse rank, identifier.
//! - [`codec`] — the binary record format, with a proved round trip.
//! - [`kv`] — one ordered keyspace: sorted entries, point ops, scan bounds.
//! - [`store`] — the concrete engine over three such columns, with exact
//!   contracts for every operation.
//! - [`db`] — the capability interface any backing engine must satisfy.
//! - [`laws`] — the engine's laws, proved once: round trips, newest-first
//!   order, pagination completeness and sizing, tie-break stability.
//! - [`sys`] — the two trusted touches of the outside world: fresh
//!   identifiers and the wall clock.

pub mod codec;
pub mod db;
pub mod keys;
pub mod kv;
pub mod laws;
pub mod order;
pub mod store;
pub mod sys;
pub mod types;
