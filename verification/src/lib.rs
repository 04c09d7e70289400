//! A small persistent ledger for a discussion forum: registered users,
//! discussion topics, and one-vote-per-user-per-discussion ballots, kept in
//! durable key-ordered tables with a shared monotonic identifier counter.
pub mod types;
pub mod codec;
pub mod store;
pub mod model;
pub mod ledger;
