//! Two cores of a blockchain-style node, with their behaviour stated in
//! contracts and proved.
//!
//! The gossip overlay keeps, per topic, a small active view of peers that
//! messages are exchanged with and a larger passive view held in reserve, after
//! the HyParView membership protocol. [`topic::Topic`] is the overlay as a state
//! machine: events of the network layer go in, commands for the network layer
//! and payloads for the subscribers come out. [`protocol`] says what each event
//! and each message makes of a topic; [`membership`], [`history`], [`peer`],
//! [`wire`], [`network`] and [`config`] hold what the two are made of, and
//! [`random`] the draws that the protocol takes.
//!
//! The scheduler runs a batch of transactions in an order that respects their
//! read and write dependencies. [`refs`] finds the accounts that a transaction
//! reads and writes, [`dependency`] the forest that the conflicts among them
//! form, [`schedule`] lays a batch out over that forest and runs it tree by
//! tree and row by row ([`rows`]), and [`outcome`] says what each transaction
//! sees when it runs. [`forest`] holds what is true of such forests, [`graph`]
//! the graph collections the schedule is kept in, and [`primitives`] and
//! [`state`] the accounts, transactions and stores that it all works on.
//!
//! [`entrypoint`] checks the signature that the entrypoint of a predicate must have.

pub mod config;
pub mod dependency;
pub mod entrypoint;
pub mod forest;
pub mod graph;
pub mod history;
pub mod membership;
pub mod network;
pub mod outcome;
pub mod peer;
pub mod primitives;
pub mod protocol;
pub mod random;
pub mod refs;
pub mod rows;
pub mod schedule;
pub mod state;
pub mod topic;
pub mod wire;
