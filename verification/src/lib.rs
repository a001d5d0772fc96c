//! Core of a fault-tolerant actor runtime: a work-stealing task executor
//! modelled as a verified state machine, and the hierarchical actor-path
//! addressing scheme with its append automaton.
//!
//! The executor's queues, load statistics and scheduling decisions live in
//! [`queue`], [`stats`] and [`executor`]; the actor addresses and their
//! legality rules in [`path`].

pub mod executor;
pub mod path;
pub mod queue;
pub mod stats;
