//! The tailing and indexing core of an append-only event log: a sparse
//! index from line numbers to byte offsets, the line format of events,
//! queries and their subscriptions, and the scanner whose worker serves
//! every subscription of a log with one shared pass per tick.

pub mod config;
pub mod error;
pub mod event;
pub mod lines_index;
pub mod query;
pub mod scanner;
