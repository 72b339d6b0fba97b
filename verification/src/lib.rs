//! A priority-aware task ledger kept as Markdown text.
//!
//! The ledger is one `todos.md` file per company. This crate holds everything
//! about it that does not touch the outside world: the data model, the reader
//! and the writer of the Markdown form, the operations on the model, the
//! calendar arithmetic behind the timestamps, and the audit records.

pub mod calendar;
pub mod canonical;
pub mod cli;
pub mod decimal;
pub mod effects;
pub mod events;
pub mod laws;
pub mod ledger;
pub mod listing;
pub mod model;
pub mod ops;
pub mod parser;
pub mod paths;
pub mod reading;
pub mod reports;
pub mod roundtrip;
pub mod text;
pub mod writer;

pub use model::{Item, Priority, Todos, WeightOutput, WeightedItem};
pub use ops::parse_iso8601_secs;
