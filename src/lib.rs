//! An event-sourced state container: a value that changes only by folding
//! transitions, each of which is appended to a log before it is applied.

mod clock;
pub mod contract;
pub mod database;
pub mod decimal;
pub mod ints;
pub mod record;

pub use contract::{AppendOnly, LogSink, WriteError};
pub use database::{Database, ReplayError};
pub use ints::IntegerTransitions;
