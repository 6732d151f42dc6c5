//! A personal time-tracking ledger library.
//!
//! The ledger is a plain-text file of dated, per-project time ranges.  This
//! crate holds the verified core: the calendar and time model, the
//! line-oriented ledger parser, and the week-based billing report engine.
//! Reading the ledger file, the terminal front end and the demo generator
//! live outside the library and talk to it through plain values.

pub mod append;
pub mod error;
pub mod menu;
pub mod model;
pub mod parse;
pub mod report;
pub mod text;
pub mod watch;
