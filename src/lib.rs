//! A personal work-time ledger: a line-oriented week file, the operations
//! that start and stop tracking in it, and the report derived from it.

pub mod calendar;
pub mod document;
pub mod config;
pub mod paths;
pub mod tracker;
pub mod report;
pub mod text;
pub mod grammar;
pub mod serialize;
pub mod round_trip;
