//! Which names an account was seen under, and on which days.
//!
//! Observations arrive in batches, in one of three text formats. Each line is
//! read into identifier, name and timestamps, normalized into a record with an
//! ascending set of calendar dates, and merged into a store that answers
//! lookups by account and counts what it holds.

pub mod date;
pub mod dateset;
pub mod decimal;
pub mod error;
pub mod import;
pub mod logging;
pub mod lookup;
pub mod outside;
pub mod record;
pub mod report;
pub mod source;
pub mod text;
