//! A verified core for a flat-file work-interval timesheet.
//!
//! Work intervals ("entries") are kept in a comma-delimited text store, one
//! row per entry with a header line.  This crate holds the verified logic:
//! the row codec, the whole-file store operations (load, append,
//! identity-update, identity-delete, duplicate purge), the recency-ranked
//! suggestion index, duration aggregation, and the decision core of the
//! remote work-log synchronisation protocol.  File and network I/O live in
//! the surrounding application, which hands this crate plain values.

pub mod entry;
pub mod numfmt;
pub mod strutil;
pub mod caldate;
pub mod trusted;
pub mod codec;
pub mod store;
pub mod toggl;
pub mod suggest;
pub mod agg;
pub mod jira;
