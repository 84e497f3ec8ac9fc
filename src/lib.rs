//! A bounded fan-in external merge engine for newline-delimited JSON records
//! sorted by an integer key, with the small helpers of the surrounding data
//! pipeline.
//!
//! - `key`: the sort key of a record, read through a JSON pointer.
//! - `heap`: the min-priority structure of pending records.
//! - `merge`: the k-way merge of sorted runs.
//! - `stream`: the same merge, driven one line at a time by the caller.
//! - `schedule`: batches, rounds, intermediate file names, the working directory.
//! - `decimal`: decimal text of integers.
//! - `changes`, `fetch`: query URLs and choices of the data fetching steps.
pub mod decimal;
pub mod heap;
pub mod merge;
pub mod key;
pub mod schedule;
pub mod stream;
pub mod changes;
pub mod fetch;
