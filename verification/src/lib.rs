//! Counts and most frequent queries over a log of timestamped text queries.
//!
//! The log is indexed once: the minutes that occur, in order, each with the
//! fingerprints of the queries recorded in it; a range tree over the
//! minutes, which snaps a range of time to the minutes that occur in it; a
//! segment tree over the number of records of each minute, which sums a
//! stretch of them; and the text behind each fingerprint. A min-heap of
//! bounded size picks the most frequent queries of a range.
//!
//! Requests name a range of time in the shorthand
//! `YYYY[-MM[-DD[ hh[:mm]]]]`, which stands for the whole of the finest unit
//! named.

pub mod monoid;
pub mod occurrence;
pub mod record;
pub mod selection;
pub mod service;
pub mod solver;
pub mod time_range;
pub mod timestamp;
pub mod tree;
pub mod utils;
