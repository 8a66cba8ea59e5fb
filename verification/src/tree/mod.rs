//! The index structures: a range tree over the observed instants, a segment
//! tree over their record counts, and a min-heap for selections.

pub mod heap;
pub mod range_tree;
pub mod segment_tree;
