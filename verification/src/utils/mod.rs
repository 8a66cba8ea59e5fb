//! Text handling shared by the query front.

pub mod parse;
