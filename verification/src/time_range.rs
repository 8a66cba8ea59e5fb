//! A closed range of instants, as a request names it.

use crate::timestamp::Timestamp;
use crate::utils::parse::{parse_time_range, time_range_of};
use std::str::FromStr;
use vstd::prelude::*;

verus! {

/// The instants from `from` to `to`, both included.
#[derive(Clone, Copy, Debug, PartialEq, Eq, Structural)]
pub struct TimeRange {
    pub from: Timestamp,
    pub to: Timestamp,
}

impl FromStr for TimeRange {
    type Err = ();

    /// The range that `data` names in the shorthand
    /// `YYYY[-MM[-DD[ hh[:mm]]]]`: the whole of the finest unit named.
    fn from_str(data: &str) -> (r: Result<Self, Self::Err>)
        ensures
            r.is_ok() == time_range_of(data@).is_some(),
            r matches Ok(range) ==> time_range_of(data@) == Some((range.from@, range.to@))
                && range.from@ <= range.to@,
    {
        let maybe_time_range = parse_time_range(data);
        match maybe_time_range {
            Some((from, to)) => Ok(TimeRange { from, to }),
            None => Err(()),
        }
    }
}

} // verus!
