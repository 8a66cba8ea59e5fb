//! What a request asks of the index, and what it is answered.
//!
//! A request is the path of a URI and its query string:
//!
//! - `/` asks for the usage;
//! - `/<version>/queries/count/<range>[?distinct]` asks for the number of
//!   records of a range, or of different queries in it;
//! - `/<version>/queries/popular/<range>[?size=<number>]` asks for the most
//!   frequent queries of a range.
//!
//! The version and the range may be percent-encoded; `rouste` decodes them.

use crate::occurrence::{ids_within, tally};
use crate::solver::{is_top_k, Solver};
use crate::time_range::TimeRange;
use crate::timestamp::Timestamp;
use crate::utils::parse::{
    chars_of, count_param_of, find_char, parse_count_param, parse_whole_number, pieces,
    position_of, split, time_range_of, views_of, whole_number_of,
};
use std::str::FromStr;
use vstd::prelude::*;
use vstd::string::StrSliceExecFns;

verus! {

/// The number of queries that are listed where a request names none.
pub const DEFAULT_SIZE: usize = 10;

pub const STATUS_OK: u16 = 200;

pub const STATUS_BAD_REQUEST: u16 = 400;

pub const STATUS_NOT_FOUND: u16 = 404;

/// What a request asks for.
#[derive(Clone, Copy, Debug, PartialEq, Eq, Structural)]
pub enum Route {
    Usage,
    Count { version: u32, time_range: TimeRange, distinct: bool },
    Popular { version: u32, time_range: TimeRange, size: Option<usize> },
}

/// Why a request asks for nothing.
#[derive(Clone, Copy, Debug, PartialEq, Eq, Structural)]
pub enum RouteError {
    /// The path is none of those that are served.
    NotFound,
    /// The range is not a time range.
    BadRange,
}

/// What a request is answered.
#[derive(Debug)]
pub enum Reply {
    Usage,
    Count { time_range: TimeRange, count: usize },
    Popular { time_range: TimeRange, queries: Vec<(String, usize)> },
}

/// The text that `rouste` decodes a percent-encoded text to, where it
/// decodes it.
pub uninterp spec fn percent_decoded(text: Seq<char>) -> Option<Seq<char>>;

/// Decodes a percent-encoded segment of a path.
///
/// Calls `rouste::utils::percent_decode`. Trusted: the result depends on the
/// text alone.
#[verifier::external_body]
fn percent_decode(data: &str) -> (r: Option<String>)
    ensures
        r.is_some() == percent_decoded(data@).is_some(),
        r matches Some(text) ==> percent_decoded(data@) == Some(text@),
{
    rouste::utils::percent_decode(data)
}

/// The part of a URI before the first `?`.
pub open spec fn path_of(uri: Seq<char>) -> Seq<char> {
    uri.subrange(0, position_of(uri, '?', 0))
}

/// The part of a URI after the first `?`; empty where there is none.
pub open spec fn query_of(uri: Seq<char>) -> Seq<char> {
    let mark = position_of(uri, '?', 0);
    if mark < uri.len() {
        uri.subrange(mark + 1, uri.len() as int)
    } else {
        Seq::empty()
    }
}

/// The segments of a path: its pieces between slashes, but for what stands
/// before the first slash, and for an empty piece after the last.
pub open spec fn segments_of(path: Seq<char>) -> Seq<Seq<char>> {
    let all = pieces(path, '/', 0);
    let kept = if all.last().len() == 0 {
        all.drop_last()
    } else {
        all
    };
    if kept.len() == 0 {
        kept
    } else {
        kept.drop_first()
    }
}

/// The version that a decoded segment writes.
pub open spec fn version_of(decoded: Option<Seq<char>>) -> Option<u32> {
    match decoded {
        Some(text) => match whole_number_of(text, u32::MAX as nat) {
            Some(version) => Some(version as u32),
            None => None,
        },
        None => None,
    }
}

/// The time range that a decoded segment names.
pub open spec fn range_of(decoded: Option<Seq<char>>) -> Option<TimeRange> {
    match decoded {
        Some(text) => match time_range_of(text) {
            Some((from, to)) => Some(
                TimeRange {
                    from: Timestamp { minutes: from as i64 },
                    to: Timestamp { minutes: to as i64 },
                },
            ),
            None => None,
        },
        None => None,
    }
}

/// The size that the first parameter `size=<number>` from `from` on gives.
pub open spec fn size_of(params: Seq<Seq<char>>, from: int) -> Option<usize>
    decreases params.len() - from,
{
    if from < 0 || from >= params.len() {
        None
    } else {
        match count_param_of(params[from]) {
            Some(size) => Some(size as usize),
            None => size_of(params, from + 1),
        }
    }
}

/// What the request with the given URI asks for.
pub open spec fn route_of(uri: Seq<char>) -> Result<Route, RouteError> {
    let segments = segments_of(path_of(uri));
    let params = pieces(query_of(uri), '&', 0);
    if segments.len() == 0 {
        Ok(Route::Usage)
    } else if segments.len() != 4 || version_of(percent_decoded(segments[0])) is None
        || segments[1] != "queries"@ || (segments[2] != "count"@ && segments[2] != "popular"@) {
        Err(RouteError::NotFound)
    } else {
        let version = version_of(percent_decoded(segments[0])).unwrap();
        match range_of(percent_decoded(segments[3])) {
            None => Err(RouteError::BadRange),
            Some(time_range) => if segments[2] == "count"@ {
                Ok(Route::Count { version, time_range, distinct: params.contains("distinct"@) })
            } else {
                Ok(Route::Popular { version, time_range, size: size_of(params, 0) })
            },
        }
    }
}

/// Whether two texts are the same.
fn same_text(a: &str, b: &str) -> (r: bool)
    ensures
        r == (a@ == b@),
{
    let left = chars_of(a);
    let right = chars_of(b);
    if left.len() != right.len() {
        return false;
    }
    let mut at: usize = 0;
    while at < left.len()
        invariant
            left@ == a@,
            right@ == b@,
            left@.len() == right@.len(),
            at <= left@.len(),
            left@.subrange(0, at as int) == right@.subrange(0, at as int),
        decreases left@.len() - at,
    {
        if left[at] != right[at] {
            return false;
        }
        assert(left@.subrange(0, at + 1) == left@.subrange(0, at as int).push(left@[at as int]));
        assert(right@.subrange(0, at + 1) == right@.subrange(0, at as int).push(
            right@[at as int],
        ));
        at = at + 1;
    }
    assert(left@.subrange(0, at as int) == left@);
    assert(right@.subrange(0, at as int) == right@);
    true
}

/// The version that a segment writes, once it is decoded.
pub fn version_from(decoded: Option<String>) -> (r: Option<u32>)
    ensures
        r == version_of(
            match decoded {
                Some(text) => Some(text@),
                None => None,
            },
        ),
{
    match decoded {
        Some(text) => match parse_whole_number(text.as_str(), u32::MAX as u64) {
            Some(version) => Some(version as u32),
            None => None,
        },
        None => None,
    }
}

/// The time range that a segment names, once it is decoded.
pub fn range_from(decoded: Option<String>) -> (r: Option<TimeRange>)
    ensures
        r == range_of(
            match decoded {
                Some(text) => Some(text@),
                None => None,
            },
        ),
{
    match decoded {
        Some(text) => match TimeRange::from_str(text.as_str()) {
            Ok(time_range) => Some(time_range),
            Err(_) => None,
        },
        None => None,
    }
}

/// Whether one of the parameters is `name`.
fn has_flag(params: &Vec<&str>, name: &str) -> (r: bool)
    ensures
        r == views_of(params@).contains(name@),
{
    let mut at: usize = 0;
    while at < params.len()
        invariant
            at <= params@.len(),
            forall|i: int| 0 <= i < at ==> views_of(params@)[i] != name@,
        decreases params@.len() - at,
    {
        if same_text(params[at], name) {
            assert(views_of(params@)[at as int] == name@);
            return true;
        }
        at = at + 1;
    }
    false
}

/// The size that the first parameter `size=<number>` gives.
fn find_size(params: &Vec<&str>) -> (r: Option<usize>)
    ensures
        r == size_of(views_of(params@), 0),
{
    let mut at: usize = 0;
    while at < params.len()
        invariant
            at <= params@.len(),
            size_of(views_of(params@), at as int) == size_of(views_of(params@), 0),
        decreases params@.len() - at,
    {
        assert(views_of(params@)[at as int] == params@[at as int]@);
        match parse_count_param(params[at]) {
            Some(size) => {
                return Some(size);
            },
            None => {},
        }
        at = at + 1;
    }
    None
}

/// The segments of a path.
fn segments<'a>(path: &'a str) -> (r: Vec<&'a str>)
    ensures
        views_of(r@) == segments_of(path@),
{
    let mut all = split(path, '/');
    let ghost whole = views_of(all@);
    let count = all.len();
    assert(whole.len() >= 1);
    if all[count - 1].unicode_len() == 0 {
        all.pop();
        assert(views_of(all@) == whole.drop_last());
    }
    if all.len() > 0 {
        let ghost kept = views_of(all@);
        all.remove(0);
        assert(views_of(all@) == kept.drop_first());
    }
    all
}

/// Reads what a request asks for from its URI, the path and the query
/// string with a `?` between them.
pub fn route(uri: &str) -> (r: Result<Route, RouteError>)
    ensures
        r == route_of(uri@),
{
    let chars = chars_of(uri);
    let mark = find_char(chars.as_slice(), '?', 0);
    let path = uri.substring_char(0, mark);
    let query = if mark < chars.len() {
        uri.substring_char(mark + 1, chars.len())
    } else {
        uri.substring_char(mark, mark)
    };
    assert(query@ == query_of(uri@));
    let parts = segments(path);
    let params = split(query, '&');
    let ghost names = views_of(parts@);
    if parts.len() == 0 {
        return Ok(Route::Usage);
    }
    if parts.len() != 4 {
        return Err(RouteError::NotFound);
    }
    assert(names[0] == parts@[0]@ && names[1] == parts@[1]@ && names[2] == parts@[2]@ && names[3]
        == parts@[3]@);
    let version = match version_from(percent_decode(parts[0])) {
        Some(version) => version,
        None => {
            return Err(RouteError::NotFound);
        },
    };
    if !same_text(parts[1], "queries") {
        return Err(RouteError::NotFound);
    }
    let counting = same_text(parts[2], "count");
    if !counting && !same_text(parts[2], "popular") {
        return Err(RouteError::NotFound);
    }
    let time_range = match range_from(percent_decode(parts[3])) {
        Some(time_range) => time_range,
        None => {
            return Err(RouteError::BadRange);
        },
    };
    if counting {
        Ok(Route::Count { version, time_range, distinct: has_flag(&params, "distinct") })
    } else {
        Ok(Route::Popular { version, time_range, size: find_size(&params) })
    }
}

/// The number of records of a range or, where `distinct` is set, of
/// different queries in it.
pub fn handle_count(solver: &Solver, time_range: TimeRange, distinct: bool) -> (count: usize)
    ensures
        count == if distinct {
            ids_within(solver.records(), time_range.from@, time_range.to@).len()
        } else {
            tally(solver.records(), time_range.from@, time_range.to@, None)
        },
{
    if distinct {
        solver.query_distinct_count(&time_range.from, &time_range.to)
    } else {
        solver.query_count(&time_range.from, &time_range.to)
    }
}

/// The number of queries to list: the size given, or ten.
pub open spec fn size_or_default(size: Option<usize>) -> int {
    match size {
        Some(k) => k as int,
        None => DEFAULT_SIZE as int,
    }
}

/// The most frequent queries of a range: as many as `size` says, or ten.
pub fn handle_popular(solver: &Solver, time_range: TimeRange, size: Option<usize>) -> (queries:
    Vec<(String, usize)>)
    ensures
        solver.records().len() <= usize::MAX,
        is_top_k(
            queries@,
            solver.records(),
            solver.texts(),
            time_range.from@,
            time_range.to@,
            size_or_default(size),
        ),
{
    let k = match size {
        Some(k) => k,
        None => DEFAULT_SIZE,
    };
    solver.query_k_count(&time_range.from, &time_range.to, k)
}

/// Whether `reply` answers what `asked` asks of `solver`.
pub open spec fn answers(solver: Solver, asked: Route, reply: Reply) -> bool {
    match asked {
        Route::Usage => reply is Usage,
        Route::Count { version, time_range, distinct } => match reply {
            Reply::Count { time_range: echoed, count } => echoed == time_range && count == if distinct {
                ids_within(solver.records(), time_range.from@, time_range.to@).len()
            } else {
                tally(solver.records(), time_range.from@, time_range.to@, None)
            },
            _ => false,
        },
        Route::Popular { version, time_range, size } => match reply {
            Reply::Popular { time_range: echoed, queries } => echoed == time_range && is_top_k(
                queries@,
                solver.records(),
                solver.texts(),
                time_range.from@,
                time_range.to@,
                size_or_default(size),
            ),
            _ => false,
        },
    }
}

/// Answers a request from the index: the usage, a count or the most
/// frequent queries for the request that asks for one, and for any other why
/// it asks for nothing.
pub fn handle_request(uri: &str, solver: &Solver) -> (r: Result<Reply, RouteError>)
    ensures
        match r {
            Ok(reply) => route_of(uri@) matches Ok(asked) && answers(*solver, asked, reply),
            Err(error) => route_of(uri@) == Err::<Route, RouteError>(error),
        },
{
    match route(uri) {
        Ok(Route::Usage) => Ok(Reply::Usage),
        Ok(Route::Count { version, time_range, distinct }) => {
            let count = handle_count(solver, time_range, distinct);
            let reply = Reply::Count { time_range, count };
            assert(answers(*solver, Route::Count { version, time_range, distinct }, reply));
            Ok(reply)
        },
        Ok(Route::Popular { version, time_range, size }) => {
            let queries = handle_popular(solver, time_range, size);
            let reply = Reply::Popular { time_range, queries };
            assert(answers(*solver, Route::Popular { version, time_range, size }, reply));
            Ok(reply)
        },
        Err(error) => Err(error),
    }
}

/// The status of the response: 200 for an answer, 400 for a range that is
/// none, 404 for a path that is not served.
pub fn status_of(outcome: &Result<Reply, RouteError>) -> (status: u16)
    ensures
        status == match outcome {
            Ok(_) => STATUS_OK,
            Err(RouteError::BadRange) => STATUS_BAD_REQUEST,
            Err(RouteError::NotFound) => STATUS_NOT_FOUND,
        },
{
    match outcome {
        Ok(_) => STATUS_OK,
        Err(RouteError::BadRange) => STATUS_BAD_REQUEST,
        Err(RouteError::NotFound) => STATUS_NOT_FOUND,
    }
}

} // verus!
