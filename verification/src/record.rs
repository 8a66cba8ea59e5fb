//! The lines of the log: a timestamp `YYYY-MM-DD hh:mm:ss`, a tab, the
//! query text; and the fingerprint that stands for a query text.

use crate::timestamp::Timestamp;
use crate::utils::parse::{chars_of, find_char, position_of};
use chrono::Timelike;
use std::collections::hash_map::DefaultHasher;
use std::hash::Hasher;
use vstd::prelude::*;
use vstd::std_specs::hash::DefaultHasherAdditionalSpecFns;
use vstd::string::StrSliceExecFns;
use vstd::utf8::encode_utf8;

verus! {

/// The fingerprint of a query text: what the standard hasher makes of the
/// bytes of the text and the byte `0xff` after them. Equal texts have equal
/// fingerprints; different texts may.
pub open spec fn fingerprint_of(text: Seq<char>) -> u64 {
    DefaultHasher::spec_finish(seq![encode_utf8(text), seq![0xffu8]])
}

/// The fingerprint of a query text.
pub fn fingerprint(text: &str) -> (id: u64)
    ensures
        id == fingerprint_of(text@),
{
    let mut hasher = DefaultHasher::new();
    hasher.write(text.as_bytes());
    let end: [u8; 1] = [0xff];
    let tail = end.as_slice();
    assert(tail@ =~= seq![0xffu8]);
    hasher.write(tail);
    assert(hasher@ =~= seq![encode_utf8(text@), seq![0xffu8]]);
    hasher.finish()
}

/// The day number and the second of the day that `chrono` reads from a
/// timestamp of the log, where it reads one.
pub uninterp spec fn log_moment(text: Seq<char>) -> Option<(i32, u32)>;

/// Reads a timestamp of the log.
///
/// Calls `chrono::NaiveDateTime::parse_from_str` with the format `%F %T` and
/// hands the result on as the days since 1970-01-01 and the seconds since
/// midnight. Trusted: the result depends on the text alone.
#[verifier::external_body]
fn parse_log_moment(text: &str) -> (r: Option<(i32, u32)>)
    ensures
        r == log_moment(text@),
{
    match chrono::NaiveDateTime::parse_from_str(text, "%F %T") {
        Ok(moment) => Some(
            (moment.date().to_epoch_days(), moment.time().num_seconds_from_midnight()),
        ),
        Err(_) => None,
    }
}

/// The minute of a day number and a second of the day; the seconds within
/// the minute are dropped.
pub open spec fn minute_of(day: i32, second: u32) -> int {
    day * 1440 + second / 60
}

/// The first two tab-separated fields of a line, where it has two.
pub open spec fn fields_of(line: Seq<char>) -> Option<(Seq<char>, Seq<char>)> {
    let first_end = position_of(line, '\t', 0);
    if first_end < line.len() {
        Some(
            (
                line.subrange(0, first_end),
                line.subrange(first_end + 1, position_of(line, '\t', first_end + 1)),
            ),
        )
    } else {
        None
    }
}

/// What a line of the log records: the minute and the query text, where the
/// line has two fields and the first is a timestamp.
pub open spec fn record_of(line: Seq<char>) -> Option<(int, Seq<char>)> {
    match fields_of(line) {
        Some((stamp, text)) => match log_moment(stamp) {
            Some((day, second)) => Some((minute_of(day, second), text)),
            None => None,
        },
        None => None,
    }
}

/// The record that a moment read from the first field and the text of the
/// second make.
pub fn record_at(moment: Option<(i32, u32)>, text: &str) -> (r: Option<(Timestamp, String)>)
    ensures
        match (moment, r) {
            (Some((day, second)), Some((minute, owned))) => minute@ == minute_of(day, second)
                && owned@ == text@,
            (None, None) => true,
            _ => false,
        },
{
    match moment {
        Some((day, second)) => Some(
            (Timestamp::from_day_and_minute(day, second / 60), text.to_owned()),
        ),
        None => None,
    }
}

/// Reads a line of the log.
pub fn parse_record(line: &str) -> (r: Option<(Timestamp, String)>)
    ensures
        match r {
            Some((minute, text)) => record_of(line@) == Some((minute@, text@)),
            None => record_of(line@) is None,
        },
{
    let chars = chars_of(line);
    let first_end = find_char(chars.as_slice(), '\t', 0);
    if first_end >= chars.len() {
        return None;
    }
    let second_end = find_char(chars.as_slice(), '\t', first_end + 1);
    let stamp = line.substring_char(0, first_end);
    let text = line.substring_char(first_end + 1, second_end);
    record_at(parse_log_moment(stamp), text)
}

} // verus!
