//! The shorthand for time ranges, `YYYY[-MM[-DD[ hh[:mm]]]]`, and the
//! `size=` parameter.
//!
//! A parser here works on the characters of its input and a position in
//! them; it returns what it read and the position after it.

use crate::timestamp::{
    calendar_epoch_day, days_in_month, days_in_year, epoch_minute, is_calendar_date,
    is_clock_time, lemma_month_length, lemma_year_length, Timestamp,
};
use vstd::prelude::*;
use vstd::string::StrSliceExecFns;

verus! {

/// Whether `c` is one of the decimal digits `0` to `9`.
pub open spec fn is_digit(c: char) -> bool {
    '0' <= c && c <= '9'
}

/// The number that the digit `c` writes.
pub open spec fn digit_value(c: char) -> nat {
    (c as int - '0' as int) as nat
}

/// The end of the longest run of decimal digits that starts at `from`.
pub open spec fn digits_end(s: Seq<char>, from: int) -> int
    decreases s.len() - from,
{
    if 0 <= from < s.len() && is_digit(s[from]) {
        digits_end(s, from + 1)
    } else {
        from
    }
}

/// The number that the decimal digits `s[from..to]` write.
pub open spec fn decimal_value(s: Seq<char>, from: int, to: int) -> nat
    decreases to - from,
{
    if to <= from {
        0
    } else {
        decimal_value(s, from, to - 1) * 10 + digit_value(s[to - 1])
    }
}

/// The unsigned decimal number at `from` and the position after it: the
/// longest run of digits there, which must not be empty nor write a number
/// above `limit`.
pub open spec fn number_at(s: Seq<char>, from: int, limit: nat) -> Option<(nat, int)> {
    let to = digits_end(s, from);
    if from < to && decimal_value(s, from, to) <= limit {
        Some((decimal_value(s, from, to), to))
    } else {
        None
    }
}

/// The number that follows the separator `sep` at `at`, and the position
/// after it.
pub open spec fn field_after(s: Seq<char>, at: int, sep: char) -> Option<(nat, int)> {
    if 0 <= at < s.len() && s[at] == sep {
        number_at(s, at + 1, u32::MAX as nat)
    } else {
        None
    }
}

/// What a time range names: a year, or a month, day, hour or minute in it.
#[derive(Clone, Copy, Debug, PartialEq, Eq, Structural)]
pub enum Prefix {
    Year { year: i32 },
    Month { year: i32, month: u32 },
    Day { year: i32, month: u32, day: u32 },
    Hour { year: i32, month: u32, day: u32, hour: u32 },
    Minute { year: i32, month: u32, day: u32, hour: u32, minute: u32 },
}

/// The grammar `YYYY ('-' MM ('-' DD (' ' hh (':' mm)?)?)?)?`: the fields
/// that `s` names, where all of `s` is such a text.
pub open spec fn prefix_of(s: Seq<char>) -> Option<Prefix> {
    match number_at(s, 0, i32::MAX as nat) {
        None => None,
        Some((year, p1)) => if p1 == s.len() {
            Some(Prefix::Year { year: year as i32 })
        } else {
            match field_after(s, p1, '-') {
                None => None,
                Some((month, p2)) => if p2 == s.len() {
                    Some(Prefix::Month { year: year as i32, month: month as u32 })
                } else {
                    match field_after(s, p2, '-') {
                        None => None,
                        Some((day, p3)) => if p3 == s.len() {
                            Some(
                                Prefix::Day {
                                    year: year as i32,
                                    month: month as u32,
                                    day: day as u32,
                                },
                            )
                        } else {
                            match field_after(s, p3, ' ') {
                                None => None,
                                Some((hour, p4)) => if p4 == s.len() {
                                    Some(
                                        Prefix::Hour {
                                            year: year as i32,
                                            month: month as u32,
                                            day: day as u32,
                                            hour: hour as u32,
                                        },
                                    )
                                } else {
                                    match field_after(s, p4, ':') {
                                        None => None,
                                        Some((minute, p5)) => if p5 == s.len() {
                                            Some(
                                                Prefix::Minute {
                                                    year: year as i32,
                                                    month: month as u32,
                                                    day: day as u32,
                                                    hour: hour as u32,
                                                    minute: minute as u32,
                                                },
                                            )
                                        } else {
                                            None
                                        },
                                    }
                                },
                            }
                        },
                    }
                },
            }
        },
    }
}

impl Prefix {
    /// Whether the unit exists in the calendar and the unit after it has a
    /// first minute.
    pub open spec fn is_valid(self) -> bool {
        match self {
            Prefix::Year { year } => is_calendar_date(year as int, 1, 1) && is_calendar_date(
                year + 1,
                1,
                1,
            ),
            Prefix::Month { year, month } => is_calendar_date(year as int, month as int, 1) && (
            month == 12 ==> is_calendar_date(year + 1, 1, 1)),
            Prefix::Day { year, month, day } => is_calendar_date(
                year as int,
                month as int,
                day as int,
            ),
            Prefix::Hour { year, month, day, hour } => is_calendar_date(
                year as int,
                month as int,
                day as int,
            ) && hour < 24,
            Prefix::Minute { year, month, day, hour, minute } => is_calendar_date(
                year as int,
                month as int,
                day as int,
            ) && is_clock_time(hour as int, minute as int),
        }
    }

    /// The first minute of the unit.
    pub open spec fn first_minute(self) -> int {
        match self {
            Prefix::Year { year } => epoch_minute(year as int, 1, 1, 0, 0),
            Prefix::Month { year, month } => epoch_minute(year as int, month as int, 1, 0, 0),
            Prefix::Day { year, month, day } => epoch_minute(
                year as int,
                month as int,
                day as int,
                0,
                0,
            ),
            Prefix::Hour { year, month, day, hour } => epoch_minute(
                year as int,
                month as int,
                day as int,
                hour as int,
                0,
            ),
            Prefix::Minute { year, month, day, hour, minute } => epoch_minute(
                year as int,
                month as int,
                day as int,
                hour as int,
                minute as int,
            ),
        }
    }

    /// The first minute of the unit that follows.
    pub open spec fn next_first_minute(self) -> int {
        match self {
            Prefix::Year { year } => epoch_minute(year + 1, 1, 1, 0, 0),
            Prefix::Month { year, month } => if month == 12 {
                epoch_minute(year + 1, 1, 1, 0, 0)
            } else {
                epoch_minute(year as int, month + 1, 1, 0, 0)
            },
            Prefix::Day { .. } => self.first_minute() + 1440,
            Prefix::Hour { .. } => self.first_minute() + 60,
            Prefix::Minute { .. } => self.first_minute() + 1,
        }
    }

    /// The last minute of the unit.
    pub open spec fn last_minute(self) -> int {
        self.next_first_minute() - 1
    }

    /// The length of the unit in minutes.
    pub open spec fn unit_minutes(self) -> int {
        match self {
            Prefix::Year { year } => days_in_year(year as int) * 1440,
            Prefix::Month { year, month } => days_in_month(year as int, month as int) * 1440,
            Prefix::Day { .. } => 1440,
            Prefix::Hour { .. } => 60,
            Prefix::Minute { .. } => 1,
        }
    }

    /// The first and the last minute of the unit, where it is valid.
    pub fn range(&self) -> (r: Option<(Timestamp, Timestamp)>)
        ensures
            r.is_some() == self.is_valid(),
            r matches Some((from, to)) ==> from@ == self.first_minute() && to@
                == self.last_minute(),
    {
        match *self {
            Prefix::Year { year } => {
                let first = match calendar_epoch_day(year, 1, 1) {
                    Some(n) => n,
                    None => { return None; },
                };
                let next = match calendar_epoch_day(year + 1, 1, 1) {
                    Some(n) => n,
                    None => { return None; },
                };
                let from = Timestamp::from_epoch_day(first);
                let to = Timestamp { minutes: Timestamp::from_epoch_day(next).minutes - 1 };
                Some((from, to))
            },
            Prefix::Month { year, month } => {
                let first = match calendar_epoch_day(year, month, 1) {
                    Some(n) => n,
                    None => { return None; },
                };
                let following = if month == 12 {
                    calendar_epoch_day(year + 1, 1, 1)
                } else {
                    calendar_epoch_day(year, month + 1, 1)
                };
                let next = match following {
                    Some(n) => n,
                    None => { return None; },
                };
                let from = Timestamp::from_epoch_day(first);
                let to = Timestamp { minutes: Timestamp::from_epoch_day(next).minutes - 1 };
                Some((from, to))
            },
            Prefix::Day { year, month, day } => {
                match calendar_epoch_day(year, month, day) {
                    Some(n) => Some(
                        (Timestamp::from_epoch_day(n), Timestamp::from_day_and_minute(n, 1439)),
                    ),
                    None => None,
                }
            },
            Prefix::Hour { year, month, day, hour } => {
                if hour >= 24 {
                    return None;
                }
                match calendar_epoch_day(year, month, day) {
                    Some(n) => Some(
                        (
                            Timestamp::from_day_and_minute(n, hour * 60),
                            Timestamp::from_day_and_minute(n, hour * 60 + 59),
                        ),
                    ),
                    None => None,
                }
            },
            Prefix::Minute { year, month, day, hour, minute } => {
                match Timestamp::from_civil(year, month, day, hour, minute) {
                    Some(from) => Some((from, from)),
                    None => None,
                }
            },
        }
    }
}

/// A unit's last minute lies one unit, less a minute, after its first: a
/// valid range is never empty, and as long as the finest unit it names.
pub proof fn lemma_range_spans_unit(p: Prefix)
    requires
        p.is_valid(),
    ensures
        p.first_minute() <= p.last_minute(),
        p.last_minute() - p.first_minute() == p.unit_minutes() - 1,
{
    match p {
        Prefix::Year { year } => {
            lemma_year_length(year as int);
        },
        Prefix::Month { year, month } => {
            lemma_month_length(year as int, month as int);
        },
        _ => {},
    }
}

/// The range that a text names: the first and last minute of the unit it
/// writes, where it follows the grammar and the unit is valid.
pub open spec fn time_range_of(s: Seq<char>) -> Option<(int, int)> {
    match prefix_of(s) {
        Some(p) => if p.is_valid() {
            Some((p.first_minute(), p.last_minute()))
        } else {
            None
        },
        None => None,
    }
}

/// The range that a text names is never empty, and as long as the finest
/// unit that the text names, less a minute.
pub proof fn lemma_time_range_spans_unit(s: Seq<char>)
    requires
        time_range_of(s) is Some,
    ensures
        ({
            let (from, to) = time_range_of(s).unwrap();
            from <= to && to - from == prefix_of(s).unwrap().unit_minutes() - 1
        }),
{
    lemma_range_spans_unit(prefix_of(s).unwrap());
}

/// The characters of a text.
pub fn chars_of(s: &str) -> (v: Vec<char>)
    ensures
        v@ == s@,
{
    let mut v: Vec<char> = Vec::new();
    for c in it: s.chars()
        invariant
            v@ == it.seq().take(it.index() as int),
            it.seq() == s@,
    {
        v.push(c);
    }
    v
}

proof fn lemma_decimal_value_grows(s: Seq<char>, from: int, mid: int, to: int)
    requires
        from <= mid <= to,
    ensures
        decimal_value(s, from, mid) <= decimal_value(s, from, to),
    decreases to - mid,
{
    if mid < to {
        lemma_decimal_value_grows(s, from, mid, to - 1);
    }
}

proof fn lemma_digits_end_bounds(s: Seq<char>, from: int)
    requires
        0 <= from <= s.len(),
    ensures
        from <= digits_end(s, from) <= s.len(),
        forall|i: int| from <= i < digits_end(s, from) ==> is_digit(s[i]),
        digits_end(s, from) < s.len() ==> !is_digit(s[digits_end(s, from)]),
    decreases s.len() - from,
{
    if from < s.len() && is_digit(s[from]) {
        lemma_digits_end_bounds(s, from + 1);
    }
}

/// Accepts the character `c` at `at`.
fn parse_char(c: char, input: &[char], at: usize) -> (r: Option<usize>)
    ensures
        r.is_some() == (at < input@.len() && input@[at as int] == c),
        r matches Some(next) ==> next == at + 1,
{
    if at < input.len() && input[at] == c {
        Some(at + 1)
    } else {
        None
    }
}

/// Reads the unsigned decimal number at `from`.
fn parse_number(input: &[char], from: usize, limit: u64) -> (r: Option<(u64, usize)>)
    requires
        from <= input@.len(),
    ensures
        match r {
            Some((value, to)) => number_at(input@, from as int, limit as nat) == Some(
                (value as nat, to as int),
            ),
            None => number_at(input@, from as int, limit as nat) is None,
        },
        r matches Some((value, to)) ==> value <= limit && from < to <= input@.len(),
{
    let mut value: u64 = 0;
    let mut at: usize = from;
    proof {
        lemma_digits_end_bounds(input@, from as int);
    }
    while at < input.len() && input[at] >= '0' && input[at] <= '9'
        invariant
            from <= at <= input@.len(),
            digits_end(input@, at as int) == digits_end(input@, from as int),
            value == decimal_value(input@, from as int, at as int),
            value <= limit,
        decreases input@.len() - at,
    {
        let digit: u64 = input[at] as u64 - '0' as u64;
        if digit > limit || value > (limit - digit) / 10 {
            proof {
                let end = digits_end(input@, from as int);
                lemma_digits_end_bounds(input@, at as int);
                lemma_decimal_value_grows(input@, from as int, at + 1, end);
            }
            return None;
        }
        value = value * 10 + digit;
        at = at + 1;
    }
    if at == from {
        None
    } else {
        Some((value, at))
    }
}

/// Reads the separator `sep` at `at` and the number after it.
fn parse_field(input: &[char], at: usize, sep: char) -> (r: Option<(u32, usize)>)
    requires
        at <= input@.len(),
    ensures
        match r {
            Some((value, to)) => field_after(input@, at as int, sep) == Some(
                (value as nat, to as int),
            ),
            None => field_after(input@, at as int, sep) is None,
        },
        r matches Some((value, to)) ==> at < to <= input@.len(),
{
    match parse_char(sep, input, at) {
        None => None,
        Some(after) => match parse_number(input, after, u32::MAX as u64) {
            None => None,
            Some((value, to)) => Some((value as u32, to)),
        },
    }
}

/// Reads a text of the grammar `YYYY[-MM[-DD[ hh[:mm]]]]`, each field an
/// unsigned decimal number, to its fields. Text that only starts like one is
/// refused.
pub fn parse_prefix(input: &str) -> (r: Option<Prefix>)
    ensures
        r == prefix_of(input@),
{
    let chars = chars_of(input);
    let text = chars.as_slice();
    let end = text.len();
    let (year, at) = match parse_number(text, 0, i32::MAX as u64) {
        None => { return None; },
        Some((value, to)) => (value as i32, to),
    };
    if at == end {
        return Some(Prefix::Year { year });
    }
    let (month, at) = match parse_field(text, at, '-') {
        None => { return None; },
        Some(field) => field,
    };
    if at == end {
        return Some(Prefix::Month { year, month });
    }
    let (day, at) = match parse_field(text, at, '-') {
        None => { return None; },
        Some(field) => field,
    };
    if at == end {
        return Some(Prefix::Day { year, month, day });
    }
    let (hour, at) = match parse_field(text, at, ' ') {
        None => { return None; },
        Some(field) => field,
    };
    if at == end {
        return Some(Prefix::Hour { year, month, day, hour });
    }
    let (minute, at) = match parse_field(text, at, ':') {
        None => { return None; },
        Some(field) => field,
    };
    if at == end {
        Some(Prefix::Minute { year, month, day, hour, minute })
    } else {
        None
    }
}

/// Parses a time range `[from, to]` from a text `year[-month[-day[ hour[:minutes]]]]`:
/// the whole of the finest unit that the text names.
pub fn parse_time_range(input: &str) -> (r: Option<(Timestamp, Timestamp)>)
    ensures
        r.is_some() == time_range_of(input@).is_some(),
        r matches Some((from, to)) ==> time_range_of(input@) == Some((from@, to@)),
        r matches Some((from, to)) ==> from@ <= to@,
{
    match parse_prefix(input) {
        Some(p) => {
            proof {
                if p.is_valid() {
                    lemma_range_spans_unit(p);
                }
            }
            p.range()
        },
        None => None,
    }
}

/// The first position from `from` on that holds `c`, or the length of `s`
/// where none does.
pub open spec fn position_of(s: Seq<char>, c: char, from: int) -> int
    decreases s.len() - from,
{
    if 0 <= from < s.len() && s[from] != c {
        position_of(s, c, from + 1)
    } else {
        from
    }
}

/// The first `c` from `from` on.
pub fn find_char(text: &[char], c: char, from: usize) -> (at: usize)
    requires
        from <= text@.len(),
    ensures
        at == position_of(text@, c, from as int),
        from <= at <= text@.len(),
{
    let mut at = from;
    while at < text.len() && text[at] != c
        invariant
            from <= at <= text@.len(),
            position_of(text@, c, at as int) == position_of(text@, c, from as int),
        decreases text@.len() - at,
    {
        at = at + 1;
    }
    at
}

/// The pieces of `s` from `from` on that lie between the occurrences of
/// `c`; at least one, which may be empty.
pub open spec fn pieces(s: Seq<char>, c: char, from: int) -> Seq<Seq<char>>
    decreases s.len() - from,
{
    let end = position_of(s, c, from);
    if 0 <= from <= end < s.len() {
        seq![s.subrange(from, end)] + pieces(s, c, end + 1)
    } else {
        seq![s.subrange(from, s.len() as int)]
    }
}

/// The texts of a row of string slices.
pub open spec fn views_of(parts: Seq<&str>) -> Seq<Seq<char>> {
    Seq::new(parts.len(), |i: int| parts[i]@)
}

/// Cuts a text at each occurrence of `c`.
pub fn split<'a>(text: &'a str, c: char) -> (parts: Vec<&'a str>)
    ensures
        views_of(parts@) == pieces(text@, c, 0),
{
    let chars = chars_of(text);
    let mut parts: Vec<&'a str> = Vec::new();
    let mut from: usize = 0;
    loop
        invariant_except_break
            chars@ == text@,
            from <= chars@.len(),
            views_of(parts@) + pieces(text@, c, from as int) == pieces(text@, c, 0),
        ensures
            views_of(parts@) == pieces(text@, c, 0),
        decreases chars@.len() - from,
    {
        let end = find_char(chars.as_slice(), c, from);
        let ghost before = views_of(parts@);
        if end >= chars.len() {
            parts.push(text.substring_char(from, chars.len()));
            assert(views_of(parts@) == before + pieces(text@, c, from as int));
            break ;
        }
        parts.push(text.substring_char(from, end));
        assert(views_of(parts@) + pieces(text@, c, end + 1) == before + pieces(
            text@,
            c,
            from as int,
        ));
        from = end + 1;
    }
    parts
}

/// The number that all of `s` writes in decimal digits, where it does and
/// the number is not above `limit`.
pub open spec fn whole_number_of(s: Seq<char>, limit: nat) -> Option<nat> {
    match number_at(s, 0, limit) {
        Some((value, to)) => if to == s.len() {
            Some(value)
        } else {
            None
        },
        None => None,
    }
}

/// Reads a text that is an unsigned decimal number.
pub fn parse_whole_number(text: &str, limit: u64) -> (r: Option<u64>)
    ensures
        r.is_some() == whole_number_of(text@, limit as nat).is_some(),
        r matches Some(value) ==> whole_number_of(text@, limit as nat) == Some(value as nat),
{
    let digits = chars_of(text);
    match parse_number(digits.as_slice(), 0, limit) {
        None => None,
        Some((value, to)) => if to == digits.len() {
            Some(value)
        } else {
            None
        },
    }
}

/// Whether `s` starts with `prefix` and goes on after it.
pub open spec fn starts_and_continues(prefix: Seq<char>, s: Seq<char>) -> bool {
    prefix.len() < s.len() && s.subrange(0, prefix.len() as int) == prefix
}

/// Accepts the text `expected` at the start of `input` and hands back what
/// follows it. An input that ends with `expected` is refused, like one that
/// does not start with it; the error is the input.
pub fn parse_string<'a>(expected: &str, input: &'a str) -> (r: Result<((), &'a str), &'a str>)
    ensures
        r.is_ok() == starts_and_continues(expected@, input@),
        r matches Ok((_, rest)) ==> rest@ == input@.skip(expected@.len() as int),
        r matches Err(rest) ==> rest@ == input@,
{
    let pattern = chars_of(expected);
    let text = chars_of(input);
    if text.len() <= pattern.len() {
        return Err(input);
    }
    let mut at: usize = 0;
    while at < pattern.len()
        invariant
            at <= pattern@.len() < text@.len(),
            pattern@ == expected@,
            text@ == input@,
            text@.subrange(0, at as int) == pattern@.subrange(0, at as int),
        decreases pattern@.len() - at,
    {
        if pattern[at] != text[at] {
            assert(input@.subrange(0, expected@.len() as int)[at as int] != expected@[at as int]);
            return Err(input);
        }
        assert(text@.subrange(0, at + 1) == text@.subrange(0, at as int).push(text@[at as int]));
        assert(pattern@.subrange(0, at + 1) == pattern@.subrange(0, at as int).push(
            pattern@[at as int],
        ));
        at = at + 1;
    }
    assert(pattern@.subrange(0, at as int) == pattern@);
    Ok(((), input.substring_char(pattern.len(), text.len())))
}

/// The characters of `size=`.
pub open spec fn size_key() -> Seq<char> {
    seq!['s', 'i', 'z', 'e', '=']
}

/// The count that a `size=<number>` parameter gives: the number, where it
/// fits a `usize` and nothing follows it.
pub open spec fn count_param_of(s: Seq<char>) -> Option<nat> {
    if starts_and_continues(size_key(), s) {
        whole_number_of(s.skip(5), usize::MAX as nat)
    } else {
        None
    }
}

/// Reads the parameter `size=<number>`.
pub fn parse_count_param(input: &str) -> (r: Option<usize>)
    ensures
        r.is_some() == count_param_of(input@).is_some(),
        r matches Some(count) ==> count_param_of(input@) == Some(count as nat),
{
    proof {
        reveal_strlit("size=");
        assert("size="@ == size_key());
    }
    match parse_string("size=", input) {
        Err(_) => None,
        Ok((_, rest)) => match parse_whole_number(rest, usize::MAX as u64) {
            Some(value) => Some(value as usize),
            None => None,
        },
    }
}

} // verus!
