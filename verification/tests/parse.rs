use query_log::time_range::TimeRange;
use query_log::timestamp::Timestamp;
use query_log::utils::parse::{parse_count_param, parse_prefix, parse_string, parse_time_range, Prefix};
use std::str::FromStr;

fn minute(year: i32, month: u32, day: u32, hour: u32, min: u32) -> Timestamp {
    Timestamp::from_civil(year, month, day, hour, min).unwrap()
}

#[test]
fn year_names_all_its_minutes() {
    let (from, to) = parse_time_range("2019").unwrap();
    assert_eq!(from, minute(2019, 1, 1, 0, 0));
    assert_eq!(to, minute(2019, 12, 31, 23, 59));
    assert_eq!(from.minutes, 1_546_300_800 / 60);
    assert_eq!(to.minutes, 1_577_836_800 / 60 - 1);
}

#[test]
fn month_names_all_its_minutes() {
    let (from, to) = parse_time_range("2019-02").unwrap();
    assert_eq!(from, minute(2019, 2, 1, 0, 0));
    assert_eq!(to, minute(2019, 2, 28, 23, 59));
    assert_eq!(from.minutes, 1_548_979_200 / 60);
    assert_eq!(to.minutes, 1_551_398_400 / 60 - 1);
}

#[test]
fn days_that_do_not_exist_are_refused() {
    assert_eq!(parse_time_range("2019-02-30"), None);
    assert_eq!(parse_time_range("2019-13"), None);
}

#[test]
fn epoch_is_minute_zero() {
    assert_eq!(minute(1970, 1, 1, 0, 0).minutes, 0);
    assert_eq!(minute(1970, 1, 2, 0, 1).minutes, 1441);
    assert_eq!(minute(1969, 12, 31, 23, 59).minutes, -1);
}

#[test]
fn prefix_fields() {
    assert_eq!(parse_prefix("2015-08-02 10"), Some(Prefix::Hour { year: 2015, month: 8, day: 2, hour: 10 }));
    assert_eq!(parse_prefix("2015-08-"), None);
    assert_eq!(parse_prefix(""), None);
}

#[test]
fn count_param() {
    assert_eq!(parse_count_param("size=10"), Some(10));
    assert_eq!(parse_count_param("size="), None);
    assert_eq!(parse_count_param("size=10x"), None);
    assert_eq!(parse_string("size=", "size=10"), Ok(((), "10")));
    assert_eq!(parse_string("size=", "size="), Err("size="));
}

#[test]
fn time_range_from_str() {
    let range = TimeRange::from_str("2015-08-01").unwrap();
    assert_eq!(range.to.minutes - range.from.minutes, 1439);
    assert!(TimeRange::from_str("2015-8-1x").is_err());
}
