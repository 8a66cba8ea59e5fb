use query_log::record::{fingerprint, parse_record, record_at};
use query_log::selection::select_top;
use query_log::solver::Solver;
use query_log::timestamp::Timestamp;
use query_log::utils::parse::{chars_of, find_char, parse_time_range, parse_whole_number, split};
use std::collections::hash_map::DefaultHasher;
use std::collections::HashMap;
use std::hash::{Hash, Hasher};

#[test]
fn fingerprint_is_the_standard_hash_of_the_text() {
    for text in ["", "foo", "bar baz", "héllo wörld", "a\u{ff}b"] {
        let mut hasher = DefaultHasher::new();
        text.to_string().hash(&mut hasher);
        assert_eq!(fingerprint(text), hasher.finish());
    }
    assert_eq!(fingerprint("foo"), fingerprint("foo"));
    assert_ne!(fingerprint("foo"), fingerprint("bar"));
}

#[test]
fn record_of_a_line() {
    let minute = Timestamp::from_civil(2015, 8, 1, 0, 3).unwrap();
    assert_eq!(parse_record("2015-08-01 00:03:44\tfoo"), Some((minute, "foo".to_string())));
    assert_eq!(parse_record("2015-08-01 00:03:00\tfoo bar\tmore"), Some((minute, "foo bar".to_string())));
    assert_eq!(parse_record("2015-08-01 00:03:00\t"), Some((minute, "".to_string())));
    assert_eq!(parse_record("2015-08-01 00:03:00"), None);
    assert_eq!(parse_record("2015-08-01\tfoo"), None);
    assert_eq!(parse_record("2015-02-29 00:00:00\tfoo"), None);
    assert_eq!(parse_record("\tfoo"), None);
    assert_eq!(parse_record(""), None);
}

#[test]
fn record_of_a_moment() {
    assert_eq!(record_at(Some((0, 0)), "a"), Some((Timestamp { minutes: 0 }, "a".to_string())));
    assert_eq!(record_at(Some((1, 119)), "a"), Some((Timestamp { minutes: 1441 }, "a".to_string())));
    assert_eq!(record_at(Some((-1, 86399)), "b"), Some((Timestamp { minutes: -1 }, "b".to_string())));
    assert_eq!(record_at(None, "a"), None);
}

#[test]
fn minutes_agree_with_chrono() {
    let moment = chrono::NaiveDate::from_ymd_opt(2015, 8, 2).unwrap().and_hms_opt(10, 15, 0).unwrap();
    let expected = moment.and_utc().timestamp() / 60;
    assert_eq!(Timestamp::from_civil(2015, 8, 2, 10, 15).unwrap().minutes, expected);
    assert_eq!(Timestamp::from_civil(2000, 2, 29, 0, 0).unwrap().minutes, 951_782_400 / 60);
    assert_eq!(Timestamp::from_civil(1900, 2, 29, 0, 0), None);
    assert_eq!(Timestamp::from_civil(2015, 8, 2, 24, 0), None);
    assert_eq!(Timestamp::from_civil(2015, 8, 2, 0, 60), None);
    assert_eq!(Timestamp::from_civil(2015, 0, 2, 0, 0), None);
    assert_eq!(Timestamp::from_civil(262_143, 1, 1, 0, 0), None);
    assert!(Timestamp::from_civil(262_142, 12, 31, 23, 59).is_some());
    assert_eq!(Timestamp::from_epoch_day(2).minutes, 2880);
    assert_eq!(Timestamp::from_day_and_minute(-1, 1439).minutes, -1);
}

#[test]
fn units_are_as_long_as_the_calendar_says() {
    let length = |text: &str| {
        let (from, to) = parse_time_range(text).unwrap();
        to.minutes - from.minutes + 1
    };
    assert_eq!(length("2019"), 365 * 1440);
    assert_eq!(length("2020"), 366 * 1440);
    assert_eq!(length("1900"), 365 * 1440);
    assert_eq!(length("2000"), 366 * 1440);
    assert_eq!(length("2019-02"), 28 * 1440);
    assert_eq!(length("2020-02"), 29 * 1440);
    assert_eq!(length("2019-12"), 31 * 1440);
    assert_eq!(length("2019-04"), 30 * 1440);
    assert_eq!(length("2019-04-30"), 1440);
    assert_eq!(length("2019-04-30 23"), 60);
    assert_eq!(length("2019-04-30 23:59"), 1);
    assert_eq!(length("0002019-4-3 5:7"), 1);
}

#[test]
fn texts_that_name_no_range() {
    for text in [
        "", "x", "2019-", "2019-02-", "2019-02-03 ", "2019-02-03 04:", "2019-02-03 04:05:06",
        "2019-02-03T04", "2019/02", "-2019", "+2019", " 2019", "2019 ", "2019-00", "2019-13",
        "2019-02-00", "2019-02-29", "2019-04-31", "2019-02-03 24", "2019-02-03 04:60",
        "99999999999", "2019-99999999999", "262143", "262142", "262142-12",
    ] {
        assert_eq!(parse_time_range(text), None, "{}", text);
    }
    assert!(parse_time_range("262141").is_some());
    assert!(parse_time_range("262142-11").is_some());
    assert!(parse_time_range("262142-12-31").is_some());
    assert!(parse_time_range("0").is_some());
}

#[test]
fn texts_are_cut_at_a_character() {
    assert_eq!(split("a/b//c", '/'), vec!["a", "b", "", "c"]);
    assert_eq!(split("", '/'), vec![""]);
    assert_eq!(split("/", '/'), vec!["", ""]);
    assert_eq!(split("héllo&wörld", '&'), vec!["héllo", "wörld"]);
    assert_eq!(chars_of("hé"), vec!['h', 'é']);
    assert_eq!(find_char(&chars_of("a\tb"), '\t', 0), 1);
    assert_eq!(find_char(&chars_of("a\tb"), '\t', 2), 3);
    assert_eq!(parse_whole_number("0042", 100), Some(42));
    assert_eq!(parse_whole_number("101", 100), None);
    assert_eq!(parse_whole_number("18446744073709551615", u64::MAX), Some(u64::MAX));
    assert_eq!(parse_whole_number("18446744073709551616", u64::MAX), None);
    assert_eq!(parse_whole_number("4 2", 100), None);
}

#[test]
fn selection_keeps_the_most_frequent() {
    let mut counts: HashMap<u64, usize> = HashMap::new();
    for (id, count) in [(1u64, 5usize), (2, 9), (3, 1), (4, 7), (5, 3)] {
        counts.insert(id, count);
    }
    assert_eq!(select_top(&counts, 3), vec![(9, 2), (7, 4), (5, 1)]);
    assert_eq!(select_top(&counts, 1), vec![(9, 2)]);
    assert_eq!(select_top(&counts, 0), vec![]);
    assert_eq!(select_top(&counts, 9), vec![(9, 2), (7, 4), (5, 1), (3, 5), (1, 3)]);
    assert_eq!(select_top(&HashMap::new(), 3), vec![]);
}

#[test]
fn selection_with_ties_keeps_the_greater_ids() {
    let mut counts: HashMap<u64, usize> = HashMap::new();
    for id in 0..20u64 {
        counts.insert(id, if id == 7 { 3 } else { 2 });
    }
    assert_eq!(select_top(&counts, 5), vec![(3, 7), (2, 19), (2, 18), (2, 17), (2, 16)]);
    let mut other: HashMap<u64, usize> = HashMap::new();
    for id in (0..20u64).rev() {
        other.insert(id, if id == 7 { 3 } else { 2 });
    }
    assert_eq!(select_top(&other, 5), select_top(&counts, 5));
    assert_eq!(select_top(&counts, 20).len(), 20);
    assert_eq!(select_top(&counts, 1), vec![(3, 7)]);
}

#[test]
fn index_does_not_depend_on_the_order_of_the_lines() {
    let lines: Vec<String> = vec![
        "2015-08-02 11:00:00\tfoo",
        "2015-08-01 00:04:00\tfoo",
        "2015-08-02 10:15:00\tbaz",
        "2015-08-01 00:03:44\tbar",
        "2015-08-02 10:15:00\tfoo",
        "2015-08-01 00:03:44\tfoo",
    ]
    .into_iter()
    .map(String::from)
    .collect();
    let solver = Solver::new(&lines);
    let (from, to) = parse_time_range("2015-08-01").unwrap();
    assert_eq!(solver.query_count(&from, &to), 3);
    assert_eq!(solver.query_distinct_count(&from, &to), 2);
    assert_eq!(solver.query_k_count(&from, &to, 5), vec![("foo".to_string(), 2), ("bar".to_string(), 1)]);
    let (from, to) = parse_time_range("2015-08-02 10:15").unwrap();
    assert_eq!(solver.query_count(&from, &to), 2);
    let copy = solver.clone();
    let (from, to) = parse_time_range("2015").unwrap();
    assert_eq!(copy.query_count(&from, &to), 6);
    assert_eq!(copy.query_k_count(&from, &to, 1), vec![("foo".to_string(), 4)]);
}
