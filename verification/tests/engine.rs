use query_log::solver::Solver;
use query_log::time_range::TimeRange;
use std::str::FromStr;

fn fixture() -> Solver {
    let lines: Vec<String> = vec![
        "2015-08-01 00:03:44\tfoo",
        "2015-08-01 00:03:44\tbar",
        "2015-08-01 00:04:00\tfoo",
        "2015-08-02 10:15:00\tbaz",
        "2015-08-02 10:15:00\tfoo",
        "2015-08-02 11:00:00\tfoo",
    ]
    .into_iter()
    .map(String::from)
    .collect();
    Solver::new(&lines)
}

fn count(solver: &Solver, range: &str) -> usize {
    let range = TimeRange::from_str(range).unwrap();
    solver.query_count(&range.from, &range.to)
}

fn distinct(solver: &Solver, range: &str) -> usize {
    let range = TimeRange::from_str(range).unwrap();
    solver.query_distinct_count(&range.from, &range.to)
}

fn top(solver: &Solver, range: &str, k: usize) -> Vec<(String, usize)> {
    let range = TimeRange::from_str(range).unwrap();
    solver.query_k_count(&range.from, &range.to, k)
}

#[test]
fn count_of_a_day() {
    assert_eq!(count(&fixture(), "2015-08-01"), 3);
}

#[test]
fn count_of_a_month() {
    assert_eq!(count(&fixture(), "2015-08"), 6);
}

#[test]
fn count_of_an_hour() {
    assert_eq!(count(&fixture(), "2015-08-02 10"), 2);
}

#[test]
fn count_of_a_minute() {
    let solver = fixture();
    assert_eq!(count(&solver, "2015-08-01 00:03"), 2);
    assert_eq!(count(&solver, "2015-08-01 00:04"), 1);
    assert_eq!(count(&solver, "2015-08-01 00:05"), 0);
}

#[test]
fn distinct_count_of_a_month() {
    let solver = fixture();
    assert_eq!(distinct(&solver, "2015-08"), 3);
    assert_eq!(distinct(&solver, "2015-08-01"), 2);
    assert_eq!(distinct(&solver, "2014"), 0);
}

#[test]
fn top_two_of_a_month() {
    let answer = top(&fixture(), "2015-08", 2);
    assert_eq!(answer.len(), 2);
    assert_eq!(answer[0], ("foo".to_string(), 4));
    assert!(answer[1] == ("bar".to_string(), 1) || answer[1] == ("baz".to_string(), 1));
}

#[test]
fn top_of_a_month_lists_every_query_once() {
    let answer = top(&fixture(), "2015-08", 10);
    assert_eq!(answer.len(), 3);
    assert_eq!(answer[0], ("foo".to_string(), 4));
    let mut rest: Vec<String> = answer[1..].iter().map(|pair| pair.0.clone()).collect();
    rest.sort();
    assert_eq!(rest, vec!["bar".to_string(), "baz".to_string()]);
    assert_eq!(answer[1].1, 1);
    assert_eq!(answer[2].1, 1);
}

#[test]
fn top_of_nothing_is_empty() {
    let solver = fixture();
    assert_eq!(top(&solver, "2015-08", 0), vec![]);
    assert_eq!(top(&solver, "2014", 5), vec![]);
}

#[test]
fn empty_year_counts_nothing() {
    assert_eq!(count(&fixture(), "2014"), 0);
}

#[test]
fn reversed_range_counts_nothing() {
    let solver = fixture();
    let range = TimeRange::from_str("2015-08").unwrap();
    assert_eq!(solver.query_count(&range.to, &range.from), 0);
    assert_eq!(solver.query_distinct_count(&range.to, &range.from), 0);
    assert_eq!(solver.query_k_count(&range.to, &range.from, 3), vec![]);
}

#[test]
fn malformed_lines_are_passed_over() {
    let lines: Vec<String> = vec![
        "2015-08-01 00:03:44\tfoo",
        "no tab here",
        "2015-02-30 00:00:00\tnever",
        "not a date\tfoo",
        "",
        "2015-08-01 00:03:59\tfoo\tignored",
    ]
    .into_iter()
    .map(String::from)
    .collect();
    let solver = Solver::new(&lines);
    assert_eq!(count(&solver, "2015"), 2);
    assert_eq!(count(&solver, "2015-08-01 00:03"), 2);
    assert_eq!(top(&solver, "2015", 5), vec![("foo".to_string(), 2)]);
}

#[test]
fn empty_log() {
    let solver = Solver::new(&Vec::new());
    assert_eq!(count(&solver, "2015"), 0);
    assert_eq!(distinct(&solver, "2015"), 0);
    assert_eq!(top(&solver, "2015", 3), vec![]);
}

#[test]
fn seconds_are_dropped() {
    let lines: Vec<String> =
        vec!["2015-08-01 23:59:59\ta", "2015-08-02 00:00:00\tb"].into_iter().map(String::from).collect();
    let solver = Solver::new(&lines);
    assert_eq!(count(&solver, "2015-08-01"), 1);
    assert_eq!(count(&solver, "2015-08-01 23:59"), 1);
    assert_eq!(count(&solver, "2015-08-02 00:00"), 1);
}

#[test]
fn equal_questions_have_equal_answers() {
    let lines: Vec<String> = (0..400)
        .map(|i| format!("2015-08-{:02} {:02}:{:02}:00\tquery {}", 1 + i % 28, i % 24, i % 60, i % 13))
        .collect();
    let solver = Solver::new(&lines);
    let again = Solver::new(&lines);
    for range in ["2015", "2015-08", "2015-08-03", "2015-08-07 07", "2015-08-09 09:09", "2014"] {
        for k in [0usize, 1, 3, 5, 13, 20] {
            let answer = top(&solver, range, k);
            assert_eq!(top(&solver, range, k), answer);
            assert_eq!(top(&again, range, k), answer);
            assert_eq!(top(&solver.clone(), range, k), answer);
        }
        assert_eq!(count(&again, range), count(&solver, range));
        assert_eq!(distinct(&again, range), distinct(&solver, range));
    }
}
