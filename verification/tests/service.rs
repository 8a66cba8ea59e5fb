use query_log::service::{handle_request, route, status_of, version_from, range_from, Reply, Route, RouteError};
use query_log::solver::Solver;
use query_log::time_range::TimeRange;
use std::str::FromStr;

fn august() -> TimeRange {
    TimeRange::from_str("2015-08").unwrap()
}

fn small_log() -> Solver {
    let lines: Vec<String> = vec![
        "2015-08-01 00:03:44\tfoo",
        "2015-08-01 00:03:44\tbar",
        "2015-08-01 00:04:00\tfoo",
    ]
    .into_iter()
    .map(String::from)
    .collect();
    Solver::new(&lines)
}

#[test]
fn root_asks_for_usage() {
    assert_eq!(route(""), Ok(Route::Usage));
    assert_eq!(route("/"), Ok(Route::Usage));
    assert_eq!(route("/?"), Ok(Route::Usage));
    assert_eq!(route("/?whatever"), Ok(Route::Usage));
}

#[test]
fn count_route() {
    assert_eq!(
        route("/1/queries/count/2015-08?"),
        Ok(Route::Count { version: 1, time_range: august(), distinct: false })
    );
    assert_eq!(
        route("/1/queries/count/2015-08?distinct"),
        Ok(Route::Count { version: 1, time_range: august(), distinct: true })
    );
    assert_eq!(
        route("/7/queries/count/2015-08/?a=b&distinct"),
        Ok(Route::Count { version: 7, time_range: august(), distinct: true })
    );
}

#[test]
fn popular_route() {
    assert_eq!(
        route("/1/queries/popular/2015-08"),
        Ok(Route::Popular { version: 1, time_range: august(), size: None })
    );
    assert_eq!(
        route("/1/queries/popular/2015-08?size=3"),
        Ok(Route::Popular { version: 1, time_range: august(), size: Some(3) })
    );
    assert_eq!(
        route("/1/queries/popular/2015-08?size=x&size=5&size=6"),
        Ok(Route::Popular { version: 1, time_range: august(), size: Some(5) })
    );
}

#[test]
fn encoded_range_is_decoded() {
    let hour = TimeRange::from_str("2015-08-02 10").unwrap();
    assert_eq!(
        route("/1/queries/count/2015-08-02%2010"),
        Ok(Route::Count { version: 1, time_range: hour, distinct: false })
    );
}

#[test]
fn unknown_paths_are_not_found() {
    assert_eq!(route("/foo"), Err(RouteError::NotFound));
    assert_eq!(route("//"), Err(RouteError::NotFound));
    assert_eq!(route("/x/queries/count/2015"), Err(RouteError::NotFound));
    assert_eq!(route("/1/queries/sum/2015"), Err(RouteError::NotFound));
    assert_eq!(route("/1/query/count/2015"), Err(RouteError::NotFound));
    assert_eq!(route("/1/queries/count/2015/08"), Err(RouteError::NotFound));
    assert_eq!(route("/1/queries/count"), Err(RouteError::NotFound));
}

#[test]
fn bad_ranges_are_bad_requests() {
    assert_eq!(route("/1/queries/count/2015-02-30"), Err(RouteError::BadRange));
    assert_eq!(route("/1/queries/popular/2015-13"), Err(RouteError::BadRange));
    assert_eq!(route("/1/queries/count/2015%"), Err(RouteError::BadRange));
    assert_eq!(status_of(&Err(RouteError::BadRange)), 400);
    assert_eq!(status_of(&Err(RouteError::NotFound)), 404);
    assert_eq!(status_of(&Ok(Reply::Usage)), 200);
}

#[test]
fn decoded_segments() {
    assert_eq!(version_from(Some("12".to_string())), Some(12));
    assert_eq!(version_from(Some("4294967296".to_string())), None);
    assert_eq!(version_from(Some("".to_string())), None);
    assert_eq!(version_from(None), None);
    assert_eq!(range_from(Some("2015-08".to_string())), Some(august()));
    assert_eq!(range_from(Some("2015-8-".to_string())), None);
    assert_eq!(range_from(None), None);
}

#[test]
fn requests_are_answered() {
    let solver = small_log();
    match handle_request("/1/queries/count/2015-08-01?", &solver) {
        Ok(Reply::Count { time_range, count }) => {
            assert_eq!(count, 3);
            assert_eq!(time_range, TimeRange::from_str("2015-08-01").unwrap());
        }
        other => panic!("{:?}", other),
    }
    match handle_request("/1/queries/count/2015-08-01?distinct", &solver) {
        Ok(Reply::Count { count, .. }) => assert_eq!(count, 2),
        other => panic!("{:?}", other),
    }
    match handle_request("/1/queries/popular/2015-08-01?size=1", &solver) {
        Ok(Reply::Popular { queries, .. }) => assert_eq!(queries, vec![("foo".to_string(), 2)]),
        other => panic!("{:?}", other),
    }
    match handle_request("/1/queries/popular/2015-08-01?", &solver) {
        Ok(Reply::Popular { queries, .. }) => {
            assert_eq!(queries, vec![("foo".to_string(), 2), ("bar".to_string(), 1)])
        }
        other => panic!("{:?}", other),
    }
    assert!(matches!(handle_request("/", &solver), Ok(Reply::Usage)));
    assert!(matches!(handle_request("/nowhere", &solver), Err(RouteError::NotFound)));
}
