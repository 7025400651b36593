use transit_stops::cache::Cached;
use transit_stops::config::StopConfig;
use transit_stops::feed::{MonitoredCall, MonitoredVehicleJourney};
use transit_stops::time::Timestamp;
use transit_stops::transform::{group_arrivals, resolve_destination, resolve_line, Client, Line, TimeParseError, Upcoming};

const NOW_SECS: i64 = 1_704_067_200; // 2024-01-01T00:00:00Z

fn now() -> Timestamp {
    Timestamp { secs: NOW_SECS, nanos: 0 }
}

fn journey(line: Option<&str>, direction: Option<&str>, destination: Option<&str>, time: Option<&str>, stop: &str) -> MonitoredVehicleJourney {
    MonitoredVehicleJourney {
        line_ref: line.map(|s| s.to_string()),
        direction_ref: direction.map(|s| s.to_string()),
        destination_name: destination.map(|s| s.to_string()),
        monitored_call: MonitoredCall {
            expected_arrival_time: time.map(|s| s.to_string()),
            stop_point_ref: stop.to_string(),
        },
    }
}

fn at_minute(m: u32) -> String {
    format!("2024-01-01T00:{:02}:00Z", m)
}

fn minute_ts(m: i64) -> Timestamp {
    Timestamp { secs: NOW_SECS + 60 * m, nanos: 0 }
}

fn stop_config(rules: Vec<(&str, &str)>) -> StopConfig {
    StopConfig {
        agency: "SF".to_string(),
        line_prefix_subs: rules.into_iter().map(|(a, b)| (a.to_string(), b.to_string())).collect(),
        stops: vec!["1".to_string()],
    }
}

fn client(subs: Vec<(&str, &str)>) -> Client {
    Client::new("key".to_string(), subs.into_iter().map(|(a, b)| (a.to_string(), b.to_string())).collect())
}

fn line(l: &str, d: &str, dest: &str) -> Line {
    Line { line: l.to_string(), agency: "SF".to_string(), direction: d.to_string(), destination: dest.to_string() }
}

#[test]
fn truncation_keeps_four_soonest_in_order() {
    let journeys = [1u32, 50, 2, 40, 3, 30]
        .iter()
        .map(|m| journey(Some("N"), Some("IB"), Some("Downtown"), Some(&at_minute(*m)), "1"))
        .collect();
    let cached = Cached { journeys, live_time: now() };
    let resp = client(vec![]).transform_at(&stop_config(vec![]), cached, now()).unwrap();
    assert_eq!(resp.upcoming.len(), 1);
    assert_eq!(resp.upcoming[0].0, line("N", "IB", "Downtown"));
    let times: Vec<Upcoming> = [1, 2, 3, 30].iter().map(|m| Upcoming { time: minute_ts(*m) }).collect();
    assert_eq!(resp.upcoming[0].1, times);
    assert_eq!(resp.agency, "SF");
}

#[test]
fn groups_sorted_and_at_most_four() {
    let mut journeys = Vec::new();
    for m in [9u32, 4, 7, 1, 8, 2, 5] {
        journeys.push(journey(Some("J"), Some("OB"), Some("Balboa"), Some(&at_minute(m)), "1"));
        journeys.push(journey(Some("K"), Some("OB"), Some("Balboa"), Some(&at_minute(m + 10)), "1"));
    }
    journeys.push(journey(Some("L"), Some("IB"), Some("Embarcadero"), Some(&at_minute(6)), "1"));
    let cached = Cached { journeys, live_time: now() };
    let resp = client(vec![]).transform_at(&stop_config(vec![]), cached, now()).unwrap();
    assert_eq!(resp.upcoming.len(), 3);
    for (_, times) in &resp.upcoming {
        assert!(times.len() <= 4);
        for w in times.windows(2) {
            assert!(w[0].time <= w[1].time);
        }
    }
    let keys: Vec<&str> = resp.upcoming.iter().map(|(l, _)| l.line.as_str()).collect();
    assert_eq!(keys, vec!["J", "K", "L"]);
}

#[test]
fn lines_ordered_by_label_then_direction_then_destination() {
    let journeys = vec![
        journey(Some("b"), Some("IB"), Some("X"), Some(&at_minute(5)), "1"),
        journey(Some("a"), Some("OB"), Some("Y"), Some(&at_minute(5)), "1"),
        journey(Some("a"), Some("IB"), Some("Z"), Some(&at_minute(5)), "1"),
        journey(Some("a"), Some("IB"), Some("W"), Some(&at_minute(6)), "1"),
    ];
    let cached = Cached { journeys, live_time: now() };
    let resp = client(vec![]).transform_at(&stop_config(vec![]), cached, now()).unwrap();
    let keys: Vec<Line> = resp.upcoming.into_iter().map(|(l, _)| l).collect();
    assert_eq!(
        keys,
        vec![line("a", "IB", "W"), line("a", "IB", "Z"), line("a", "OB", "Y"), line("b", "IB", "X")]
    );
}

#[test]
fn past_arrival_excluded() {
    let journeys = vec![
        journey(Some("N"), Some("IB"), Some("Downtown"), Some("2023-12-31T23:59:59Z"), "1"),
        journey(Some("N"), Some("IB"), Some("Downtown"), Some("2024-01-01T00:00:00Z"), "1"),
        journey(Some("M"), Some("IB"), Some("Downtown"), Some("2023-12-31T23:59:59Z"), "1"),
    ];
    let cached = Cached { journeys, live_time: now() };
    let resp = client(vec![]).transform_at(&stop_config(vec![]), cached, now()).unwrap();
    assert_eq!(resp.upcoming.len(), 1);
    assert_eq!(resp.upcoming[0].1, vec![Upcoming { time: now() }]);
}

#[test]
fn missing_destination_skipped_without_error() {
    let journeys = vec![
        journey(Some("N"), Some("IB"), None, Some(&at_minute(5)), "1"),
        journey(Some("N"), None, Some("Downtown"), Some("not a time"), "1"),
        journey(None, Some("IB"), Some("Downtown"), Some(&at_minute(5)), "1"),
        journey(Some("N"), Some("IB"), Some("Downtown"), None, "1"),
    ];
    let cached = Cached { journeys, live_time: now() };
    let resp = client(vec![]).transform_at(&stop_config(vec![]), cached, now()).unwrap();
    assert!(resp.upcoming.is_empty());
}

#[test]
fn bad_present_time_fails_batch() {
    let journeys = vec![
        journey(Some("N"), Some("IB"), Some("Downtown"), Some(&at_minute(5)), "1"),
        journey(Some("N"), Some("IB"), Some("Downtown"), Some("soon"), "1"),
        journey(Some("N"), Some("IB"), Some("Downtown"), Some("later"), "1"),
    ];
    let cached = Cached { journeys, live_time: now() };
    let r = client(vec![]).transform_at(&stop_config(vec![]), cached, now());
    assert_eq!(r.err(), Some(TimeParseError { value: "soon".to_string() }));
}

#[test]
fn offset_times_taken_to_utc() {
    let journeys = vec![journey(Some("N"), Some("IB"), Some("Downtown"), Some("2023-12-31T16:10:00-08:00"), "1")];
    let cached = Cached { journeys, live_time: now() };
    let resp = client(vec![]).transform_at(&stop_config(vec![]), cached, now()).unwrap();
    assert_eq!(resp.upcoming[0].1, vec![Upcoming { time: minute_ts(10) }]);
}

#[test]
fn first_matching_prefix_rule_wins() {
    let rules: Vec<(String, String)> = vec![("71".to_string(), "71X".to_string()), ("7".to_string(), "7X".to_string())];
    assert_eq!(resolve_line(&rules, &"71A".to_string()), "71X");
    assert_eq!(resolve_line(&rules, &"7B".to_string()), "7X");
    assert_eq!(resolve_line(&rules, &"8".to_string()), "8");
    let reversed: Vec<(String, String)> = vec![("7".to_string(), "7X".to_string()), ("71".to_string(), "71X".to_string())];
    assert_eq!(resolve_line(&reversed, &"71A".to_string()), "7X");
}

#[test]
fn substitutions_applied_in_transform() {
    let journeys = vec![journey(Some("71A"), Some("IB"), Some("Ferry Bldg"), Some(&at_minute(3)), "1")];
    let cached = Cached { journeys, live_time: minute_ts(-2) };
    let c = client(vec![("Ferry Bldg", "Ferry Building"), ("Ferry Bldg", "Other")]);
    let resp = c.transform_at(&stop_config(vec![("71", "71X"), ("7", "7X")]), cached, now()).unwrap();
    assert_eq!(resp.upcoming[0].0, line("71X", "IB", "Ferry Building"));
    assert_eq!(resp.live_time, minute_ts(-2));
}

#[test]
fn destination_exact_match_only() {
    let subs: Vec<(String, String)> = vec![("Ferry".to_string(), "Ferry Building".to_string())];
    assert_eq!(resolve_destination(&subs, &"Ferry".to_string()), "Ferry Building");
    assert_eq!(resolve_destination(&subs, &"Ferry Plaza".to_string()), "Ferry Plaza");
    assert_eq!(resolve_destination(&subs, &"ferry".to_string()), "ferry");
}

#[test]
fn transform_results_uses_current_time() {
    let journeys = vec![
        journey(Some("N"), Some("IB"), Some("Downtown"), Some("2999-01-01T00:00:00Z"), "1"),
        journey(Some("N"), Some("IB"), Some("Downtown"), Some("2000-01-01T00:00:00Z"), "1"),
    ];
    let cached = Cached { journeys, live_time: now() };
    let resp = client(vec![]).transform_results(&stop_config(vec![]), cached).unwrap();
    assert_eq!(resp.upcoming.len(), 1);
    assert_eq!(resp.upcoming[0].1.len(), 1);
    assert!(resp.upcoming[0].1[0].minutes() > 0);
}

#[test]
fn minutes_round_toward_zero() {
    let t = Timestamp { secs: NOW_SECS + 119, nanos: 999_999_999 };
    assert_eq!(t.minutes_since(now()), 1);
    let past = Timestamp { secs: NOW_SECS - 61, nanos: 0 };
    assert_eq!(past.minutes_since(now()), -1);
    let just_past = Timestamp { secs: NOW_SECS - 1, nanos: 500 };
    assert_eq!(just_past.minutes_since(now()), 0);
    assert_eq!(minute_ts(30).minutes_since(now()), 30);
}

#[test]
fn group_arrivals_sorts_before_truncating() {
    let found: Vec<(Line, Timestamp)> = [50i64, 1, 40, 2, 30, 3]
        .iter()
        .map(|m| (line("N", "IB", "Downtown"), minute_ts(*m)))
        .chain([(line("A", "OB", "Beach"), minute_ts(7)), (line("A", "OB", "Beach"), minute_ts(7))])
        .collect();
    let groups = group_arrivals(&found);
    assert_eq!(groups.len(), 2);
    assert_eq!(groups[0].0, line("A", "OB", "Beach"));
    assert_eq!(groups[0].1, vec![Upcoming { time: minute_ts(7) }, Upcoming { time: minute_ts(7) }]);
    assert_eq!(groups[1].0, line("N", "IB", "Downtown"));
    let times: Vec<Upcoming> = [1, 2, 3, 30].iter().map(|m| Upcoming { time: minute_ts(*m) }).collect();
    assert_eq!(groups[1].1, times);
    assert!(group_arrivals(&vec![]).is_empty());
}

#[test]
fn minutes_count_leap_second_as_chrono_does() {
    // 2016-12-31T23:59:60.5Z is chrono's leap second: seconds of 23:59:59 with 1.5e9 nanoseconds.
    let leap = Timestamp { secs: 1_483_228_799, nanos: 1_500_000_000 };
    let later = Timestamp { secs: 1_483_228_799 + 120, nanos: 0 };
    assert_eq!(later.minutes_since(leap), 1);
    let same_day_later = Timestamp { secs: 1_483_228_799 - 60 * 10, nanos: 0 };
    assert_eq!(leap.minutes_since(same_day_later), 10);
    // A leap second at 12:30:60.5 counts when the later instant is on a later second of the day.
    let noon_leap = Timestamp { secs: 1_483_187_459, nanos: 1_500_000_000 };
    let after = Timestamp { secs: 1_483_187_580, nanos: 200_000_000 };
    assert_eq!(after.minutes_since(noon_leap), 2);
}
