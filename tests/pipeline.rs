use transit_stops::cache::{CacheError, Cached};
use transit_stops::config::{
    AgencySectionConfig, ConfigFile, LayoutConfig, SectionConfig, SideConfig, StopConfig, TextSectionConfig,
};
use transit_stops::feed::{feed_url, keep_requested_stops, strip_bom, MonitoredCall, MonitoredVehicleJourney};
use transit_stops::layout::{data_to_layout_at, freshness, Freshness, Line as ShownLine, Row};
use transit_stops::pipeline::{merge_responses, DataAccess, LoadCause, LoadError, StopData};
use transit_stops::refresh::{FetchError, RefreshAction};
use transit_stops::time::Timestamp;
use transit_stops::transform::{Client, TimeParseError};

const NOW_SECS: i64 = 1_704_067_200; // 2024-01-01T00:00:00Z

fn now() -> Timestamp {
    Timestamp { secs: NOW_SECS, nanos: 0 }
}

fn journey(line: &str, direction: &str, destination: &str, time: &str, stop: &str) -> MonitoredVehicleJourney {
    MonitoredVehicleJourney {
        line_ref: Some(line.to_string()),
        direction_ref: Some(direction.to_string()),
        destination_name: Some(destination.to_string()),
        monitored_call: MonitoredCall {
            expected_arrival_time: Some(time.to_string()),
            stop_point_ref: stop.to_string(),
        },
    }
}

fn stop_config(agency: &str) -> StopConfig {
    StopConfig { agency: agency.to_string(), line_prefix_subs: vec![], stops: vec!["1".to_string()] }
}

fn config(stops: Vec<StopConfig>, left: Vec<SectionConfig>, right: Vec<SectionConfig>) -> ConfigFile {
    ConfigFile {
        stops,
        destination_subs: vec![],
        layout: LayoutConfig {
            left: SideConfig { sections: left },
            right: SideConfig { sections: right },
            width: 800,
            height: 480,
        },
        api_key: "key".to_string(),
    }
}

fn agency_section(agency: &str, direction: &str) -> SectionConfig {
    SectionConfig::AgencySection(AgencySectionConfig { agency: agency.to_string(), direction: direction.to_string() })
}

fn snapshots() -> Vec<Result<Cached, CacheError>> {
    vec![
        Ok(Cached {
            journeys: vec![
                journey("N", "IB", "Downtown", "2024-01-01T00:05:00Z", "1"),
                journey("N", "OB", "Ocean Beach", "2024-01-01T00:07:00Z", "1"),
                journey("J", "IB", "Downtown", "2024-01-01T00:02:30Z", "1"),
            ],
            live_time: Timestamp { secs: NOW_SECS - 100, nanos: 0 },
        }),
        Ok(Cached {
            journeys: vec![journey("20", "N", "Oakland", "2024-01-01T00:12:00Z", "1")],
            live_time: Timestamp { secs: NOW_SECS - 30, nanos: 0 },
        }),
    ]
}

type Shape = Vec<(String, i64, Vec<(String, Vec<(String, String, Vec<i64>)>)>)>;

fn shape(d: &StopData) -> Shape {
    let mut out: Shape = d
        .agencies
        .iter()
        .map(|(a, dirs)| {
            let mut ds: Vec<(String, Vec<(String, String, Vec<i64>)>)> = dirs
                .directions
                .iter()
                .map(|(dn, lines)| {
                    (
                        dn.clone(),
                        lines
                            .lines
                            .iter()
                            .map(|(l, ts)| (l.line.clone(), l.destination.clone(), ts.iter().map(|u| u.time.secs).collect()))
                            .collect(),
                    )
                })
                .collect();
            ds.sort();
            (a.clone(), dirs.live_time.secs, ds)
        })
        .collect();
    out.sort();
    out
}

#[test]
fn strip_bom_removes_utf8_mark() {
    let body = b"\xef\xbb\xbf{\"a\":1}";
    assert_eq!(strip_bom(body), b"{\"a\":1}".to_vec());
    assert_eq!(strip_bom(b"{}"), b"{}".to_vec());
    assert_eq!(strip_bom(b""), Vec::<u8>::new());
    assert_eq!(strip_bom(b"\xff\xfe\x00\x00x"), b"x".to_vec());
}

#[test]
fn journeys_filtered_to_requested_stops() {
    let js = vec![
        journey("N", "IB", "Downtown", "t", "1"),
        journey("N", "IB", "Downtown", "t", "2"),
        journey("J", "IB", "Downtown", "t", "3"),
        journey("K", "IB", "Downtown", "t", "1"),
    ];
    let kept = keep_requested_stops(js, &vec!["1".to_string(), "3".to_string()]);
    let lines: Vec<&str> = kept.iter().map(|j| j.line_ref.as_deref().unwrap()).collect();
    assert_eq!(lines, vec!["N", "J", "K"]);
}

#[test]
fn url_and_cache_path() {
    assert_eq!(
        feed_url("abc", "SF"),
        "https://api.511.org/transit/StopMonitoring?api_key=abc&agency=SF&format=json"
    );
    assert_eq!(Client::cache_path("SF"), ".cache-SF.json");
}

#[test]
fn refresh_failure_isolated_to_agency() {
    let fetches = vec![
        ("A".to_string(), Ok(vec![journey("N", "IB", "Downtown", "t", "1")])),
        ("B".to_string(), Err(FetchError::UpstreamStatus(503))),
    ];
    let t = now();
    let actions = Client::new("key".to_string(), vec![]).load_stop_data(fetches, t);
    assert_eq!(actions.len(), 2);
    match &actions[0] {
        RefreshAction::Store { agency, snapshot } => {
            assert_eq!(agency, "A");
            assert_eq!(snapshot.live_time, t);
            assert_eq!(snapshot.journeys.len(), 1);
        }
        RefreshAction::Report { .. } => panic!("A should be stored"),
    }
    match &actions[1] {
        RefreshAction::Report { agency, error } => {
            assert_eq!(agency, "B");
            assert_eq!(*error, FetchError::UpstreamStatus(503));
        }
        RefreshAction::Store { .. } => panic!("B should be left alone"),
    }
}

#[test]
fn load_merges_agencies_by_direction() {
    let cfg = config(vec![stop_config("SF"), stop_config("AC")], vec![], vec![]);
    let access = DataAccess::new(&cfg);
    let data = access.load_stop_data_at(&cfg.stops, snapshots(), now()).unwrap();
    let s = shape(&data);
    assert_eq!(s.len(), 2);
    assert_eq!(s[0].0, "AC");
    assert_eq!(s[0].1, NOW_SECS - 30);
    assert_eq!(s[0].2, vec![("N".to_string(), vec![("20".to_string(), "Oakland".to_string(), vec![NOW_SECS + 720])])]);
    assert_eq!(s[1].0, "SF");
    assert_eq!(s[1].1, NOW_SECS - 100);
    assert_eq!(
        s[1].2,
        vec![
            (
                "IB".to_string(),
                vec![
                    ("J".to_string(), "Downtown".to_string(), vec![NOW_SECS + 150]),
                    ("N".to_string(), "Downtown".to_string(), vec![NOW_SECS + 300]),
                ]
            ),
            ("OB".to_string(), vec![("N".to_string(), "Ocean Beach".to_string(), vec![NOW_SECS + 420])]),
        ]
    );
}

#[test]
fn reread_with_unchanged_cache_is_equal() {
    let cfg = config(vec![stop_config("SF"), stop_config("AC")], vec![], vec![]);
    let access = DataAccess::new(&cfg);
    let first = access.load_stop_data_at(&cfg.stops, snapshots(), now()).unwrap();
    let later = Timestamp { secs: NOW_SECS + 5, nanos: 0 };
    let second = access.load_stop_data_at(&cfg.stops, snapshots(), later).unwrap();
    assert_eq!(shape(&first), shape(&second));
}

#[test]
fn agency_without_arrivals_absent() {
    let cfg = config(vec![stop_config("SF"), stop_config("AC")], vec![], vec![]);
    let access = DataAccess::new(&cfg);
    let snaps = vec![
        Ok(Cached { journeys: vec![], live_time: now() }),
        Ok(Cached { journeys: vec![journey("20", "N", "Oakland", "2024-01-01T00:12:00Z", "1")], live_time: now() }),
    ];
    let data = access.load_stop_data_at(&cfg.stops, snaps, now()).unwrap();
    assert_eq!(data.agencies.len(), 1);
    assert_eq!(data.agencies[0].0, "AC");
}

#[test]
fn missing_snapshot_fails_read() {
    let cfg = config(vec![stop_config("SF"), stop_config("AC"), stop_config("BA")], vec![], vec![]);
    let access = DataAccess::new(&cfg);
    let mut snaps = snapshots();
    snaps.push(Err(CacheError::Corrupt("eof".to_string())));
    snaps[1] = Err(CacheError::NotFound);
    let r = access.load_stop_data_at(&cfg.stops, snaps, now());
    assert_eq!(r.err(), Some(LoadError { agency: "AC".to_string(), cause: LoadCause::Cache(CacheError::NotFound) }));
}

#[test]
fn bad_time_fails_read_with_agency() {
    let cfg = config(vec![stop_config("SF")], vec![], vec![]);
    let access = DataAccess::new(&cfg);
    let snaps = vec![Ok(Cached { journeys: vec![journey("N", "IB", "Downtown", "bad", "1")], live_time: now() })];
    let r = access.load_stop_data_at(&cfg.stops, snaps, now());
    assert_eq!(
        r.err(),
        Some(LoadError { agency: "SF".to_string(), cause: LoadCause::Time(TimeParseError { value: "bad".to_string() }) })
    );
}

#[test]
fn merge_of_nothing_is_empty() {
    let data = merge_responses(&vec![]);
    assert!(data.agencies.is_empty());
}

#[test]
fn layout_rows_follow_sections() {
    let cfg = config(
        vec![stop_config("SF"), stop_config("AC")],
        vec![
            agency_section("SF", "IB"),
            SectionConfig::TextSection(TextSectionConfig { text: "Have a nice day".to_string() }),
            agency_section("SF", "XX"),
        ],
        vec![agency_section("ZZ", "N"), agency_section("AC", "N")],
    );
    let access = DataAccess::new(&cfg);
    let data = access.load_stop_data_at(&cfg.stops, snapshots(), now()).unwrap();
    let layout = data_to_layout_at(&data, &cfg, now());
    assert_eq!(layout.left.rows.len(), 2);
    match &layout.left.rows[0] {
        Row::Agency(a) => {
            let lines: Vec<(&str, &str, Vec<i64>)> =
                a.lines.iter().map(|l| (l.id.as_str(), l.destination.as_str(), l.departure_minutes.clone())).collect();
            assert_eq!(lines, vec![("J", "Downtown", vec![2]), ("N", "Downtown", vec![5])]);
        }
        Row::Text(_) => panic!("expected an agency row"),
    }
    match &layout.left.rows[1] {
        Row::Text(t) => assert_eq!(t, "Have a nice day"),
        Row::Agency(_) => panic!("expected a text row"),
    }
    assert_eq!(layout.right.rows.len(), 1);
    let mut all: Vec<(String, i64)> = layout.all_agencies.iter().map(|(a, t)| (a.clone(), t.secs)).collect();
    all.sort();
    assert_eq!(all, vec![("AC".to_string(), NOW_SECS - 30), ("SF".to_string(), NOW_SECS - 100)]);
}

#[test]
fn departure_minutes_joined() {
    let l = ShownLine { id: "N".to_string(), destination: "Downtown".to_string(), departure_minutes: vec![1, 12, 25] };
    assert_eq!(l.departure_minutes_str(), "1, 12, 25");
    let empty = ShownLine { id: "N".to_string(), destination: "Downtown".to_string(), departure_minutes: vec![] };
    assert_eq!(empty.departure_minutes_str(), "");
    let mixed = ShownLine { id: "N".to_string(), destination: "Downtown".to_string(), departure_minutes: vec![-3, 0, 105] };
    assert_eq!(mixed.departure_minutes_str(), "-3, 0, 105");
}

#[test]
fn merged_lines_sorted_bounded_and_filed_correctly() {
    let cfg = config(vec![stop_config("SF"), stop_config("AC")], vec![], vec![]);
    let access = DataAccess::new(&cfg);
    let mut snaps = snapshots();
    if let Ok(c) = &mut snaps[0] {
        for m in [59u32, 9, 41, 3, 17, 12] {
            c.journeys.push(journey("N", "IB", "Downtown", &format!("2024-01-01T00:{:02}:00Z", m), "1"));
        }
        c.journeys.push(journey("N", "IB", "Downtown", "2023-12-31T23:00:00Z", "1"));
    }
    let data = access.load_stop_data_at(&cfg.stops, snaps, now()).unwrap();
    for (agency, dirs) in &data.agencies {
        for (direction, lines) in &dirs.directions {
            for (line, times) in &lines.lines {
                assert_eq!(&line.agency, agency);
                assert_eq!(&line.direction, direction);
                assert!(!times.is_empty() && times.len() <= 4);
                for w in times.windows(2) {
                    assert!(w[0].time <= w[1].time);
                }
                for t in times {
                    assert!(t.time >= now());
                }
            }
        }
    }
}

#[test]
fn freshness_marks_old_data() {
    let live = now();
    assert_eq!(freshness(live, Timestamp { secs: NOW_SECS + 299, nanos: 999_999_999 }), Freshness::Fresh);
    assert_eq!(freshness(live, Timestamp { secs: NOW_SECS + 300, nanos: 0 }), Freshness::Stale(5));
    assert_eq!(freshness(live, Timestamp { secs: NOW_SECS + 1000, nanos: 0 }), Freshness::Stale(16));
    assert_eq!(freshness(live, Timestamp { secs: NOW_SECS - 1000, nanos: 0 }), Freshness::Fresh);
}
