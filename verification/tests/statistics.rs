use tile_traffic::statistics::{
    RequestMetric, StatsEvent, StatsRecorder, Summary, TuiState, MAX_URLS,
};
use tile_traffic::tally::{HeaderTallies, SortedMap, Tally, ZoomTally};

fn metric() -> RequestMetric {
    RequestMetric::new(
        "http://example.com/3/1/2.pbf".to_string(),
        "200 OK".to_string(),
        1000,
        10_000_000, // 10 ms
        Some("application/x-protobuf".to_string()),
        3,
        SortedMap::new(),
    )
}

fn apply(r: &mut StatsRecorder, e: StatsEvent) {
    assert!(r.fits(&e));
    r.apply(e);
}

fn mean(xs: &[f64]) -> f64 {
    xs.iter().sum::<f64>() / xs.len() as f64
}

#[test]
fn stats_actor_returns_summary_and_marks_done() {
    let mut r = StatsRecorder::new(TuiState::new());
    apply(&mut r, StatsEvent::Metric(metric()));
    r.finish();
    assert!(r.state.done);

    let times_ms: Vec<f64> = r
        .state
        .response_times
        .iter()
        .map(|n| (std::time::Duration::from_nanos(*n).as_secs_f64() * 1000.).round())
        .collect();
    let sizes_kb: Vec<f64> = r.state.response_sizes.iter().map(|b| (*b as f64 / 1000.).round()).collect();
    assert!((mean(&times_ms) - 10.0).abs() < 1e-9);
    assert!((mean(&sizes_kb) - 1.0).abs() < 1e-9);

    let summary = r.into_summary(format!("{}", mean(&times_ms)), format!("{}", mean(&sizes_kb)));
    assert_eq!(summary.tiles, 1);
    assert_eq!(summary.mean_response_time_ms, "10");
    assert_eq!(summary.mean_content_length_kb, "1");
}

#[test]
fn stats_actor_records_urls() {
    let mut r = StatsRecorder::new(TuiState::new());
    apply(&mut r, StatsEvent::Url("http://example.com/1/2/3.pbf".to_string()));
    apply(&mut r, StatsEvent::Metric(metric()));
    r.finish();
    assert_eq!(r.state.urls, vec!["http://example.com/1/2/3.pbf".to_string()]);
}

#[test]
fn stats_actor_caps_url_history() {
    let mut r = StatsRecorder::new(TuiState::new());
    for i in 0..(MAX_URLS + 1) {
        apply(&mut r, StatsEvent::Url(format!("url-{i}")));
    }
    r.finish();
    assert_eq!(r.state.urls.len(), MAX_URLS);
    assert_eq!(r.state.urls[0], "url-1");
    assert_eq!(r.state.urls[MAX_URLS - 1], format!("url-{MAX_URLS}"));
}

#[test]
fn stats_actor_counts_header_values() {
    let mut r = StatsRecorder::new(TuiState::new());

    let mut m1 = metric();
    m1.header_values.insert("X-Cache".to_string(), "HIT".to_string());
    apply(&mut r, StatsEvent::Metric(m1));

    let mut m2 = metric();
    m2.header_values.insert("X-Cache".to_string(), "MISS".to_string());
    apply(&mut r, StatsEvent::Metric(m2));

    let mut m3 = metric();
    m3.header_values.insert("X-Cache".to_string(), "HIT".to_string());
    apply(&mut r, StatsEvent::Metric(m3));

    let summary = r.into_summary(String::new(), String::new());
    let counts = summary.header_values.get(&"X-Cache".to_string()).unwrap();
    assert_eq!(counts.get(&"HIT".to_string()), Some(&2));
    assert_eq!(counts.get(&"MISS".to_string()), Some(&1));
}

#[test]
fn summary_to_yaml_quotes_strings_and_uses_integer_zoom_levels() {
    let mut status_codes = Tally::new();
    status_codes.insert("200 OK".to_string(), 2);
    let mut content_types = Tally::new();
    content_types.insert("application/x-protobuf".to_string(), 3);
    let mut zoom_levels = ZoomTally::new();
    zoom_levels.insert(14, 4);
    let summary = Summary {
        tiles: 9,
        mean_response_time_ms: format!("{}", 113.5f64),
        mean_content_length_kb: format!("{}", 0.5f64),
        status_codes,
        content_types,
        zoom_levels,
        header_values: HeaderTallies::new(),
    };

    assert_eq!(
        summary.to_yaml(),
        "tiles: 9\nmean_response_time_ms: 113.5\nmean_content_length_kb: 0.5\nstatus_codes:\n  \"200 OK\": 2\ncontent_types:\n  \"application/x-protobuf\": 3\nzoom_levels:\n  14: 4\nheaders:\n"
    );
}

#[test]
fn summary_to_yaml_includes_header_value_counts() {
    let mut cache = Tally::new();
    cache.insert("HIT".to_string(), 2);
    cache.insert("MISS".to_string(), 1);
    let mut header_values = HeaderTallies::new();
    header_values.insert("X-Cache".to_string(), cache);
    let summary = Summary {
        tiles: 1,
        mean_response_time_ms: format!("{}", 10.0f64),
        mean_content_length_kb: format!("{}", 1.0f64),
        status_codes: Tally::new(),
        content_types: Tally::new(),
        zoom_levels: ZoomTally::new(),
        header_values,
    };

    let yaml = summary.to_yaml();
    assert!(yaml.contains("headers:\n  \"X-Cache\":\n    \"HIT\": 2\n    \"MISS\": 1\n"));
}

#[test]
fn summary_yaml_sorts_keys_and_escapes_quotes() {
    let mut status_codes = Tally::new();
    status_codes.insert("404 Not Found".to_string(), 1);
    status_codes.insert("200 OK".to_string(), 5);
    let mut content_types = Tally::new();
    content_types.insert("a\"b\\c".to_string(), 1);
    let mut zoom_levels = ZoomTally::new();
    zoom_levels.insert(10, 1);
    zoom_levels.insert(9, 2);
    let summary = Summary {
        tiles: 3,
        mean_response_time_ms: "1".to_string(),
        mean_content_length_kb: "2".to_string(),
        status_codes,
        content_types,
        zoom_levels,
        header_values: HeaderTallies::new(),
    };
    assert_eq!(
        summary.to_yaml(),
        "tiles: 3\nmean_response_time_ms: 1\nmean_content_length_kb: 2\nstatus_codes:\n  \"200 OK\": 5\n  \"404 Not Found\": 1\ncontent_types:\n  \"a\\\"b\\\\c\": 1\nzoom_levels:\n  9: 2\n  10: 1\nheaders:\n"
    );
}

#[test]
fn recorder_counts_every_request_once_per_table() {
    let mut r = StatsRecorder::new(TuiState::new());
    let mut m = metric();
    m.status = "404 Not Found".to_string();
    m.zoom = 5;
    apply(&mut r, StatsEvent::Metric(metric()));
    apply(&mut r, StatsEvent::Metric(m));
    apply(&mut r, StatsEvent::Url("u".to_string()));
    apply(&mut r, StatsEvent::Metric(metric()));
    assert_eq!(r.count, 3);
    assert_eq!(r.state.status_codes.get(&"200 OK".to_string()), Some(&2));
    assert_eq!(r.state.status_codes.get(&"404 Not Found".to_string()), Some(&1));
    assert_eq!(r.state.zoom_levels.get(&3), Some(&2));
    assert_eq!(r.state.zoom_levels.get(&5), Some(&1));
    assert_eq!(r.state.content_types.get(&"application/x-protobuf".to_string()), Some(&3));
    let total: usize = (0..r.state.status_codes.len()).map(|i| *r.state.status_codes.value_at(i)).sum();
    assert_eq!(total, 3);
    assert_eq!(r.state.response_times.len(), 3);
    assert_eq!(r.state.urls, vec!["u".to_string()]);
}

#[test]
fn recorder_refuses_a_count_that_would_overflow() {
    let mut state = TuiState::new();
    state.status_codes.insert("200 OK".to_string(), usize::MAX);
    let r = StatsRecorder::new(state);
    assert!(!r.fits(&StatsEvent::Metric(metric())));
    assert!(r.fits(&StatsEvent::Url("u".to_string())));
}

#[test]
fn recorder_done_only_after_finish() {
    let mut r = StatsRecorder::new(TuiState::new());
    apply(&mut r, StatsEvent::Metric(metric()));
    assert!(!r.state.done);
    r.finish();
    assert!(r.state.done);
}
