use tile_traffic::statistics::TuiState;
use tile_traffic::tally::{track_header, record_header_value, Tally, ZoomTally};
use tile_traffic::tui::{count_height, count_lines, histogram_text, url_lines};

#[test]
fn histogram_text_is_empty_when_no_values() {
    assert_eq!(histogram_text(&vec![], 8), "Empty histogram\n");
}

#[test]
fn histogram_text_renders_buckets_and_counts() {
    let text = histogram_text(&vec![1, 2, 4], 2);
    assert!(text.contains('█'), "expected histogram bars, got: {text}");
    assert!(text.contains("(2)"), "expected a bucket count of 2, got: {text}");
    assert!(text.contains("(1)"), "expected a bucket count of 1, got: {text}");
}

#[test]
fn count_lines_empty_table() {
    let lines = count_lines("Status codes", &Tally::new());
    assert_eq!(lines, vec!["Status codes".to_string(), "(none)".to_string()]);
}

#[test]
fn count_lines_ranks_by_count_then_key() {
    let mut t = Tally::new();
    t.insert("b".to_string(), 2);
    t.insert("a".to_string(), 2);
    t.insert("c".to_string(), 5);
    t.insert("d".to_string(), 1);
    let lines = count_lines("X-Cache", &t);
    assert_eq!(lines, vec!["X-Cache", "c: 5", "a: 2", "b: 2", "d: 1"]);
}

#[test]
fn count_lines_shows_all_eight_values_without_ellipsis() {
    let mut t = Tally::new();
    for i in 0..8 {
        t.insert(format!("v{i:02}"), 1);
    }
    let lines = count_lines("X-High", &t);
    assert_eq!(lines.len(), 9);
    assert!(!lines.contains(&"...".to_string()));
    assert!(lines.contains(&"v07: 1".to_string()));
}

#[test]
fn count_lines_truncates_nine_values_with_ellipsis() {
    let mut t = Tally::new();
    for i in 0..9 {
        t.insert(format!("v{i:02}"), 1);
    }
    let lines = count_lines("X-High", &t);
    assert_eq!(lines.len(), 9);
    assert_eq!(lines[8], "...");
    assert!(lines.contains(&"v06: 1".to_string()));
    assert!(!lines.contains(&"v07: 1".to_string()));
}

#[test]
fn count_lines_zoom_levels_numeric_keys() {
    let mut z = ZoomTally::new();
    z.insert(10, 3);
    z.insert(9, 3);
    z.insert(4, 1);
    assert_eq!(count_lines("Zoom levels", &z), vec!["Zoom levels", "9: 3", "10: 3", "4: 1"]);
}

#[test]
fn url_lines_empty() {
    assert_eq!(url_lines(&vec![]), vec!["Recent URLs", "(none)"]);
}

#[test]
fn url_lines_scroll_off_oldest() {
    let urls: Vec<String> = (0..8).map(|i| format!("https://tiles.example.com/{i}/1/2.pbf")).collect();
    let lines = url_lines(&urls);
    assert_eq!(lines.len(), 6);
    assert_eq!(lines[0], "Recent URLs");
    assert_eq!(lines[1], "https://tiles.example.com/3/1/2.pbf");
    assert_eq!(lines[5], "https://tiles.example.com/7/1/2.pbf");
    assert!(!lines.contains(&"https://tiles.example.com/0/1/2.pbf".to_string()));
}

#[test]
fn count_height_between_two_and_nine() {
    let mut s = TuiState::new();
    assert_eq!(count_height(&s), 2);
    s.status_codes.insert("200 OK".to_string(), 1);
    s.status_codes.insert("404 Not Found".to_string(), 1);
    assert_eq!(count_height(&s), 3);
    track_header(&mut s.header_values, "X".to_string());
    for i in 0..20 {
        record_header_value(&mut s.header_values, "X".to_string(), format!("{i}"));
    }
    assert_eq!(count_height(&s), 9);
}
