use tile_traffic::request_handler::{header_text_of, header_values};
use tile_traffic::statistics::MISSING_HEADER_VALUE;

#[test]
fn header_values_extracts_present_and_missing() {
    // a response carrying `X-Cache: HIT` and no `X-Missing`
    let found = vec![Some(b"HIT".to_vec()), None];
    let names = vec!["X-Cache".to_string(), "X-Missing".to_string()];

    let values = header_values(&found, &names);

    assert_eq!(values.get(&"X-Cache".to_string()).map(String::as_str), Some("HIT"));
    assert_eq!(
        values.get(&"X-Missing".to_string()).map(String::as_str),
        Some(MISSING_HEADER_VALUE)
    );
}

#[test]
fn header_values_treats_non_utf8_as_missing() {
    // a response carrying `X-Binary` with the single byte 0xff
    let found = vec![Some(vec![0xffu8])];
    let names = vec!["X-Binary".to_string()];

    let values = header_values(&found, &names);

    assert_eq!(
        values.get(&"X-Binary".to_string()).map(String::as_str),
        Some(MISSING_HEADER_VALUE)
    );
}

#[test]
fn header_text_accepts_tab_and_visible_ascii_only() {
    assert_eq!(header_text_of(&Some(b"max-age=60\tpublic".to_vec())), "max-age=60\tpublic");
    assert_eq!(header_text_of(&Some(b"".to_vec())), "");
    assert_eq!(header_text_of(&Some(b"a\nb".to_vec())), MISSING_HEADER_VALUE);
    assert_eq!(header_text_of(&Some(vec![0x7f])), MISSING_HEADER_VALUE);
    assert_eq!(header_text_of(&None), MISSING_HEADER_VALUE);
}

#[test]
fn header_values_later_duplicate_name_wins() {
    let found = vec![Some(b"A".to_vec()), Some(b"B".to_vec())];
    let names = vec!["X-Same".to_string(), "X-Same".to_string()];
    let values = header_values(&found, &names);
    assert_eq!(values.len(), 1);
    assert_eq!(values.get(&"X-Same".to_string()).map(String::as_str), Some("B"));
}
