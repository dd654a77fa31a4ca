use tile_traffic::tally::{incr_count, incr_count_u32, record_header_value, track_header, HeaderTallies, Tally, ZoomTally};

#[test]
fn incr_count_starts_at_one_and_adds_one() {
    let t = Tally::new();
    let t = incr_count(t, "b".to_string());
    let t = incr_count(t, "a".to_string());
    let t = incr_count(t, "b".to_string());
    assert_eq!(t.get(&"a".to_string()), Some(&1));
    assert_eq!(t.get(&"b".to_string()), Some(&2));
    assert_eq!(t.get(&"c".to_string()), None);
    assert_eq!(t.len(), 2);
    assert_eq!(t.key_at(0), "a");
    assert_eq!(t.key_at(1), "b");
}

#[test]
fn incr_count_u32_keeps_numeric_order() {
    let mut z = ZoomTally::new();
    for k in [10u32, 9, 100, 9] {
        z = incr_count_u32(z, k);
    }
    assert_eq!(z.len(), 3);
    assert_eq!((*z.key_at(0), *z.value_at(0)), (9, 2));
    assert_eq!((*z.key_at(1), *z.value_at(1)), (10, 1));
    assert_eq!((*z.key_at(2), *z.value_at(2)), (100, 1));
}

#[test]
fn string_keys_follow_code_point_order() {
    let mut t = Tally::new();
    for k in ["é", "z", "Z", "", "ab", "a"] {
        t.increment(k.to_string());
    }
    let keys: Vec<&str> = (0..t.len()).map(|i| t.key_at(i).as_str()).collect();
    let mut sorted = keys.clone();
    sorted.sort();
    assert_eq!(keys, sorted);
    assert_eq!(keys, vec!["", "Z", "a", "ab", "z", "é"]);
}

#[test]
fn header_tallies_track_and_record() {
    let mut h = HeaderTallies::new();
    track_header(&mut h, "X-Cache".to_string());
    assert_eq!(h.get(&"X-Cache".to_string()).unwrap().len(), 0);
    record_header_value(&mut h, "X-Cache".to_string(), "HIT".to_string());
    record_header_value(&mut h, "X-Cache".to_string(), "HIT".to_string());
    record_header_value(&mut h, "Age".to_string(), "3".to_string());
    assert_eq!(h.get(&"X-Cache".to_string()).unwrap().get(&"HIT".to_string()), Some(&2));
    assert_eq!(h.get(&"Age".to_string()).unwrap().get(&"3".to_string()), Some(&1));
    assert_eq!(h.key_at(0), "Age");
    track_header(&mut h, "X-Cache".to_string());
    assert_eq!(h.get(&"X-Cache".to_string()).unwrap().len(), 0);
}

#[test]
fn insert_replaces_existing_value() {
    let mut t = Tally::new();
    t.insert("k".to_string(), 4);
    t.insert("k".to_string(), 7);
    assert_eq!(t.len(), 1);
    assert_eq!(t.get(&"k".to_string()), Some(&7));
}

#[test]
fn listing_does_not_depend_on_insertion_order() {
    let keys = ["x-cache", "age", "via", "etag", "age"];
    let mut a = Tally::new();
    for k in keys {
        a.increment(k.to_string());
    }
    let mut b = Tally::new();
    for k in keys.iter().rev() {
        b.increment(k.to_string());
    }
    let la: Vec<(String, usize)> = (0..a.len()).map(|i| (a.key_at(i).clone(), *a.value_at(i))).collect();
    let lb: Vec<(String, usize)> = (0..b.len()).map(|i| (b.key_at(i).clone(), *b.value_at(i))).collect();
    assert_eq!(la, lb);
    assert_eq!(la[0], ("age".to_string(), 2));
}

#[test]
fn position_finds_or_places_keys() {
    let mut t = Tally::new();
    t.insert("b".to_string(), 1);
    t.insert("d".to_string(), 1);
    assert_eq!(t.position(&"b".to_string()), Ok(0));
    assert_eq!(t.position(&"d".to_string()), Ok(1));
    assert_eq!(t.position(&"a".to_string()), Err(0));
    assert_eq!(t.position(&"c".to_string()), Err(1));
    assert_eq!(t.position(&"e".to_string()), Err(2));
}

#[test]
fn clone_keeps_every_entry_in_order() {
    let mut t = Tally::new();
    for k in ["z", "a", "m", "a"] {
        t = incr_count(t, k.to_string());
    }
    let c = t.clone();
    assert_eq!(c.len(), 3);
    for i in 0..3 {
        assert_eq!(c.key_at(i), t.key_at(i));
        assert_eq!(c.value_at(i), t.value_at(i));
    }
    assert_eq!(c.get(&"a".to_string()), Some(&2));
}
