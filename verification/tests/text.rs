use tile_traffic::text::{decimal_string, quote_string, replace_all_str};

#[test]
fn decimal_string_prints_like_display() {
    for n in [0u64, 7, 10, 99, 100, 12345, u64::MAX] {
        assert_eq!(decimal_string(n), n.to_string());
    }
}

#[test]
fn quote_string_escapes_backslash_and_quote() {
    assert_eq!(quote_string("200 OK"), "\"200 OK\"");
    assert_eq!(quote_string("a\"b"), "\"a\\\"b\"");
    assert_eq!(quote_string("c:\\d"), "\"c:\\\\d\"");
    assert_eq!(quote_string(""), "\"\"");
}

#[test]
fn replace_all_matches_str_replace() {
    for (s, p, r) in [
        ("{z}/{x}/{y}", "{x}", "12"),
        ("aaaa", "aa", "b"),
        ("abc", "d", "e"),
        ("{x}{x}", "{x}", ""),
        ("héllo {x}", "{x}", "wörld"),
    ] {
        assert_eq!(replace_all_str(s, p, r), s.replace(p, r));
    }
}
