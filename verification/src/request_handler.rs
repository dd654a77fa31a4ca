//! What a response says about the tracked headers.
use vstd::prelude::*;
use crate::tally::SortedMap;
use crate::text::push_char;
use crate::statistics::MISSING_HEADER_VALUE;

verus! {

/// A byte that may stand in header text: tab or visible ASCII.
pub open spec fn is_visible_ascii(b: u8) -> bool {
    (32 <= b && b < 127) || b == 9
}

/// The bytes read as characters, one per byte.
pub open spec fn ascii_chars(bytes: Seq<u8>) -> Seq<char> {
    bytes.map_values(|b: u8| b as char)
}

/// The text recorded for a header: its value when the response carried it
/// and every byte is tab or visible ASCII, else `(missing)`.
pub open spec fn header_text(value: Option<Vec<u8>>) -> Seq<char> {
    match value {
        Some(bytes) => if forall|i: int| 0 <= i < bytes@.len() ==> is_visible_ascii(#[trigger] bytes@[i]) {
            ascii_chars(bytes@)
        } else {
            MISSING_HEADER_VALUE@
        },
        None => MISSING_HEADER_VALUE@,
    }
}

/// Header name to recorded text, the later of two equal names winning.
pub open spec fn collect_headers(names: Seq<String>, found: Seq<Option<Vec<u8>>>) -> Map<Seq<char>, Seq<char>>
    decreases names.len(),
{
    if names.len() == 0 {
        Map::empty()
    } else {
        collect_headers(names.drop_last(), found.drop_last()).insert(
            names.last()@,
            header_text(found[names.len() - 1]),
        )
    }
}

/// The texts of a map of strings.
pub open spec fn text_values(m: Map<Seq<char>, String>) -> Map<Seq<char>, Seq<char>> {
    Map::new(|k: Seq<char>| m.contains_key(k), |k: Seq<char>| m[k]@)
}

/// The text recorded for a header value.
pub fn header_text_of(value: &Option<Vec<u8>>) -> (text: String)
    ensures
        text@ == header_text(*value),
{
    match value {
        Some(bytes) => {
            let mut text = String::new();
            let n = bytes.len();
            let mut i: usize = 0;
            while i < n
                invariant
                    *value == Some(*bytes),
                    n == bytes@.len(),
                    i <= n,
                    forall|j: int| 0 <= j < i ==> is_visible_ascii(#[trigger] bytes@[j]),
                    text@ == ascii_chars(bytes@.take(i as int)),
                decreases n - i,
            {
                let b = bytes[i];
                if !((32 <= b && b < 127) || b == 9) {
                    assert(!is_visible_ascii(bytes@[i as int]));
                    return String::from_str(MISSING_HEADER_VALUE);
                }
                push_char(&mut text, b as char);
                i = i + 1;
                assert(text@ =~= ascii_chars(bytes@.take(i as int)));
            }
            assert(bytes@.take(n as int) =~= bytes@);
            text
        },
        None => String::from_str(MISSING_HEADER_VALUE),
    }
}

/// The recorded text of each tracked header: `names[i]`'s value in the
/// response is `found[i]` (`None` when the response lacks it).
pub fn header_values(found: &Vec<Option<Vec<u8>>>, names: &Vec<String>) -> (values: SortedMap<String, String>)
    requires
        found@.len() == names@.len(),
    ensures
        text_values(values@) == collect_headers(names@, found@),
{
    let mut values: SortedMap<String, String> = SortedMap::new();
    let n = names.len();
    let mut i: usize = 0;
    assert(text_values(values@) =~= Map::<Seq<char>, Seq<char>>::empty());
    assert(names@.take(0) =~= Seq::<String>::empty());
    while i < n
        invariant
            n == names@.len(),
            found@.len() == n,
            i <= n,
            text_values(values@) == collect_headers(names@.take(i as int), found@.take(i as int)),
        decreases n - i,
    {
        let text = header_text_of(&found[i]);
        values.insert(names[i].clone(), text);
        proof {
            assert(names@.take(i + 1).drop_last() =~= names@.take(i as int));
            assert(found@.take(i + 1).drop_last() =~= found@.take(i as int));
            assert(text_values(values@) =~= collect_headers(names@.take(i + 1), found@.take(i + 1)));
        }
        i = i + 1;
    }
    assert(names@.take(n as int) =~= names@);
    assert(found@.take(n as int) =~= found@);
    values
}

/// What is recorded for one header: a value made only of tab and the bytes
/// 32 to 126 (space included) is recorded as its own text, one character per
/// byte with that byte's code; a value holding any other byte, or no value,
/// is recorded as `(missing)`.
pub proof fn lemma_header_text_recorded(value: Option<Vec<u8>>)
    ensures
        value is None ==> header_text(value) == MISSING_HEADER_VALUE@,
        value matches Some(b) ==> ((forall|i: int| 0 <= i < b@.len() ==> (32 <= #[trigger] b@[i] <= 126 || b@[i] == 9))
            ==> header_text(value).len() == b@.len() && forall|i: int|
            0 <= i < b@.len() ==> (#[trigger] header_text(value)[i]) as u32 == b@[i] as u32),
        value matches Some(b) ==> ((exists|i: int| 0 <= i < b@.len() && !(32 <= #[trigger] b@[i] <= 126 || b@[i] == 9))
            ==> header_text(value) == MISSING_HEADER_VALUE@),
{
    if let Some(b) = value {
        if forall|i: int| 0 <= i < b@.len() ==> (32 <= #[trigger] b@[i] <= 126 || b@[i] == 9) {
            assert forall|i: int| 0 <= i < b@.len() implies is_visible_ascii(#[trigger] b@[i]) by {
                assert(32 <= b@[i] <= 126 || b@[i] == 9);
            }
            assert forall|i: int| 0 <= i < b@.len() implies (#[trigger] header_text(value)[i]) as u32 == b@[i] as u32 by {
                let c = b@[i];
                assert(header_text(value)[i] == c as char);
                assert((c as char) as u32 == c as u32);
            }
        } else {
            let j = choose|i: int| 0 <= i < b@.len() && !(32 <= #[trigger] b@[i] <= 126 || b@[i] == 9);
            assert(!is_visible_ascii(b@[j]));
        }
    }
}

/// With distinct header names, each name maps to the text recorded from its
/// own value, and only the names asked for appear.
pub proof fn lemma_collect_headers_at(names: Seq<String>, found: Seq<Option<Vec<u8>>>, i: int)
    requires
        names.len() == found.len(),
        forall|a: int, b: int| 0 <= a < b < names.len() ==> (#[trigger] names[a])@ != (#[trigger] names[b])@,
        0 <= i < names.len(),
    ensures
        collect_headers(names, found).contains_key(names[i]@),
        collect_headers(names, found)[names[i]@] == header_text(found[i]),
        forall|k: Seq<char>| #[trigger] collect_headers(names, found).contains_key(k) ==> exists|j: int|
            0 <= j < names.len() && (#[trigger] names[j])@ == k,
    decreases names.len(),
{
    let n = names.len();
    let dn = names.drop_last();
    let df = found.drop_last();
    if i < n - 1 {
        assert forall|a: int, b: int| 0 <= a < b < dn.len() implies (#[trigger] dn[a])@ != (#[trigger] dn[b])@ by {
            assert(dn[a] == names[a] && dn[b] == names[b]);
        }
        lemma_collect_headers_at(dn, df, i);
        assert(dn[i] == names[i]);
        assert(df[i] == found[i]);
        assert(names[i]@ != names[n - 1]@);
    }
    assert forall|k: Seq<char>| #[trigger] collect_headers(names, found).contains_key(k) implies exists|j: int|
        0 <= j < names.len() && (#[trigger] names[j])@ == k by {
        if k == names[n - 1]@ {
            assert(names[n - 1]@ == k);
        } else {
            lemma_collect_headers_domain(dn, df, k);
            let j = choose|j: int| 0 <= j < dn.len() && (#[trigger] dn[j])@ == k;
            assert(names[j] == dn[j]);
        }
    }
}

proof fn lemma_collect_headers_domain(names: Seq<String>, found: Seq<Option<Vec<u8>>>, k: Seq<char>)
    requires
        collect_headers(names, found).contains_key(k),
    ensures
        exists|j: int| 0 <= j < names.len() && (#[trigger] names[j])@ == k,
    decreases names.len(),
{
    let n = names.len();
    if names[n - 1]@ == k {
        assert(names[n - 1]@ == k);
    } else {
        let dn = names.drop_last();
        lemma_collect_headers_domain(dn, found.drop_last(), k);
        let j = choose|j: int| 0 <= j < dn.len() && (#[trigger] dn[j])@ == k;
        assert(names[j] == dn[j]);
    }
}

} // verus!
