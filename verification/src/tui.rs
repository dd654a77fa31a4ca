//! What the terminal view shows, as lines of text: the ranked count tables,
//! the recent URLs and the histograms.
use vstd::prelude::*;
use crate::tally::{SortKey, SortedMap, keys_ascending, lemma_ascending_distinct};
use crate::text::append_decimal;
use crate::text::decimal;
use cli_hist::histogram::Histogram;
use cli_hist::bucketers::linear_bucketer::LinearBucketer;
use vstd::multiset::Multiset;

verus! {

/// Most lines a count table may take, its title included.
pub const MAX_COUNT_LINES: usize = 9;

/// Lines of the recent-URL pane, its title included.
pub const URL_VIEW_LINES: usize = 6;

/// Entry `a` ranks before entry `b`: a higher count, or the same count and a
/// smaller key.
pub open spec fn ranks_before<K: SortKey>(a: (K::V, usize), b: (K::V, usize)) -> bool {
    a.1 > b.1 || (a.1 == b.1 && K::key_lt(a.0, b.0))
}

/// `r` lists every index of `p` once, best ranked entry first.
pub open spec fn is_ranking<K: SortKey>(p: Seq<(K::V, usize)>, r: Seq<int>) -> bool {
    &&& r.len() == p.len()
    &&& forall|k: int| 0 <= k < r.len() ==> 0 <= #[trigger] r[k] < p.len()
    &&& forall|a: int, b: int| 0 <= a < b < r.len() ==> #[trigger] r[a] != #[trigger] r[b]
    &&& forall|a: int, b: int| 0 <= a < b < r.len() ==> ranks_before::<K>(p[#[trigger] r[a]], p[#[trigger] r[b]])
    &&& forall|x: int| 0 <= x < p.len() ==> #[trigger] occurs(r, x)
}

/// Along a ranking the counts never rise, and entries with equal counts
/// come in ascending key order.
pub proof fn lemma_ranking_order<K: SortKey>(p: Seq<(K::V, usize)>, r: Seq<int>, a: int, b: int)
    requires
        is_ranking::<K>(p, r),
        0 <= a < b < r.len(),
    ensures
        p[r[a]].1 >= p[r[b]].1,
        p[r[a]].1 == p[r[b]].1 ==> K::key_lt(p[r[a]].0, p[r[b]].0),
{
    assert(ranks_before::<K>(p[r[a]], p[r[b]]));
}

/// `x` occurs in `r`.
pub open spec fn occurs<T>(r: Seq<T>, x: T) -> bool {
    exists|k: int| 0 <= k < r.len() && r[k] == x
}

/// The line that shows entry `e`: key, colon, space, count.
pub open spec fn entry_line<K: SortKey>(e: (K::V, usize)) -> Seq<char> {
    K::shown(e.0) + ": "@ + decimal(e.1 as nat)
}

/// The line of a string-keyed entry is the key's full text, `: ` and the
/// count in decimal; the line of a zoom-level entry is the zoom level in
/// decimal, `: ` and the count.
pub proof fn lemma_entry_line_text(name: Seq<char>, zoom: u32, count: usize)
    ensures
        entry_line::<String>((name, count)) == name + ": "@ + decimal(count as nat),
        entry_line::<String>((name, count)).take(name.len() as int) == name,
        entry_line::<u32>((zoom, count)) == decimal(zoom as nat) + ": "@ + decimal(count as nat),
{
    assert((name + ": "@ + decimal(count as nat)).take(name.len() as int) =~= name);
}

/// How many entries of a table of `n` entries are shown: all when they fit,
/// else two lines fewer than the most, to leave room for the title and an
/// ellipsis.
pub open spec fn shown_entries(n: nat) -> nat {
    if n < MAX_COUNT_LINES {
        n
    } else {
        (MAX_COUNT_LINES - 2) as nat
    }
}

proof fn lemma_ranks_before_total<K: SortKey>(a: (K::V, usize), b: (K::V, usize))
    requires
        a.0 != b.0,
    ensures
        ranks_before::<K>(a, b) || ranks_before::<K>(b, a),
{
    K::lemma_key_lt_total(a.0, b.0);
}

proof fn lemma_ranks_before_transitive<K: SortKey>(a: (K::V, usize), b: (K::V, usize), c: (K::V, usize))
    requires
        ranks_before::<K>(a, b),
        ranks_before::<K>(b, c),
    ensures
        ranks_before::<K>(a, c),
{
    if a.1 == b.1 && b.1 == c.1 {
        K::lemma_key_lt_transitive(a.0, b.0, c.0);
    }
}

/// Whether entry `a` of `m` ranks before entry `b`.
fn entry_ranks_before<K: SortKey>(m: &SortedMap<K, usize>, a: usize, b: usize) -> (r: bool)
    requires
        a < m.pairs().len(),
        b < m.pairs().len(),
    ensures
        r == ranks_before::<K>(m.pairs()[a as int], m.pairs()[b as int]),
{
    let ca = *m.value_at(a);
    let cb = *m.value_at(b);
    ca > cb || (ca == cb && m.key_at(a).key_less(m.key_at(b)))
}

/// The indices of `m`'s entries, best ranked first.
fn ranking<K: SortKey>(m: &SortedMap<K, usize>) -> (r: Vec<usize>)
    ensures
        is_ranking::<K>(m.pairs(), r@.map_values(|i: usize| i as int)),
{
    proof {
        use_type_invariant(m);
    }
    let ghost p = m.pairs();
    let n = m.len();
    let mut r: Vec<usize> = Vec::new();
    let mut i: usize = 0;
    while i < n
        invariant
            p == m.pairs(),
            keys_ascending::<K, usize>(p),
            n == p.len(),
            i <= n,
            r@.len() == i,
            forall|k: int| 0 <= k < r@.len() ==> #[trigger] r@[k] < i,
            forall|a: int, b: int| 0 <= a < b < r@.len() ==> #[trigger] r@[a] != #[trigger] r@[b],
            forall|a: int, b: int|
                0 <= a < b < r@.len() ==> ranks_before::<K>(p[#[trigger] r@[a] as int], p[#[trigger] r@[b] as int]),
            forall|x: usize| x < i ==> #[trigger] occurs(r@, x),
        decreases n - i,
    {
        let mut pos: usize = 0;
        while pos < r.len() && !entry_ranks_before(m, i, r[pos])
            invariant
                p == m.pairs(),
                keys_ascending::<K, usize>(p),
                n == p.len(),
                i < n,
                pos <= r@.len(),
                forall|k: int| 0 <= k < r@.len() ==> #[trigger] r@[k] < i,
                forall|k: int| 0 <= k < pos ==> !ranks_before::<K>(p[i as int], p[#[trigger] r@[k] as int]),
            decreases r.len() - pos,
        {
            pos = pos + 1;
        }
        let ghost old_r = r@;
        proof {
            assert forall|k: int| 0 <= k < pos implies ranks_before::<K>(p[#[trigger] old_r[k] as int], p[i as int]) by {
                if p[old_r[k] as int].0 == p[i as int].0 {
                    lemma_ascending_distinct::<K, usize>(p, old_r[k] as int, i as int);
                }
                lemma_ranks_before_total::<K>(p[i as int], p[old_r[k] as int]);
            }
            if pos < old_r.len() {
                assert forall|k: int| pos <= k < old_r.len() implies ranks_before::<K>(p[i as int], p[#[trigger] old_r[k] as int]) by {
                    if k > pos {
                        assert(ranks_before::<K>(p[old_r[pos as int] as int], p[old_r[k] as int]));
                        lemma_ranks_before_transitive::<K>(p[i as int], p[old_r[pos as int] as int], p[old_r[k] as int]);
                    }
                }
            }
        }
        r.insert(pos, i);
        proof {
            let nr = r@;
            assert forall|a: int, b: int| 0 <= a < b < nr.len() implies ranks_before::<K>(
                p[#[trigger] nr[a] as int],
                p[#[trigger] nr[b] as int],
            ) by {
                if a < pos && b > pos {
                    assert(nr[b] == old_r[b - 1]);
                    lemma_ranks_before_transitive::<K>(p[old_r[a] as int], p[i as int], p[old_r[b - 1] as int]);
                } else if a > pos {
                    assert(nr[a] == old_r[a - 1]);
                    assert(nr[b] == old_r[b - 1]);
                } else if b < pos {
                } else if a == pos {
                    assert(nr[b] == old_r[b - 1]);
                } else {
                    assert(nr[a] == old_r[a]);
                }
            }
            assert forall|a: int, b: int| 0 <= a < b < nr.len() implies #[trigger] nr[a] != #[trigger] nr[b] by {
                if a < pos && b > pos {
                    assert(nr[b] == old_r[b - 1]);
                } else if a > pos {
                    assert(nr[a] == old_r[a - 1]);
                    assert(nr[b] == old_r[b - 1]);
                } else if a == pos {
                    assert(nr[b] == old_r[b - 1]);
                }
            }
            assert forall|k: int| 0 <= k < nr.len() implies #[trigger] nr[k] < i + 1 by {
                if k > pos {
                    assert(nr[k] == old_r[k - 1]);
                } else if k < pos {
                    assert(nr[k] == old_r[k]);
                }
            }
            assert forall|x: usize| x < i + 1 implies #[trigger] occurs(nr, x) by {
                if x == i {
                    assert(nr[pos as int] == x);
                } else {
                    assert(occurs(old_r, x));
                    let k = choose|k: int| 0 <= k < old_r.len() && old_r[k] == x;
                    if k < pos {
                        assert(nr[k] == x);
                    } else {
                        assert(nr[k + 1] == x);
                    }
                }
            }
        }
        i = i + 1;
    }
    let ghost ri = r@.map_values(|i: usize| i as int);
    assert forall|a: int, b: int| 0 <= a < b < ri.len() implies ranks_before::<K>(p[#[trigger] ri[a]], p[#[trigger] ri[b]]) by {
        assert(ranks_before::<K>(p[r@[a] as int], p[r@[b] as int]));
    }
    assert forall|a: int, b: int| 0 <= a < b < ri.len() implies #[trigger] ri[a] != #[trigger] ri[b] by {
        assert(r@[a] != r@[b]);
    }
    assert forall|k: int| 0 <= k < ri.len() implies 0 <= #[trigger] ri[k] < p.len() by {
        assert(r@[k] < n);
    }
    assert forall|x: int| 0 <= x < p.len() implies #[trigger] occurs(ri, x) by {
        assert(occurs(r@, x as usize));
        let k = choose|k: int| 0 <= k < r@.len() && r@[k] == x as usize;
        assert(ri[k] == x);
    }
    r
}

proof fn lemma_ranks_before_asymmetric<K: SortKey>(a: (K::V, usize), b: (K::V, usize))
    requires
        ranks_before::<K>(a, b),
    ensures
        !ranks_before::<K>(b, a),
{
    if ranks_before::<K>(b, a) {
        K::lemma_key_lt_transitive(a.0, b.0, a.0);
        K::lemma_key_lt_irreflexive(a.0);
    }
}

proof fn lemma_rankings_agree_below<K: SortKey>(p: Seq<(K::V, usize)>, r1: Seq<int>, r2: Seq<int>, k: int)
    requires
        is_ranking::<K>(p, r1),
        is_ranking::<K>(p, r2),
        0 <= k <= r1.len(),
    ensures
        forall|j: int| 0 <= j < k ==> #[trigger] r1[j] == r2[j],
    decreases k,
{
    if k > 0 {
        lemma_rankings_agree_below::<K>(p, r1, r2, k - 1);
        let c = k - 1;
        let a = r1[c];
        let b = r2[c];
        if a != b {
            assert(occurs(r2, a));
            assert(occurs(r1, b));
            let m = choose|m: int| 0 <= m < r2.len() && r2[m] == a;
            let m2 = choose|m2: int| 0 <= m2 < r1.len() && r1[m2] == b;
            if m < c {
                assert(r1[m] == r2[m]);
            }
            if m2 < c {
                assert(r2[m2] == r1[m2]);
            }
            assert(m > c && m2 > c);
            assert(ranks_before::<K>(p[r2[c]], p[r2[m]]));
            assert(ranks_before::<K>(p[r1[c]], p[r1[m2]]));
            lemma_ranks_before_asymmetric::<K>(p[b], p[a]);
        }
    }
}

/// A table has one ranking only: two rankings of the same entries are equal,
/// so the lines of `count_lines` are determined by the table.
pub proof fn lemma_ranking_unique<K: SortKey>(p: Seq<(K::V, usize)>, r1: Seq<int>, r2: Seq<int>)
    requires
        is_ranking::<K>(p, r1),
        is_ranking::<K>(p, r2),
    ensures
        r1 == r2,
{
    lemma_rankings_agree_below::<K>(p, r1, r2, r1.len() as int);
    assert(r1 =~= r2);
}

/// The line for entry `i` of `m`.
fn entry_text<K: SortKey>(m: &SortedMap<K, usize>, i: usize) -> (line: String)
    requires
        i < m.pairs().len(),
    ensures
        line@ == entry_line::<K>(m.pairs()[i as int]),
{
    let mut line = String::new();
    m.key_at(i).write_shown(&mut line);
    line.append(": ");
    append_decimal(&mut line, *m.value_at(i) as u64);
    line
}

/// The lines of a count table: the title; then `(none)` when the table is
/// empty; else its entries from highest count down (ties by ascending key),
/// at most `MAX_COUNT_LINES - 2` of them followed by `...` when they do not
/// all fit in `MAX_COUNT_LINES - 1` lines.
pub fn count_lines<K: SortKey>(title: &str, counts: &SortedMap<K, usize>) -> (lines: Vec<String>)
    ensures
        lines@.len() > 0,
        lines@[0]@ == title@,
        counts.pairs().len() == 0 ==> lines@.len() == 2 && lines@[1]@ == "(none)"@,
        counts.pairs().len() > 0 ==> exists|r: Seq<int>| {
            &&& is_ranking::<K>(counts.pairs(), r)
            &&& lines@.len() == 1 + shown_entries(counts.pairs().len()) + (if counts.pairs().len()
                < MAX_COUNT_LINES {
                0int
            } else {
                1int
            })
            &&& forall|k: int|
                0 <= k < shown_entries(counts.pairs().len()) ==> (#[trigger] lines@[k + 1])@ == entry_line::<K>(
                    counts.pairs()[r[k]],
                )
            &&& counts.pairs().len() >= MAX_COUNT_LINES ==> lines@[lines@.len() - 1]@ == "..."@
        },
{
    let mut lines: Vec<String> = Vec::new();
    lines.push(String::from_str(title));
    let n = counts.len();
    if n == 0 {
        lines.push(String::from_str("(none)"));
        return lines;
    }
    let r = ranking(counts);
    let ghost ri = r@.map_values(|i: usize| i as int);
    let fits = n < MAX_COUNT_LINES;
    let shown = if fits { n } else { MAX_COUNT_LINES - 2 };
    let mut k: usize = 0;
    while k < shown
        invariant
            n == counts.pairs().len(),
            shown == shown_entries(n as nat),
            shown <= n,
            r@.len() == n,
            ri == r@.map_values(|i: usize| i as int),
            is_ranking::<K>(counts.pairs(), ri),
            k <= shown,
            lines@.len() == 1 + k,
            lines@[0]@ == title@,
            forall|j: int| 0 <= j < k ==> (#[trigger] lines@[j + 1])@ == entry_line::<K>(counts.pairs()[ri[j]]),
        decreases shown - k,
    {
        assert(ri[k as int] == r@[k as int] as int);
        let line = entry_text(counts, r[k]);
        lines.push(line);
        k = k + 1;
    }
    if !fits {
        lines.push(String::from_str("..."));
    }
    lines
}

/// The lines of the recent-URL pane: the title, then `(none)` when there
/// are no URLs, else the last `URL_VIEW_LINES - 1` of them (all when fewer),
/// oldest first.
pub fn url_lines(urls: &Vec<String>) -> (lines: Vec<String>)
    ensures
        lines@.len() > 0,
        lines@[0]@ == "Recent URLs"@,
        urls@.len() == 0 ==> lines@.len() == 2 && lines@[1]@ == "(none)"@,
        urls@.len() > 0 ==> {
            let start = if urls@.len() > URL_VIEW_LINES - 1 { urls@.len() - (URL_VIEW_LINES - 1) } else { 0 };
            &&& lines@.len() == 1 + urls@.len() - start
            &&& forall|k: int| 0 <= k < urls@.len() - start ==> (#[trigger] lines@[k + 1])@ == urls@[start + k]@
        },
{
    let mut lines: Vec<String> = Vec::new();
    lines.push(String::from_str("Recent URLs"));
    let n = urls.len();
    if n == 0 {
        lines.push(String::from_str("(none)"));
        return lines;
    }
    let view = URL_VIEW_LINES - 1;
    let start = if n > view { n - view } else { 0 };
    let mut i: usize = start;
    while i < n
        invariant
            n == urls@.len(),
            start <= i <= n,
            start == (if n > URL_VIEW_LINES - 1 { n - (URL_VIEW_LINES - 1) } else { 0 }),
            lines@.len() == 1 + i - start,
            lines@[0]@ == "Recent URLs"@,
            forall|k: int| 0 <= k < i - start ==> (#[trigger] lines@[k + 1])@ == urls@[start + k]@,
        decreases n - i,
    {
        lines.push(urls[i].clone());
        i = i + 1;
    }
    lines
}

/// The largest number of entries among the header tables of `p`.
pub open spec fn widest_header(p: Seq<(Seq<char>, crate::tally::Tally)>) -> nat
    decreases p.len(),
{
    if p.len() == 0 {
        0
    } else {
        let rest = widest_header(p.drop_last());
        let last = p.last().1.pairs().len();
        if rest >= last { rest } else { last }
    }
}

/// `widest_header(p)` is the largest table size in `p`: no table of `p` has
/// more entries, and some table has exactly that many (0 when `p` is empty).
pub proof fn lemma_widest_header_is_max(p: Seq<(Seq<char>, crate::tally::Tally)>)
    ensures
        forall|i: int| 0 <= i < p.len() ==> (#[trigger] p[i]).1.pairs().len() <= widest_header(p),
        p.len() == 0 ==> widest_header(p) == 0,
        p.len() > 0 ==> exists|i: int| 0 <= i < p.len() && (#[trigger] p[i]).1.pairs().len() == widest_header(p),
    decreases p.len(),
{
    if p.len() > 0 {
        let d = p.drop_last();
        lemma_widest_header_is_max(d);
        assert forall|i: int| 0 <= i < p.len() implies (#[trigger] p[i]).1.pairs().len() <= widest_header(p) by {
            if i < d.len() {
                assert(p[i] == d[i]);
            }
        }
        if widest_header(p) == p.last().1.pairs().len() {
            assert(p[p.len() - 1] == p.last());
        } else {
            let i = choose|i: int| 0 <= i < d.len() && (#[trigger] d[i]).1.pairs().len() == widest_header(d);
            assert(p[i] == d[i]);
        }
    }
}

/// The largest number of entries among all the count tables of `state`.
pub open spec fn widest_table(state: &crate::statistics::TuiState) -> nat {
    let a = state.status_codes.pairs().len();
    let b = state.content_types.pairs().len();
    let c = state.zoom_levels.pairs().len();
    let d = widest_header(state.header_values.pairs());
    let ab = if a >= b { a } else { b };
    let abc = if ab >= c { ab } else { c };
    if abc >= d { abc } else { d }
}

/// Height of the count tables pane: the widest table's entries, between 1
/// and `MAX_COUNT_LINES - 1`, plus one line for the titles.
pub fn count_height(state: &crate::statistics::TuiState) -> (h: u16)
    ensures
        h == (if widest_table(state) < 1 {
            1
        } else if widest_table(state) > MAX_COUNT_LINES - 1 {
            (MAX_COUNT_LINES - 1) as nat
        } else {
            widest_table(state)
        }) + 1,
{
    let mut entries = state.status_codes.len();
    let b = state.content_types.len();
    if b > entries {
        entries = b;
    }
    let c = state.zoom_levels.len();
    if c > entries {
        entries = c;
    }
    let hv = &state.header_values;
    let n = hv.len();
    let mut i: usize = 0;
    let mut widest: usize = 0;
    assert(hv.pairs().take(0) =~= Seq::<(Seq<char>, crate::tally::Tally)>::empty());
    while i < n
        invariant
            n == hv.pairs().len(),
            i <= n,
            widest == widest_header(hv.pairs().take(i as int)),
        decreases n - i,
    {
        let len = hv.value_at(i).len();
        proof {
            let t = hv.pairs().take(i + 1);
            assert(t.drop_last() =~= hv.pairs().take(i as int));
            assert(t.last() == hv.pairs()[i as int]);
        }
        if len > widest {
            widest = len;
        }
        i = i + 1;
    }
    assert(hv.pairs().take(n as int) =~= hv.pairs());
    if widest > entries {
        entries = widest;
    }
    let clamped = if entries < 1 {
        1
    } else if entries > MAX_COUNT_LINES - 1 {
        MAX_COUNT_LINES - 1
    } else {
        entries
    };
    (clamped + 1) as u16
}

#[verifier::external_type_specification]
#[verifier::external_body]
#[verifier::reject_recursive_types(V)]
pub struct ExHistogram<V: Ord + Eq + core::fmt::Display>(Histogram<V>);

/// The values that histogram `h` holds, each as often as it was inserted.
pub uninterp spec fn histogram_items(h: Histogram<u32>) -> Multiset<u32>;

/// The character that histogram `h` draws its bars with.
pub uninterp spec fn histogram_bar(h: Histogram<u32>) -> char;

/// How many values of unknown size histogram `h` holds.
pub uninterp spec fn histogram_unknown(h: Histogram<u32>) -> nat;

/// The chart that cli-hist draws of a histogram holding `items` and
/// `unknown` values of unknown size, with bars of `bar`, split into about
/// `buckets` buckets of equal width.
pub uninterp spec fn linear_histogram_chart(items: Multiset<u32>, unknown: nat, bar: char, buckets: u8) -> Seq<char>;

/// An empty histogram that draws its bars with `bar`.
///
/// Trusted: calls `cli_hist::histogram::Histogram::new`, whose source starts
/// an empty table of values with no unknown values and keeps `bar`.
#[verifier::external_body]
fn new_histogram(bar: char) -> (h: Histogram<u32>)
    ensures
        histogram_items(h) == Multiset::<u32>::empty(),
        histogram_bar(h) == bar,
        histogram_unknown(h) == 0,
{
    Histogram::new(bar)
}

/// Adds `v` to histogram `h`.
///
/// Trusted: calls `cli_hist::histogram::Histogram::insert`, whose source adds
/// one to the count of `v` in its table (a count that must stay below
/// `usize::MAX`) and leaves the bar and the unknown values alone.
#[verifier::external_body]
fn histogram_insert(h: &mut Histogram<u32>, v: u32)
    requires
        histogram_items(*old(h)).count(v) < usize::MAX,
    ensures
        histogram_items(*final(h)) == histogram_items(*old(h)).insert(v),
        histogram_bar(*final(h)) == histogram_bar(*old(h)),
        histogram_unknown(*final(h)) == histogram_unknown(*old(h)),
{
    h.insert(v);
}

/// The chart of `h` split into about `buckets` buckets of equal width.
///
/// Trusted: calls `cli_hist::histogram::Histogram::bucket` with
/// `cli_hist::bucketers::linear_bucketer::LinearBucketer::new(buckets)` and
/// prints the result; the claim is only that the text depends on nothing but
/// the histogram's values, unknown count, bar and `buckets`, which is what the
/// crate's source reads, and that a histogram with neither values nor unknown
/// values prints `Empty histogram` and a newline, as the source's `Display`
/// does when the bucketer returns no bucket. What the text is otherwise is
/// left to the name.
#[verifier::external_body]
fn linear_chart(h: &Histogram<u32>, buckets: u8) -> (text: String)
    ensures
        text@ == linear_histogram_chart(histogram_items(*h), histogram_unknown(*h), histogram_bar(*h), buckets),
        histogram_items(*h).len() == 0 && histogram_unknown(*h) == 0 ==> text@ == "Empty histogram\n"@,
{
    format!("{}", h.bucket(&LinearBucketer::new(buckets)))
}

/// The histogram chart of `values`, drawn with full blocks and split into
/// about `bins` buckets of equal width.
pub fn histogram_text(values: &Vec<u32>, bins: u8) -> (text: String)
    ensures
        text@ == linear_histogram_chart(values@.to_multiset(), 0, '\u{2588}', bins),
        values@.len() == 0 ==> text@ == "Empty histogram\n"@,
{
    let mut h = new_histogram('\u{2588}');
    let n = values.len();
    let mut i: usize = 0;
    assert(values@.take(0) =~= Seq::<u32>::empty());
    assert(Seq::<u32>::empty().to_multiset() =~= Multiset::<u32>::empty()) by {
        Seq::<u32>::empty().to_multiset_ensures();
        vstd::multiset::lemma_multiset_empty_len(Seq::<u32>::empty().to_multiset());
    }
    assert forall|x: u32| #[trigger] histogram_items(h).count(x) <= 0 by {
        Seq::<u32>::empty().to_multiset_ensures();
        assert(!Seq::<u32>::empty().contains(x));
    }
    while i < n
        invariant
            n == values@.len(),
            i <= n,
            histogram_items(h) == values@.take(i as int).to_multiset(),
            histogram_bar(h) == '\u{2588}',
            histogram_unknown(h) == 0,
            forall|x: u32| #[trigger] histogram_items(h).count(x) <= i,
        decreases n - i,
    {
        let v = values[i];
        proof {
            let prefix = values@.take(i as int);
            assert(values@.take(i + 1) =~= prefix.push(v));
            prefix.to_multiset_ensures();
        }
        let ghost before = histogram_items(h);
        histogram_insert(&mut h, v);
        proof {
            assert forall|x: u32| #[trigger] histogram_items(h).count(x) <= i + 1 by {
                vstd::multiset::lemma_insert_increases_count_by_1(before, v);
                vstd::multiset::lemma_insert_other_elements_unchanged(before, v, x);
            }
        }
        i = i + 1;
    }
    assert(values@.take(n as int) =~= values@);
    proof {
        values@.to_multiset_ensures();
    }
    linear_chart(&h, bins)
}

} // verus!
