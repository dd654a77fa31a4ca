//! Bookkeeping of the requests made: what each event does to the running
//! statistics, and the YAML summary printed at the end.
use vstd::prelude::*;
use crate::tally::{
    SortKey, SortedMap, Tally, ZoomTally, HeaderTallies, count_of, counted, counts_under,
    header_counts, pairs_to_map, keys_ascending, has_key, record_header_value,
    lemma_map_after_insert,
};
use crate::text::{append_decimal, decimal, push_char};

verus! {

/// The value recorded for a tracked header that a response did not carry
/// (or carried as something other than visible ASCII).
pub const MISSING_HEADER_VALUE: &'static str = "(missing)";

/// How many of the most recent URLs the statistics keep.
pub const MAX_URLS: usize = 50;

/// What one finished request measured.
#[derive(Clone, Debug)]
pub struct RequestMetric {
    /// The URL that was requested.
    pub path: String,
    /// The HTTP status, as code and reason (`200 OK`).
    pub status: String,
    /// Length of the response body in bytes.
    pub content_length: u64,
    /// Time the request took, in nanoseconds.
    pub duration_nanos: u64,
    /// The `Content-Type` header, empty when absent.
    pub content_type: String,
    /// Zoom level of the requested tile.
    pub zoom: u32,
    /// Values of the tracked headers, by header name.
    pub header_values: SortedMap<String, String>,
}

impl RequestMetric {
    /// A metric; a missing content type is recorded as the empty string.
    pub fn new(
        path: String,
        status: String,
        content_length: u64,
        duration_nanos: u64,
        content_type: Option<String>,
        zoom: u32,
        header_values: SortedMap<String, String>,
    ) -> (m: Self)
        ensures
            m.path == path,
            m.status == status,
            m.content_length == content_length,
            m.duration_nanos == duration_nanos,
            m.content_type@ == (match content_type {
                Some(c) => c@,
                None => Seq::<char>::empty(),
            }),
            m.zoom == zoom,
            m.header_values == header_values,
    {
        let content_type = match content_type {
            Some(cty) => cty,
            None => String::new(),
        };
        RequestMetric {
            path,
            status,
            content_length,
            duration_nanos,
            content_type,
            zoom,
            header_values,
        }
    }
}

/// What the request workers report.
#[derive(Debug)]
pub enum StatsEvent {
    /// A URL is about to be requested.
    Url(String),
    /// A request finished.
    Metric(RequestMetric),
}

/// The statistics that the terminal view shows.
#[derive(Clone)]
pub struct TuiState {
    /// Duration of each finished request, in nanoseconds, oldest first.
    pub response_times: Vec<u64>,
    /// Body length of each finished request, in bytes, oldest first.
    pub response_sizes: Vec<u64>,
    /// Requests per HTTP status.
    pub status_codes: Tally,
    /// Requests per content type.
    pub content_types: Tally,
    /// Requests per zoom level.
    pub zoom_levels: ZoomTally,
    /// Requests per value of each tracked header.
    pub header_values: HeaderTallies,
    /// The most recent URLs, oldest first.
    pub urls: Vec<String>,
    /// No more events will come.
    pub done: bool,
}

impl TuiState {
    /// Empty statistics.
    pub fn new() -> (s: Self)
        ensures
            s.response_times@.len() == 0,
            s.response_sizes@.len() == 0,
            s.status_codes@ == Map::<Seq<char>, usize>::empty(),
            s.content_types@ == Map::<Seq<char>, usize>::empty(),
            s.zoom_levels@ == Map::<u32, usize>::empty(),
            s.status_codes.total() == 0,
            s.content_types.total() == 0,
            s.zoom_levels.total() == 0,
            header_counts(s.header_values@) == Map::<Seq<char>, Map<Seq<char>, usize>>::empty(),
            s.urls@.len() == 0,
            !s.done,
    {
        let s = TuiState {
            response_times: Vec::new(),
            response_sizes: Vec::new(),
            status_codes: Tally::new(),
            content_types: Tally::new(),
            zoom_levels: ZoomTally::new(),
            header_values: HeaderTallies::new(),
            urls: Vec::new(),
            done: false,
        };
        assert(s.status_codes@ =~= Map::<Seq<char>, usize>::empty());
        assert(s.content_types@ =~= Map::<Seq<char>, usize>::empty());
        assert(s.zoom_levels@ =~= Map::<u32, usize>::empty());
        assert(header_counts(s.header_values@) =~= Map::<Seq<char>, Map<Seq<char>, usize>>::empty());
        s
    }
}

impl Default for TuiState {
    /// Empty statistics, as `TuiState::new` makes them.
    fn default() -> (s: Self)
        ensures
            s.response_times@.len() == 0,
            s.response_sizes@.len() == 0,
            s.status_codes@ == Map::<Seq<char>, usize>::empty(),
            s.content_types@ == Map::<Seq<char>, usize>::empty(),
            s.zoom_levels@ == Map::<u32, usize>::empty(),
            header_counts(s.header_values@) == Map::<Seq<char>, Map<Seq<char>, usize>>::empty(),
            s.urls@.len() == 0,
            !s.done,
    {
        TuiState::new()
    }
}

/// The most recent `MAX_URLS` of `urls`.
pub open spec fn keep_recent(urls: Seq<String>) -> Seq<String> {
    if urls.len() > MAX_URLS {
        urls.skip(urls.len() - MAX_URLS)
    } else {
        urls
    }
}

/// `hc` after one more value of each header in `hv` (header name to value).
pub open spec fn record_all(
    hc: Map<Seq<char>, Map<Seq<char>, usize>>,
    hv: Map<Seq<char>, String>,
) -> Map<Seq<char>, Map<Seq<char>, usize>> {
    Map::new(
        |k: Seq<char>| hc.contains_key(k) || hv.contains_key(k),
        |k: Seq<char>|
            if hv.contains_key(k) {
                counted(counts_under(hc, k), hv[k]@)
            } else {
                hc[k]
            },
    )
}

/// No count that the metric adds to would pass `usize::MAX`.
pub open spec fn metric_fits(state: &TuiState, count: usize, m: &RequestMetric) -> bool {
    &&& count < usize::MAX
    &&& count_of(state.status_codes@, m.status@) < usize::MAX
    &&& count_of(state.content_types@, m.content_type@) < usize::MAX
    &&& count_of(state.zoom_levels@, m.zoom) < usize::MAX
    &&& forall|k: Seq<char>| #[trigger] m.header_values@.contains_key(k) ==> count_of(
        counts_under(header_counts(state.header_values@), k),
        m.header_values@[k]@,
    ) < usize::MAX
}

/// `after` is `before` with `event` applied: a URL joins the most recent
/// ones, the oldest beyond `MAX_URLS` dropping out; a finished request adds
/// its duration and size, one to the request count, and one to its status,
/// content type, zoom level and each of its header values.
pub open spec fn applied(before: StatsRecorder, event: StatsEvent, after: StatsRecorder) -> bool {
    &&& after.state.done == before.state.done
    &&& match event {
        StatsEvent::Url(url) => {
            &&& after.state.urls@ == keep_recent(before.state.urls@.push(url))
            &&& after.count == before.count
            &&& after.state.response_times == before.state.response_times
            &&& after.state.response_sizes == before.state.response_sizes
            &&& after.state.status_codes == before.state.status_codes
            &&& after.state.content_types == before.state.content_types
            &&& after.state.zoom_levels == before.state.zoom_levels
            &&& after.state.header_values == before.state.header_values
        },
        StatsEvent::Metric(m) => {
            &&& after.state.urls == before.state.urls
            &&& after.count == before.count + 1
            &&& after.state.response_times@ == before.state.response_times@.push(m.duration_nanos)
            &&& after.state.response_sizes@ == before.state.response_sizes@.push(m.content_length)
            &&& after.state.status_codes@ == counted(before.state.status_codes@, m.status@)
            &&& after.state.status_codes.total() == before.state.status_codes.total() + 1
            &&& after.state.content_types@ == counted(before.state.content_types@, m.content_type@)
            &&& after.state.content_types.total() == before.state.content_types.total() + 1
            &&& after.state.zoom_levels@ == counted(before.state.zoom_levels@, m.zoom)
            &&& after.state.zoom_levels.total() == before.state.zoom_levels.total() + 1
            &&& header_counts(after.state.header_values@) == record_all(
                header_counts(before.state.header_values@),
                m.header_values@,
            )
        },
    }
}

/// The status, content type and zoom tables each count every finished
/// request once.
pub open spec fn tables_count_requests(r: StatsRecorder) -> bool {
    &&& r.state.status_codes.total() == r.count
    &&& r.state.content_types.total() == r.count
    &&& r.state.zoom_levels.total() == r.count
}

/// Applying an event keeps the status, content type and zoom tables each
/// counting every finished request exactly once.
pub proof fn lemma_tables_count_requests(before: StatsRecorder, event: StatsEvent, after: StatsRecorder)
    requires
        tables_count_requests(before),
        applied(before, event, after),
    ensures
        tables_count_requests(after),
{
}

/// A finished request is counted under every header name it carries: the
/// count of its value for that name (whatever the text, `(missing)`
/// included) goes up by one; every other value of that name, and every
/// value of a name it does not carry, keeps its count.
pub proof fn lemma_header_values_counted(before: StatsRecorder, m: RequestMetric, after: StatsRecorder)
    requires
        metric_fits(&before.state, before.count, &m),
        applied(before, StatsEvent::Metric(m), after),
    ensures
        forall|k: Seq<char>| #[trigger] m.header_values@.contains_key(k) ==> count_of(
            counts_under(header_counts(after.state.header_values@), k),
            m.header_values@[k]@,
        ) == count_of(counts_under(header_counts(before.state.header_values@), k), m.header_values@[k]@) + 1,
        forall|k: Seq<char>, v: Seq<char>|
            m.header_values@.contains_key(k) && v != m.header_values@[k]@ ==> #[trigger] count_of(
                counts_under(header_counts(after.state.header_values@), k),
                v,
            ) == count_of(counts_under(header_counts(before.state.header_values@), k), v),
        forall|k: Seq<char>, v: Seq<char>|
            !m.header_values@.contains_key(k) ==> #[trigger] count_of(
                counts_under(header_counts(after.state.header_values@), k),
                v,
            ) == count_of(counts_under(header_counts(before.state.header_values@), k), v),
{
    let hb = header_counts(before.state.header_values@);
    let ha = header_counts(after.state.header_values@);
    let hv = m.header_values@;
    assert forall|k: Seq<char>| #[trigger] hv.contains_key(k) implies count_of(counts_under(ha, k), hv[k]@)
        == count_of(counts_under(hb, k), hv[k]@) + 1 by {
        assert(ha.contains_key(k));
        assert(counts_under(ha, k) == counted(counts_under(hb, k), hv[k]@));
    }
    assert forall|k: Seq<char>, v: Seq<char>|
        hv.contains_key(k) && v != hv[k]@ implies #[trigger] count_of(counts_under(ha, k), v) == count_of(
            counts_under(hb, k),
            v,
        ) by {
        assert(counts_under(ha, k) == counted(counts_under(hb, k), hv[k]@));
    }
    assert forall|k: Seq<char>, v: Seq<char>|
        !hv.contains_key(k) implies #[trigger] count_of(counts_under(ha, k), v) == count_of(counts_under(hb, k), v) by {
        if hb.contains_key(k) {
            assert(ha.contains_key(k));
            assert(counts_under(ha, k) == counts_under(hb, k));
        } else {
            assert(!ha.contains_key(k));
        }
    }
}

/// The URL history never holds more than `MAX_URLS` URLs, ends with the
/// newest one and keeps the most recent ones in order.
pub proof fn lemma_recent_urls(urls: Seq<String>, url: String)
    ensures
        keep_recent(urls.push(url)).len() <= MAX_URLS,
        keep_recent(urls.push(url)).last() == url,
        keep_recent(urls.push(url)) == urls.push(url).skip(urls.len() + 1 - keep_recent(urls.push(url)).len()),
{
    let s = urls.push(url);
    if s.len() <= MAX_URLS {
        assert(s.skip(0) =~= s);
    }
}

/// The statistics being gathered, with the number of finished requests.
pub struct StatsRecorder {
    /// What the terminal view shows.
    pub state: TuiState,
    /// Finished requests seen.
    pub count: usize,
}

impl StatsRecorder {
    /// Starts from `state`, with no finished request seen.
    pub fn new(state: TuiState) -> (r: Self)
        ensures
            r.state == state,
            r.count == 0,
    {
        StatsRecorder { state, count: 0 }
    }

    /// Whether `event` can be applied without a count passing `usize::MAX`.
    pub fn fits(&self, event: &StatsEvent) -> (ok: bool)
        ensures
            ok == match event {
                StatsEvent::Url(_) => true,
                StatsEvent::Metric(m) => metric_fits(&self.state, self.count, m),
            },
    {
        match event {
            StatsEvent::Url(_) => true,
            StatsEvent::Metric(m) => {
                if self.count == usize::MAX {
                    return false;
                }
                if !count_below_max(&self.state.status_codes, &m.status) {
                    return false;
                }
                if !count_below_max(&self.state.content_types, &m.content_type) {
                    return false;
                }
                if !count_below_max(&self.state.zoom_levels, &m.zoom) {
                    return false;
                }
                let hv = &m.header_values;
                proof {
                    use_type_invariant(hv);
                }
                let n = hv.len();
                let mut i: usize = 0;
                while i < n
                    invariant
                        *hv == m.header_values,
                        *event == StatsEvent::Metric(*m),
                        self.count < usize::MAX,
                        count_of(self.state.status_codes@, m.status@) < usize::MAX,
                        count_of(self.state.content_types@, m.content_type@) < usize::MAX,
                        count_of(self.state.zoom_levels@, m.zoom) < usize::MAX,
                        hv.wf(),
                        n == hv.pairs().len(),
                        i <= n,
                        forall|j: int| 0 <= j < i ==> #[trigger] header_fits(&self.state, hv.pairs()[j]),
                    decreases n - i,
                {
                    let name = hv.key_at(i);
                    let value = hv.value_at(i);
                    match self.state.header_values.get(name) {
                        Some(t) => {
                            if !count_below_max(t, value) {
                                proof {
                                    crate::tally::lemma_map_at::<String, String>(hv.pairs(), i as int);
                                    assert(hv@.contains_key(name@));
                                    assert(counts_under(header_counts(self.state.header_values@), name@) == t@);
                                    assert(hv@[name@] == *value);
                                    assert(m.header_values@.contains_key(name@));
                                    assert(!(count_of(
                                        counts_under(header_counts(self.state.header_values@), name@),
                                        m.header_values@[name@]@,
                                    ) < usize::MAX));
                                }
                                return false;
                            }
                        },
                        None => {},
                    }
                    i = i + 1;
                }
                proof {
                    assert forall|k: Seq<char>| #[trigger] hv@.contains_key(k) implies count_of(
                        counts_under(header_counts(self.state.header_values@), k),
                        hv@[k]@,
                    ) < usize::MAX by {
                        let j = choose|j: int| 0 <= j < hv.pairs().len() && #[trigger] hv.pairs()[j].0 == k;
                        crate::tally::lemma_map_at::<String, String>(hv.pairs(), j);
                        assert(header_fits(&self.state, hv.pairs()[j]));
                    }
                }
                true
            },
        }
    }

    /// Applies `event`: a URL joins the most recent ones (the oldest beyond
    /// `MAX_URLS` dropping out); a finished request adds its duration and
    /// size and one to its status, content type, zoom level and each of its
    /// header values.
    pub fn apply(&mut self, event: StatsEvent)
        requires
            match event {
                StatsEvent::Url(_) => true,
                StatsEvent::Metric(m) => metric_fits(&old(self).state, old(self).count, &m),
            },
        ensures
            applied(*old(self), event, *final(self)),
    {
        match event {
            StatsEvent::Url(url) => {
                push_recent(&mut self.state.urls, url);
            },
            StatsEvent::Metric(m) => {
                self.count = self.count + 1;
                self.state.response_times.push(m.duration_nanos);
                self.state.response_sizes.push(m.content_length);
                self.state.status_codes.increment(m.status);
                self.state.content_types.increment(m.content_type);
                self.state.zoom_levels.increment(m.zoom);
                record_headers(&mut self.state.header_values, &m.header_values);
            },
        }
    }

    /// Marks the statistics complete: no more events will come.
    pub fn finish(&mut self)
        ensures
            final(self).state.done,
            final(self).count == old(self).count,
            final(self).state.urls == old(self).state.urls,
            final(self).state.response_times == old(self).state.response_times,
            final(self).state.response_sizes == old(self).state.response_sizes,
            final(self).state.status_codes == old(self).state.status_codes,
            final(self).state.content_types == old(self).state.content_types,
            final(self).state.zoom_levels == old(self).state.zoom_levels,
            final(self).state.header_values == old(self).state.header_values,
    {
        self.state.done = true;
    }
}

/// Counts one more value of each header in `hv`.
pub fn record_headers(h: &mut HeaderTallies, hv: &SortedMap<String, String>)
    requires
        forall|k: Seq<char>| #[trigger] hv@.contains_key(k) ==> count_of(
            counts_under(header_counts(old(h)@), k),
            hv@[k]@,
        ) < usize::MAX,
    ensures
        header_counts(final(h)@) == record_all(header_counts(old(h)@), hv@),
{
        proof {
            use_type_invariant(hv);
        }
        let ghost hc0 = header_counts((*h)@);
        let ghost p = hv.pairs();
        let n = hv.len();
        let mut i: usize = 0;
        assert(pairs_to_map(p.take(0)) =~= Map::<Seq<char>, String>::empty());
        assert(record_all(hc0, Map::<Seq<char>, String>::empty()) =~= hc0);
        while i < n
            invariant
                hv.wf(),
                p == hv.pairs(),
                n == p.len(),
                i <= n,
                header_counts((*h)@) == record_all(hc0, pairs_to_map(p.take(i as int))),
                forall|k: Seq<char>| #[trigger] hv@.contains_key(k) ==> count_of(
                    counts_under(hc0, k),
                    hv@[k]@,
                ) < usize::MAX,
            decreases n - i,
        {
            let name = hv.key_at(i).clone();
            let value = hv.value_at(i).clone();
            let ghost k = p[i as int].0;
            let ghost prev = pairs_to_map(p.take(i as int));
            proof {
                crate::tally::lemma_map_at::<String, String>(p, i as int);
                lemma_prefix_ascending(p, i as int);
                lemma_prefix_ascending(p, i + 1);
                assert(p.take(i as int).insert(i as int, p[i as int]) =~= p.take(i + 1));
                if has_key(p.take(i as int), k) {
                    let j = choose|j: int| 0 <= j < i && #[trigger] p.take(i as int)[j].0 == k;
                    crate::tally::lemma_ascending_distinct::<String, String>(p, j, i as int);
                }
                lemma_map_after_insert::<String, String>(p.take(i as int), i as int, k, p[i as int].1);
                assert(!prev.contains_key(k));
                assert(counts_under(header_counts((*h)@), k) =~= counts_under(hc0, k));
            }
            assert(hv@.contains_key(k) && value@ == hv@[k]@);
            record_header_value(h, name, value);
            proof {
                assert(header_counts((*h)@) =~= record_all(
                    hc0,
                    pairs_to_map(p.take(i + 1)),
                ));
            }
            i = i + 1;
        }
        assert(p.take(n as int) =~= p);
}

/// Appends `url`, dropping the oldest URLs beyond `MAX_URLS`.
fn push_recent(urls: &mut Vec<String>, url: String)
    ensures
        final(urls)@ == keep_recent(old(urls)@.push(url)),
{
    urls.push(url);
    let n = urls.len();
    if n > MAX_URLS {
        let recent = urls.split_off(n - MAX_URLS);
        *urls = recent;
    }
}

/// `count_of(m@, key@) < usize::MAX`, computed.
fn count_below_max<K: SortKey>(m: &SortedMap<K, usize>, key: &K) -> (ok: bool)
    ensures
        ok == (count_of(m@, key@) < usize::MAX),
{
    match m.get(key) {
        Some(c) => *c < usize::MAX,
        None => true,
    }
}

/// Header `e.0` may count one more value `e.1`.
pub open spec fn header_fits(state: &TuiState, e: (Seq<char>, String)) -> bool {
    count_of(counts_under(header_counts(state.header_values@), e.0), e.1@) < usize::MAX
}

proof fn lemma_prefix_ascending(p: Seq<(Seq<char>, String)>, i: int)
    requires
        keys_ascending::<String, String>(p),
        0 <= i <= p.len(),
    ensures
        keys_ascending::<String, String>(p.take(i)),
{
    assert forall|a: int, b: int| 0 <= a < b < p.take(i).len() implies String::key_lt(
        #[trigger] p.take(i)[a].0,
        #[trigger] p.take(i)[b].0,
    ) by {
        assert(p.take(i)[a] == p[a]);
        assert(p.take(i)[b] == p[b]);
    }
}

/// The totals reported when the run ends.
#[derive(Debug)]
pub struct Summary {
    /// Finished requests.
    pub tiles: usize,
    /// Mean response time in milliseconds, as printed.
    pub mean_response_time_ms: String,
    /// Mean content length in kilobytes, as printed.
    pub mean_content_length_kb: String,
    /// Requests per HTTP status.
    pub status_codes: Tally,
    /// Requests per content type.
    pub content_types: Tally,
    /// Requests per zoom level.
    pub zoom_levels: ZoomTally,
    /// Requests per value of each tracked header.
    pub header_values: HeaderTallies,
}

impl StatsRecorder {
    /// The summary of the run: the number of finished requests and the
    /// tables, with the two means given as text.
    pub fn into_summary(self, mean_response_time_ms: String, mean_content_length_kb: String) -> (s: Summary)
        ensures
            s.tiles == self.count,
            s.mean_response_time_ms == mean_response_time_ms,
            s.mean_content_length_kb == mean_content_length_kb,
            s.status_codes == self.state.status_codes,
            s.content_types == self.state.content_types,
            s.zoom_levels == self.state.zoom_levels,
            s.header_values == self.state.header_values,
    {
        Summary {
            tiles: self.count,
            mean_response_time_ms,
            mean_content_length_kb,
            status_codes: self.state.status_codes,
            content_types: self.state.content_types,
            zoom_levels: self.state.zoom_levels,
            header_values: self.state.header_values,
        }
    }
}

/// `n` spaces.
pub open spec fn spaces(n: nat) -> Seq<char> {
    Seq::new(n, |i: int| ' ')
}

/// One YAML line per entry of `p`, in order: `indent` spaces, the key, a
/// colon, a space and the count.
pub open spec fn map_lines<K: SortKey>(p: Seq<(K::V, usize)>, indent: nat) -> Seq<char>
    decreases p.len(),
{
    if p.len() == 0 {
        Seq::empty()
    } else {
        map_lines::<K>(p.drop_last(), indent) + spaces(indent) + K::yaml_key(p.last().0) + ": "@ + decimal(
            p.last().1 as nat,
        ) + "\n"@
    }
}

/// For each header name of `p`, in order: the quoted name indented by two
/// spaces and a colon, then its counts indented by four.
pub open spec fn nested_lines(p: Seq<(Seq<char>, Tally)>) -> Seq<char>
    decreases p.len(),
{
    if p.len() == 0 {
        Seq::empty()
    } else {
        nested_lines(p.drop_last()) + "  "@ + String::yaml_key(p.last().0) + ":\n"@ + map_lines::<String>(
            p.last().1.pairs(),
            4,
        )
    }
}

/// A table with no entries gives no lines, and each entry, in order, adds
/// one line of its own: `indent` spaces, its key as YAML, `: ` and its
/// count in decimal.
pub proof fn lemma_map_lines_per_entry<K: SortKey>(p: Seq<(K::V, usize)>, indent: nat, i: int)
    requires
        0 <= i < p.len(),
    ensures
        map_lines::<K>(Seq::<(K::V, usize)>::empty(), indent) == Seq::<char>::empty(),
        map_lines::<K>(p.take(i + 1), indent) == map_lines::<K>(p.take(i), indent) + spaces(indent) + K::yaml_key(
            p[i].0,
        ) + ": "@ + decimal(p[i].1 as nat) + "\n"@,
        spaces(indent).len() == indent,
        forall|j: int| 0 <= j < indent ==> #[trigger] spaces(indent)[j] == ' ',
{
    assert(p.take(i + 1).drop_last() =~= p.take(i));
    assert(p.take(i + 1).last() == p[i]);
}

/// The report's header section lists each tracked header in order, and under
/// each one the counts that `header_values` holds under that very name: an
/// empty table gives nothing, and header `i` adds its quoted name indented
/// by two spaces and a colon, then the lines of its own counts indented by
/// four.
pub proof fn lemma_header_blocks(h: HeaderTallies, i: int)
    requires
        keys_ascending::<String, Tally>(h.pairs()),
        0 <= i < h.pairs().len(),
    ensures
        nested_lines(Seq::<(Seq<char>, Tally)>::empty()) == Seq::<char>::empty(),
        h@.contains_key(h.pairs()[i].0),
        nested_lines(h.pairs().take(i + 1)) == nested_lines(h.pairs().take(i)) + "  "@ + String::yaml_key(
            h.pairs()[i].0,
        ) + ":\n"@ + map_lines::<String>(h@[h.pairs()[i].0].pairs(), 4),
{
    let p = h.pairs();
    crate::tally::lemma_map_at::<String, Tally>(p, i);
    assert(p.take(i + 1).drop_last() =~= p.take(i));
    assert(p.take(i + 1).last() == p[i]);
}

/// The header names of `p` ascend, and so do the values under each.
pub open spec fn nested_ascending(p: Seq<(Seq<char>, Tally)>) -> bool {
    &&& keys_ascending::<String, Tally>(p)
    &&& forall|i: int| 0 <= i < p.len() ==> keys_ascending::<String, usize>(#[trigger] p[i].1.pairs())
}

/// The YAML report of `s`.
pub open spec fn yaml_text(s: &Summary) -> Seq<char> {
    "tiles: "@ + decimal(s.tiles as nat) + "\n"@
    + "mean_response_time_ms: "@ + s.mean_response_time_ms@ + "\n"@
    + "mean_content_length_kb: "@ + s.mean_content_length_kb@ + "\n"@
    + "status_codes:\n"@ + map_lines::<String>(s.status_codes.pairs(), 2)
    + "content_types:\n"@ + map_lines::<String>(s.content_types.pairs(), 2)
    + "zoom_levels:\n"@ + map_lines::<u32>(s.zoom_levels.pairs(), 2)
    + "headers:\n"@ + nested_lines(s.header_values.pairs())
}

fn append_spaces(out: &mut String, n: usize)
    ensures
        final(out)@ == old(out)@ + spaces(n as nat),
{
    let mut i: usize = 0;
    while i < n
        invariant
            i <= n,
            out@ == old(out)@ + spaces(i as nat),
        decreases n - i,
    {
        push_char(out, ' ');
        i = i + 1;
        assert(out@ =~= old(out)@ + spaces(i as nat));
    }
}

/// Appends one line per entry of `map`, in ascending key order.
pub fn write_map<K: SortKey>(out: &mut String, map: &SortedMap<K, usize>, indent: usize)
    ensures
        final(out)@ == old(out)@ + map_lines::<K>(map.pairs(), indent as nat),
        keys_ascending::<K, usize>(map.pairs()),
{
    proof {
        use_type_invariant(map);
    }
    let n = map.len();
    let mut i: usize = 0;
    assert(map.pairs().take(0) =~= Seq::<(K::V, usize)>::empty());
    assert(out@ =~= old(out)@ + map_lines::<K>(map.pairs().take(0), indent as nat));
    while i < n
        invariant
            n == map.pairs().len(),
            i <= n,
            out@ == old(out)@ + map_lines::<K>(map.pairs().take(i as int), indent as nat),
        decreases n - i,
    {
        let ghost before = out@;
        append_spaces(out, indent);
        map.key_at(i).write_yaml_key(out);
        out.append(": ");
        append_decimal(out, *map.value_at(i) as u64);
        out.append("\n");
        proof {
            let t = map.pairs().take(i + 1);
            assert(t.drop_last() =~= map.pairs().take(i as int));
            assert(t.last() == map.pairs()[i as int]);
            assert(out@ =~= old(out)@ + map_lines::<K>(t, indent as nat));
        }
        i = i + 1;
    }
    assert(map.pairs().take(n as int) =~= map.pairs());
}

/// Appends the counts of every tracked header, header names in ascending
/// order and values in ascending order under each.
pub fn write_nested_map(out: &mut String, map: &HeaderTallies)
    ensures
        final(out)@ == old(out)@ + nested_lines(map.pairs()),
        nested_ascending(map.pairs()),
{
    proof {
        use_type_invariant(map);
    }
    let n = map.len();
    let mut i: usize = 0;
    assert(map.pairs().take(0) =~= Seq::<(Seq<char>, Tally)>::empty());
    assert(out@ =~= old(out)@ + nested_lines(map.pairs().take(0)));
    while i < n
        invariant
            n == map.pairs().len(),
            i <= n,
            out@ == old(out)@ + nested_lines(map.pairs().take(i as int)),
            keys_ascending::<String, Tally>(map.pairs()),
            forall|j: int| 0 <= j < i ==> keys_ascending::<String, usize>(#[trigger] map.pairs()[j].1.pairs()),
        decreases n - i,
    {
        let counts = map.value_at(i);
        proof {
            use_type_invariant(counts);
        }
        out.append("  ");
        map.key_at(i).write_yaml_key(out);
        out.append(":\n");
        write_map(out, counts, 4);
        proof {
            let t = map.pairs().take(i + 1);
            assert(t.drop_last() =~= map.pairs().take(i as int));
            assert(t.last() == map.pairs()[i as int]);
            assert(out@ =~= old(out)@ + nested_lines(t));
        }
        i = i + 1;
    }
    assert(map.pairs().take(n as int) =~= map.pairs());
}

impl Summary {
    /// The report, in YAML: the counts and means, then each table in
    /// ascending key order, string keys quoted.
    pub fn to_yaml(&self) -> (out: String)
        ensures
            out@ == yaml_text(self),
            keys_ascending::<String, usize>(self.status_codes.pairs()),
            keys_ascending::<String, usize>(self.content_types.pairs()),
            keys_ascending::<u32, usize>(self.zoom_levels.pairs()),
            nested_ascending(self.header_values.pairs()),
    {
        let mut out = String::new();
        out.append("tiles: ");
        append_decimal(&mut out, self.tiles as u64);
        out.append("\n");
        out.append("mean_response_time_ms: ");
        out.append(self.mean_response_time_ms.as_str());
        out.append("\n");
        out.append("mean_content_length_kb: ");
        out.append(self.mean_content_length_kb.as_str());
        out.append("\n");
        out.append("status_codes:\n");
        write_map(&mut out, &self.status_codes, 2);
        out.append("content_types:\n");
        write_map(&mut out, &self.content_types, 2);
        out.append("zoom_levels:\n");
        write_map(&mut out, &self.zoom_levels, 2);
        out.append("headers:\n");
        write_nested_map(&mut out, &self.header_values);
        assert(out@ =~= yaml_text(self));
        out
    }
}

} // verus!
