//! Counting tables kept in ascending key order, so that they can be listed
//! by key without sorting.
use vstd::prelude::*;
use crate::text::{chars_of, decimal, append_decimal, escape_quotes, quote_string};

verus! {

/// Code-point lexicographic order on strings; for UTF-8 text this is the
/// order that `str`'s `Ord` uses.
pub open spec fn str_lt(a: Seq<char>, b: Seq<char>) -> bool
    decreases a.len(),
{
    if a.len() == 0 {
        b.len() > 0
    } else if b.len() == 0 {
        false
    } else if a[0] != b[0] {
        (a[0] as u32) < (b[0] as u32)
    } else {
        str_lt(a.skip(1), b.skip(1))
    }
}

/// The string order is that of the first difference: a proper prefix comes
/// first, and otherwise, where the strings first differ, the smaller code
/// point comes first.
pub proof fn lemma_str_lt_first_difference(a: Seq<char>, b: Seq<char>, i: int)
    requires
        0 <= i <= a.len(),
        i <= b.len(),
        forall|j: int| 0 <= j < i ==> a[j] == b[j],
    ensures
        i == a.len() && i < b.len() ==> str_lt(a, b),
        i < a.len() && i < b.len() && (a[i] as u32) < (b[i] as u32) ==> str_lt(a, b),
        i < a.len() && i < b.len() && (b[i] as u32) < (a[i] as u32) ==> !str_lt(a, b),
    decreases i,
{
    if i > 0 {
        assert forall|j: int| 0 <= j < i - 1 implies a.skip(1)[j] == b.skip(1)[j] by {
            assert(a.skip(1)[j] == a[j + 1]);
            assert(b.skip(1)[j] == b[j + 1]);
        }
        lemma_str_lt_first_difference(a.skip(1), b.skip(1), i - 1);
        assert(a[0] == b[0]);
    }
}

/// No string comes before itself.
pub proof fn lemma_str_lt_irreflexive(a: Seq<char>)
    ensures
        !str_lt(a, a),
    decreases a.len(),
{
    if a.len() > 0 {
        lemma_str_lt_irreflexive(a.skip(1));
    }
}

/// The string order is transitive.
pub proof fn lemma_str_lt_transitive(a: Seq<char>, b: Seq<char>, c: Seq<char>)
    requires
        str_lt(a, b),
        str_lt(b, c),
    ensures
        str_lt(a, c),
    decreases a.len(),
{
    if a.len() > 0 && b.len() > 0 && c.len() > 0 && a[0] == b[0] && b[0] == c[0] {
        lemma_str_lt_transitive(a.skip(1), b.skip(1), c.skip(1));
    }
}

/// Of two different strings, one comes before the other.
pub proof fn lemma_str_lt_total(a: Seq<char>, b: Seq<char>)
    ensures
        a == b || str_lt(a, b) || str_lt(b, a),
    decreases a.len(),
{
    if a.len() > 0 && b.len() > 0 && a[0] == b[0] {
        lemma_str_lt_total(a.skip(1), b.skip(1));
        if a.skip(1) == b.skip(1) {
            assert(a =~= seq![a[0]] + a.skip(1));
            assert(b =~= seq![b[0]] + b.skip(1));
        }
    } else if a.len() == 0 && b.len() == 0 {
        assert(a =~= b);
    } else if a.len() > 0 && b.len() > 0 {
        vstd::utf8::char_u32_cast(a[0], a[0] as u32);
        vstd::utf8::char_u32_cast(b[0], b[0] as u32);
    }
}

fn chars_less(a: &Vec<char>, b: &Vec<char>) -> (r: bool)
    ensures
        r == str_lt(a@, b@),
{
    let mut i: usize = 0;
    assert(a@.skip(0) =~= a@);
    assert(b@.skip(0) =~= b@);
    while i < a.len() && i < b.len()
        invariant
            i <= a@.len(),
            i <= b@.len(),
            str_lt(a@, b@) == str_lt(a@.skip(i as int), b@.skip(i as int)),
        decreases a.len() - i,
    {
        if a[i] != b[i] {
            assert(a@.skip(i as int)[0] == a@[i as int]);
            assert(b@.skip(i as int)[0] == b@[i as int]);
            return (a[i] as u32) < (b[i] as u32);
        }
        assert(a@.skip(i as int).skip(1) =~= a@.skip(i + 1));
        assert(b@.skip(i as int).skip(1) =~= b@.skip(i + 1));
        i = i + 1;
    }
    i < b.len()
}

/// Keys of a counting table: a strict total order on their views, and the
/// text that shows a key.
pub trait SortKey: View + Sized {
    /// The strict order in which keys are kept.
    spec fn key_lt(a: Self::V, b: Self::V) -> bool;

    /// How a key reads in the terminal view.
    spec fn shown(k: Self::V) -> Seq<char>;

    /// How a key reads in the YAML report.
    spec fn yaml_key(k: Self::V) -> Seq<char>;

    proof fn lemma_key_lt_irreflexive(a: Self::V)
        ensures
            !Self::key_lt(a, a),
    ;

    proof fn lemma_key_lt_transitive(a: Self::V, b: Self::V, c: Self::V)
        requires
            Self::key_lt(a, b),
            Self::key_lt(b, c),
        ensures
            Self::key_lt(a, c),
    ;

    proof fn lemma_key_lt_total(a: Self::V, b: Self::V)
        ensures
            a == b || Self::key_lt(a, b) || Self::key_lt(b, a),
    ;

    fn key_less(&self, other: &Self) -> (r: bool)
        ensures
            r == Self::key_lt(self@, other@),
    ;

    fn key_eq(&self, other: &Self) -> (r: bool)
        ensures
            r == (self@ == other@),
    ;

    fn write_shown(&self, out: &mut String)
        ensures
            final(out)@ == old(out)@ + Self::shown(self@),
    ;

    fn write_yaml_key(&self, out: &mut String)
        ensures
            final(out)@ == old(out)@ + Self::yaml_key(self@),
    ;

    /// A key equal to this one.
    fn duplicate(&self) -> (k: Self)
        ensures
            k@ == self@,
    ;
}

impl SortKey for String {
    open spec fn key_lt(a: Seq<char>, b: Seq<char>) -> bool {
        str_lt(a, b)
    }

    open spec fn shown(k: Seq<char>) -> Seq<char> {
        k
    }

    open spec fn yaml_key(k: Seq<char>) -> Seq<char> {
        seq!['"'] + escape_quotes(k) + seq!['"']
    }

    proof fn lemma_key_lt_irreflexive(a: Seq<char>) {
        lemma_str_lt_irreflexive(a);
    }

    proof fn lemma_key_lt_transitive(a: Seq<char>, b: Seq<char>, c: Seq<char>) {
        lemma_str_lt_transitive(a, b, c);
    }

    proof fn lemma_key_lt_total(a: Seq<char>, b: Seq<char>) {
        lemma_str_lt_total(a, b);
    }

    fn key_less(&self, other: &String) -> (r: bool) {
        let a = chars_of(self.as_str());
        let b = chars_of(other.as_str());
        chars_less(&a, &b)
    }

    fn key_eq(&self, other: &String) -> (r: bool) {
        *self == *other
    }

    fn write_shown(&self, out: &mut String) {
        out.append(self.as_str());
    }

    fn write_yaml_key(&self, out: &mut String) {
        let q = quote_string(self.as_str());
        out.append(q.as_str());
    }

    fn duplicate(&self) -> (k: String) {
        self.clone()
    }
}

impl SortKey for u32 {
    open spec fn key_lt(a: u32, b: u32) -> bool {
        a < b
    }

    open spec fn shown(k: u32) -> Seq<char> {
        decimal(k as nat)
    }

    open spec fn yaml_key(k: u32) -> Seq<char> {
        decimal(k as nat)
    }

    proof fn lemma_key_lt_irreflexive(a: u32) {
    }

    proof fn lemma_key_lt_transitive(a: u32, b: u32, c: u32) {
    }

    proof fn lemma_key_lt_total(a: u32, b: u32) {
    }

    fn key_less(&self, other: &u32) -> (r: bool) {
        *self < *other
    }

    fn key_eq(&self, other: &u32) -> (r: bool) {
        *self == *other
    }

    fn write_shown(&self, out: &mut String) {
        append_decimal(out, *self as u64);
    }

    fn write_yaml_key(&self, out: &mut String) {
        append_decimal(out, *self as u64);
    }

    fn duplicate(&self) -> (k: u32) {
        *self
    }
}

/// The keys of `s` ascend strictly in `K`'s order.
pub open spec fn keys_ascending<K: SortKey, V>(s: Seq<(K::V, V)>) -> bool {
    forall|i: int, j: int| 0 <= i < j < s.len() ==> K::key_lt(#[trigger] s[i].0, #[trigger] s[j].0)
}

/// `s` has an entry with key `k`.
pub open spec fn has_key<KV, V>(s: Seq<(KV, V)>, k: KV) -> bool {
    exists|i: int| 0 <= i < s.len() && #[trigger] s[i].0 == k
}

/// The map that the entries `s` (with distinct keys) stand for.
pub open spec fn pairs_to_map<KV, V>(s: Seq<(KV, V)>) -> Map<KV, V> {
    Map::new(|k: KV| has_key(s, k), |k: KV| s[choose|i: int| 0 <= i < s.len() && #[trigger] s[i].0 == k].1)
}

/// Entries with ascending keys have distinct keys.
pub proof fn lemma_ascending_distinct<K: SortKey, V>(s: Seq<(K::V, V)>, i: int, j: int)
    requires
        keys_ascending::<K, V>(s),
        0 <= i < s.len(),
        0 <= j < s.len(),
        s[i].0 == s[j].0,
    ensures
        i == j,
{
    if i < j {
        assert(K::key_lt(s[i].0, s[j].0));
        K::lemma_key_lt_irreflexive(s[i].0);
    } else if j < i {
        assert(K::key_lt(s[j].0, s[i].0));
        K::lemma_key_lt_irreflexive(s[i].0);
    }
}

/// In entries with ascending keys, the entry at `i` gives the map's value
/// for its key.
pub proof fn lemma_map_at<K: SortKey, V>(s: Seq<(K::V, V)>, i: int)
    requires
        keys_ascending::<K, V>(s),
        0 <= i < s.len(),
    ensures
        pairs_to_map(s).contains_key(s[i].0),
        pairs_to_map(s)[s[i].0] == s[i].1,
{
    let k = s[i].0;
    assert(has_key(s, k));
    let c = choose|c: int| 0 <= c < s.len() && #[trigger] s[c].0 == k;
    lemma_ascending_distinct::<K, V>(s, i, c);
}

/// A table of values under keys of type `K`, kept in ascending key order.
#[derive(Debug)]
pub struct SortedMap<K: SortKey, V> {
    entries: Vec<(K, V)>,
}

impl<K: SortKey, V: Clone> Clone for SortedMap<K, V> {
    /// A copy of the table: the same keys in the same order, each with a
    /// clone of its value.
    fn clone(&self) -> (c: Self)
        ensures
            c.pairs().len() == self.pairs().len(),
            forall|i: int|
                0 <= i < self.pairs().len() ==> (#[trigger] c.pairs()[i]).0 == self.pairs()[i].0 && cloned(
                    self.pairs()[i].1,
                    c.pairs()[i].1,
                ),
    {
        proof {
            use_type_invariant(self);
        }
        let ghost p = self.pairs();
        let n = self.entries.len();
        let mut entries: Vec<(K, V)> = Vec::new();
        let mut i: usize = 0;
        while i < n
            invariant
                p == self.pairs(),
                keys_ascending::<K, V>(p),
                n == p.len(),
                i <= n,
                entries@.len() == i,
                forall|j: int|
                    0 <= j < i ==> (#[trigger] entries@[j]).0@ == p[j].0 && cloned(p[j].1, entries@[j].1),
            decreases n - i,
        {
            let k = self.entries[i].0.duplicate();
            let v = self.entries[i].1.clone();
            entries.push((k, v));
            i = i + 1;
        }
        let ghost q = entries@.map_values(|e: (K, V)| (e.0@, e.1));
        assert forall|a: int, b: int| 0 <= a < b < q.len() implies K::key_lt(#[trigger] q[a].0, #[trigger] q[b].0) by {
            assert(q[a].0 == p[a].0);
            assert(q[b].0 == p[b].0);
        }
        SortedMap { entries }
    }
}

impl<K: SortKey, V> View for SortedMap<K, V> {
    type V = Map<K::V, V>;

    open spec fn view(&self) -> Map<K::V, V> {
        pairs_to_map(self.pairs())
    }
}

impl<K: SortKey, V> SortedMap<K, V> {
    /// The entries, in the order they are kept: key view and value.
    pub closed spec fn pairs(&self) -> Seq<(K::V, V)> {
        self.entries@.map_values(|e: (K, V)| (e.0@, e.1))
    }

    /// The keys ascend strictly: every table keeps this.
    #[verifier::type_invariant]
    pub open spec fn wf(&self) -> bool {
        keys_ascending::<K, V>(self.pairs())
    }

    /// An empty table.
    pub fn new() -> (m: Self)
        ensures
            m.pairs() == Seq::<(K::V, V)>::empty(),
    {
        let entries: Vec<(K, V)> = Vec::new();
        assert(entries@.map_values(|e: (K, V)| (e.0@, e.1)) =~= Seq::<(K::V, V)>::empty());
        SortedMap { entries }
    }

    /// Number of entries.
    pub fn len(&self) -> (n: usize)
        ensures
            n == self.pairs().len(),
    {
        self.entries.len()
    }

    /// The key of entry `i`.
    pub fn key_at(&self, i: usize) -> (k: &K)
        requires
            i < self.pairs().len(),
        ensures
            k@ == self.pairs()[i as int].0,
    {
        &self.entries[i].0
    }

    /// The value of entry `i`.
    pub fn value_at(&self, i: usize) -> (v: &V)
        requires
            i < self.pairs().len(),
        ensures
            *v == self.pairs()[i as int].1,
    {
        &self.entries[i].1
    }

    /// Where `key` stands: `Ok(i)` when entry `i` has it; `Err(i)` when no
    /// entry has it and it belongs before entry `i`.
    pub fn position(&self, key: &K) -> (r: Result<usize, usize>)
        ensures
            match r {
                Ok(i) => i < self.pairs().len() && self.pairs()[i as int].0 == key@,
                Err(i) => i <= self.pairs().len() && !has_key(self.pairs(), key@) && (forall|j: int|
                    0 <= j < i ==> K::key_lt(#[trigger] self.pairs()[j].0, key@)) && (forall|j: int|
                    i <= j < self.pairs().len() ==> K::key_lt(key@, #[trigger] self.pairs()[j].0)),
            },
    {
        proof {
            use_type_invariant(self);
        }
        let n = self.entries.len();
        let mut i: usize = 0;
        while i < n && self.entries[i].0.key_less(key)
            invariant
                n == self.pairs().len(),
                self.wf(),
                i <= n,
                forall|j: int| 0 <= j < i ==> K::key_lt(#[trigger] self.pairs()[j].0, key@),
            decreases n - i,
        {
            i = i + 1;
        }
        if i < n && self.entries[i].0.key_eq(key) {
            Ok(i)
        } else {
            let ghost p = self.pairs();
            proof {
                if i < n {
                    K::lemma_key_lt_total(p[i as int].0, key@);
                    assert forall|j: int| i <= j < p.len() implies K::key_lt(key@, #[trigger] p[j].0) by {
                        if j > i {
                            K::lemma_key_lt_transitive(key@, p[i as int].0, p[j].0);
                        }
                    }
                }
                if has_key(p, key@) {
                    let j = choose|j: int| 0 <= j < p.len() && #[trigger] p[j].0 == key@;
                    K::lemma_key_lt_irreflexive(key@);
                }
            }
            Err(i)
        }
    }

    /// Adds `key` with `value` as entry `i`, where no entry has `key` and
    /// `key` belongs before entry `i`.
    pub fn insert_at(&mut self, i: usize, key: K, value: V)
        requires
            i <= old(self).pairs().len(),
            forall|j: int| 0 <= j < i ==> K::key_lt(#[trigger] old(self).pairs()[j].0, key@),
            forall|j: int| i <= j < old(self).pairs().len() ==> K::key_lt(key@, #[trigger] old(self).pairs()[j].0),
        ensures
            final(self).pairs() == old(self).pairs().insert(i as int, (key@, value)),
    {
        proof {
            use_type_invariant(&*self);
        }
        let ghost old_pairs = self.pairs();
        let ghost kv = key@;
        let mut entries: Vec<(K, V)> = Vec::new();
        std::mem::swap(&mut entries, &mut self.entries);
        entries.insert(i, (key, value));
        let ghost new_pairs = old_pairs.insert(i as int, (kv, value));
        assert(entries@.map_values(|e: (K, V)| (e.0@, e.1)) =~= new_pairs);
        assert forall|a: int, b: int| 0 <= a < b < new_pairs.len() implies K::key_lt(
            #[trigger] new_pairs[a].0,
            #[trigger] new_pairs[b].0,
        ) by {
            if a < i && b > i {
                K::lemma_key_lt_transitive(old_pairs[a].0, kv, old_pairs[b - 1].0);
            } else if a < i && b < i {
            } else if a > i {
                assert(new_pairs[a] == old_pairs[a - 1]);
                assert(new_pairs[b] == old_pairs[b - 1]);
            }
        }
        self.entries = entries;
    }

    /// Puts `value` in entry `i`, keeping its key; gives back the value that
    /// was there.
    pub fn replace_at(&mut self, i: usize, value: V) -> (previous: V)
        requires
            i < old(self).pairs().len(),
        ensures
            final(self).pairs() == old(self).pairs().update(i as int, (old(self).pairs()[i as int].0, value)),
            previous == old(self).pairs()[i as int].1,
    {
        proof {
            use_type_invariant(&*self);
        }
        let ghost old_pairs = self.pairs();
        let mut entries: Vec<(K, V)> = Vec::new();
        std::mem::swap(&mut entries, &mut self.entries);
        let (k, v) = entries.remove(i);
        entries.insert(i, (k, value));
        proof {
            lemma_map_after_update::<K, V>(old_pairs, i as int, value);
        }
        assert(entries@.map_values(|e: (K, V)| (e.0@, e.1)) =~= old_pairs.update(
            i as int,
            (old_pairs[i as int].0, value),
        ));
        self.entries = entries;
        v
    }
}

/// Adding entry `(k, v)` for a key that no entry has adds `k ↦ v` to the map.
pub proof fn lemma_map_after_insert<K: SortKey, V>(s: Seq<(K::V, V)>, i: int, k: K::V, v: V)
    requires
        keys_ascending::<K, V>(s),
        keys_ascending::<K, V>(s.insert(i, (k, v))),
        !has_key(s, k),
        0 <= i <= s.len(),
    ensures
        pairs_to_map(s.insert(i, (k, v))) == pairs_to_map(s).insert(k, v),
{
    let t = s.insert(i, (k, v));
    assert forall|x: K::V| #[trigger] has_key(t, x) == (has_key(s, x) || x == k) by {
        if has_key(s, x) {
            let j = choose|j: int| 0 <= j < s.len() && #[trigger] s[j].0 == x;
            if j < i {
                assert(t[j].0 == x);
            } else {
                assert(t[j + 1].0 == x);
            }
        }
        if x == k {
            assert(t[i].0 == x);
        }
        if has_key(t, x) && x != k {
            let j = choose|j: int| 0 <= j < t.len() && #[trigger] t[j].0 == x;
            if j < i {
                assert(s[j].0 == x);
            } else {
                assert(s[j - 1].0 == x);
            }
        }
    }
    assert forall|x: K::V| #[trigger] pairs_to_map(t).contains_key(x) implies pairs_to_map(t)[x]
        == pairs_to_map(s).insert(k, v)[x] by {
        if x == k {
            lemma_map_at::<K, V>(t, i);
        } else {
            let j = choose|j: int| 0 <= j < s.len() && #[trigger] s[j].0 == x;
            let jt = if j < i { j } else { j + 1 };
            assert(t[jt] == s[j]);
            lemma_map_at::<K, V>(t, jt);
            lemma_map_at::<K, V>(s, j);
        }
    }
    assert(pairs_to_map(t) =~= pairs_to_map(s).insert(k, v));
}

/// Replacing the value of entry `i` sets the map's value for that key.
pub proof fn lemma_map_after_update<K: SortKey, V>(s: Seq<(K::V, V)>, i: int, v: V)
    requires
        keys_ascending::<K, V>(s),
        0 <= i < s.len(),
    ensures
        keys_ascending::<K, V>(s.update(i, (s[i].0, v))),
        pairs_to_map(s.update(i, (s[i].0, v))) == pairs_to_map(s).insert(s[i].0, v),
{
    let k = s[i].0;
    let t = s.update(i, (k, v));
    assert forall|a: int, b: int| 0 <= a < b < t.len() implies K::key_lt(#[trigger] t[a].0, #[trigger] t[b].0) by {
        assert(t[a].0 == s[a].0);
        assert(t[b].0 == s[b].0);
    }
    assert forall|x: K::V| #[trigger] has_key(t, x) == has_key(s, x) by {
        if has_key(s, x) {
            let j = choose|j: int| 0 <= j < s.len() && #[trigger] s[j].0 == x;
            assert(t[j].0 == x);
        }
        if has_key(t, x) {
            let j = choose|j: int| 0 <= j < t.len() && #[trigger] t[j].0 == x;
            assert(s[j].0 == x);
        }
    }
    assert(has_key(s, k)) by {
        assert(s[i].0 == k);
    }
    assert forall|x: K::V| #[trigger] pairs_to_map(t).contains_key(x) implies pairs_to_map(t)[x]
        == pairs_to_map(s).insert(k, v)[x] by {
        if x == k {
            lemma_map_at::<K, V>(t, i);
        } else {
            let j = choose|j: int| 0 <= j < s.len() && #[trigger] s[j].0 == x;
            assert(t[j] == s[j]);
            lemma_map_at::<K, V>(t, j);
            lemma_map_at::<K, V>(s, j);
        }
    }
    assert(pairs_to_map(t) =~= pairs_to_map(s).insert(k, v));
}

impl<K: SortKey, V> SortedMap<K, V> {
    /// The value under `key`, if any.
    pub fn get(&self, key: &K) -> (r: Option<&V>)
        ensures
            match r {
                Some(v) => self@.contains_key(key@) && *v == self@[key@],
                None => !self@.contains_key(key@),
            },
    {
        proof {
            use_type_invariant(self);
        }
        match self.position(key) {
            Ok(i) => {
                proof {
                    lemma_map_at::<K, V>(self.pairs(), i as int);
                }
                Some(self.value_at(i))
            },
            Err(_) => None,
        }
    }

    /// Sets the value under `key` to `value`.
    pub fn insert(&mut self, key: K, value: V)
        ensures
            final(self)@ == old(self)@.insert(key@, value),
    {
        proof {
            use_type_invariant(&*self);
        }
        match self.position(&key) {
            Ok(i) => {
                let ghost p = self.pairs();
                self.replace_at(i, value);
                proof {
                    lemma_map_after_update::<K, V>(p, i as int, value);
                }
            },
            Err(i) => {
                let ghost p = self.pairs();
                let ghost kv = key@;
                self.insert_at(i, key, value);
                proof {
                    use_type_invariant(&*self);
                    lemma_map_after_insert::<K, V>(p, i as int, kv, value);
                }
            },
        }
    }
}

/// The count that `m` holds under `k`; 0 when `k` has none.
pub open spec fn count_of<KV>(m: Map<KV, usize>, k: KV) -> nat {
    if m.contains_key(k) {
        m[k] as nat
    } else {
        0
    }
}

/// `m` with one more under `k`.
pub open spec fn counted<KV>(m: Map<KV, usize>, k: KV) -> Map<KV, usize> {
    m.insert(k, (count_of(m, k) + 1) as usize)
}

proof fn lemma_map_drop_last<K: SortKey, V>(p: Seq<(K::V, V)>)
    requires
        keys_ascending::<K, V>(p),
        p.len() > 0,
    ensures
        pairs_to_map(p.drop_last()) == pairs_to_map(p).remove(p.last().0),
        keys_ascending::<K, V>(p.drop_last()),
{
    let s = p.drop_last();
    let k = p.last().0;
    assert forall|a: int, b: int| 0 <= a < b < s.len() implies K::key_lt(#[trigger] s[a].0, #[trigger] s[b].0) by {
        assert(s[a] == p[a]);
        assert(s[b] == p[b]);
    }
    assert(s.insert(s.len() as int, p.last()) =~= p);
    if has_key(s, k) {
        let j = choose|j: int| 0 <= j < s.len() && #[trigger] s[j].0 == k;
        lemma_ascending_distinct::<K, V>(p, j, p.len() - 1);
    }
    lemma_map_after_insert::<K, V>(s, s.len() as int, k, p.last().1);
    assert(!pairs_to_map(s).contains_key(k));
    assert(pairs_to_map(s) =~= pairs_to_map(p).remove(k));
}

/// Ascending listings are determined by what they map: two listings with
/// ascending keys that stand for the same map are equal. So everything
/// written from a table in its order depends on its contents alone.
pub proof fn lemma_listing_determined<K: SortKey, V>(p1: Seq<(K::V, V)>, p2: Seq<(K::V, V)>)
    requires
        keys_ascending::<K, V>(p1),
        keys_ascending::<K, V>(p2),
        pairs_to_map(p1) == pairs_to_map(p2),
    ensures
        p1 == p2,
    decreases p1.len(),
{
    if p1.len() == 0 || p2.len() == 0 {
        if p2.len() > 0 {
            assert(has_key(p2, p2[0].0));
            assert(pairs_to_map(p2).contains_key(p2[0].0));
        }
        if p1.len() > 0 {
            assert(has_key(p1, p1[0].0));
            assert(pairs_to_map(p1).contains_key(p1[0].0));
        }
        assert(p1 =~= p2);
    } else {
        let n1 = p1.len() - 1;
        let n2 = p2.len() - 1;
        let k1 = p1[n1].0;
        let k2 = p2[n2].0;
        lemma_map_at::<K, V>(p1, n1);
        lemma_map_at::<K, V>(p2, n2);
        let j = choose|j: int| 0 <= j < p2.len() && #[trigger] p2[j].0 == k1;
        let i = choose|i: int| 0 <= i < p1.len() && #[trigger] p1[i].0 == k2;
        if j < n2 {
            assert(K::key_lt(k1, k2));
            if i < n1 {
                assert(K::key_lt(k2, k1));
                K::lemma_key_lt_transitive(k1, k2, k1);
            }
            K::lemma_key_lt_irreflexive(k1);
        }
        assert(k1 == k2);
        lemma_map_drop_last::<K, V>(p1);
        lemma_map_drop_last::<K, V>(p2);
        lemma_listing_determined::<K, V>(p1.drop_last(), p2.drop_last());
        assert(p1 =~= p1.drop_last().push(p1[n1]));
        assert(p2 =~= p2.drop_last().push(p2[n2]));
    }
}

/// The sum of the counts of `p`.
pub open spec fn sum_counts<KV>(p: Seq<(KV, usize)>) -> nat
    decreases p.len(),
{
    if p.len() == 0 {
        0
    } else {
        sum_counts(p.drop_last()) + p.last().1 as nat
    }
}

proof fn lemma_sum_update<KV>(s: Seq<(KV, usize)>, i: int, e: (KV, usize))
    requires
        0 <= i < s.len(),
    ensures
        sum_counts(s.update(i, e)) + s[i].1 == sum_counts(s) + e.1,
    decreases s.len(),
{
    if i < s.len() - 1 {
        lemma_sum_update(s.drop_last(), i, e);
        assert(s.update(i, e).drop_last() =~= s.drop_last().update(i, e));
    } else {
        assert(s.update(i, e).drop_last() =~= s.drop_last());
    }
}

proof fn lemma_sum_insert<KV>(s: Seq<(KV, usize)>, i: int, e: (KV, usize))
    requires
        0 <= i <= s.len(),
    ensures
        sum_counts(s.insert(i, e)) == sum_counts(s) + e.1,
    decreases s.len(),
{
    if i < s.len() {
        lemma_sum_insert(s.drop_last(), i, e);
        assert(s.insert(i, e).drop_last() =~= s.drop_last().insert(i, e));
    } else {
        assert(s.insert(i, e).drop_last() =~= s);
    }
}

impl<K: SortKey> SortedMap<K, usize> {
    /// The sum of all counts.
    pub open spec fn total(&self) -> nat {
        sum_counts(self.pairs())
    }

    /// Adds one to the count under `key`, starting from 0 for a new key.
    pub fn increment(&mut self, key: K)
        requires
            count_of(old(self)@, key@) < usize::MAX,
        ensures
            final(self)@ == counted(old(self)@, key@),
            final(self).total() == old(self).total() + 1,
    {
        proof {
            use_type_invariant(&*self);
        }
        match self.position(&key) {
            Ok(i) => {
                let ghost p = self.pairs();
                proof {
                    lemma_map_at::<K, usize>(p, i as int);
                }
                let c = *self.value_at(i);
                self.replace_at(i, c + 1);
                proof {
                    lemma_map_after_update::<K, usize>(p, i as int, (c + 1) as usize);
                    lemma_sum_update(p, i as int, (p[i as int].0, (c + 1) as usize));
                }
            },
            Err(i) => {
                let ghost p = self.pairs();
                let ghost kv = key@;
                self.insert_at(i, key, 1);
                proof {
                    use_type_invariant(&*self);
                    lemma_map_after_insert::<K, usize>(p, i as int, kv, 1);
                    lemma_sum_insert(p, i as int, (kv, 1usize));
                }
            },
        }
    }
}

/// Counts under string keys, listed in ascending key order.
pub type Tally = SortedMap<String, usize>;

/// Counts under zoom levels, listed in ascending zoom order.
pub type ZoomTally = SortedMap<u32, usize>;

/// `hm` with one more under `k`.
pub fn incr_count(hm: Tally, k: String) -> (r: Tally)
    requires
        count_of(hm@, k@) < usize::MAX,
    ensures
        r@ == counted(hm@, k@),
{
    let mut hm = hm;
    hm.increment(k);
    hm
}

/// `hm` with one more under zoom level `k`.
pub fn incr_count_u32(hm: ZoomTally, k: u32) -> (r: ZoomTally)
    requires
        count_of(hm@, k) < usize::MAX,
    ensures
        r@ == counted(hm@, k),
{
    let mut hm = hm;
    hm.increment(k);
    hm
}

/// Counts of header values under header names, both in ascending order.
pub type HeaderTallies = SortedMap<String, Tally>;

/// The counts of `h` as maps: header name to value to count.
pub open spec fn header_counts(h: Map<Seq<char>, Tally>) -> Map<Seq<char>, Map<Seq<char>, usize>> {
    Map::new(|k: Seq<char>| h.contains_key(k), |k: Seq<char>| h[k]@)
}

/// The counts under header `name`; none when `name` has no table.
pub open spec fn counts_under(hc: Map<Seq<char>, Map<Seq<char>, usize>>, name: Seq<char>) -> Map<
    Seq<char>,
    usize,
> {
    if hc.contains_key(name) {
        hc[name]
    } else {
        Map::empty()
    }
}

/// Starts a table for header `name`, emptying any it had.
pub fn track_header(h: &mut HeaderTallies, name: String)
    ensures
        header_counts(final(h)@) == header_counts(old(h)@).insert(name@, Map::empty()),
{
    let t = Tally::new();
    proof {
        assert(t@ =~= Map::empty());
    }
    h.insert(name, t);
    assert(header_counts(h@) =~= header_counts(old(h)@).insert(name@, Map::empty()));
}

/// Counts one more `value` of header `name`.
pub fn record_header_value(h: &mut HeaderTallies, name: String, value: String)
    requires
        count_of(counts_under(header_counts(old(h)@), name@), value@) < usize::MAX,
    ensures
        header_counts(final(h)@) == header_counts(old(h)@).insert(
            name@,
            counted(counts_under(header_counts(old(h)@), name@), value@),
        ),
{
    let ghost old_counts = header_counts(h@);
    let ghost nv = name@;
    let ghost vv = value@;
    proof {
        use_type_invariant(&*h);
    }
    match h.position(&name) {
        Ok(i) => {
            let ghost p = h.pairs();
            proof {
                lemma_map_at::<String, Tally>(p, i as int);
            }
            let empty = Tally::new();
            let ghost e = empty;
            let mut t = h.replace_at(i, empty);
            proof {
                lemma_map_after_update::<String, Tally>(p, i as int, e);
            }
            t.increment(value);
            proof {
                use_type_invariant(&*h);
            }
            let ghost p2 = h.pairs();
            h.replace_at(i, t);
            proof {
                lemma_map_after_update::<String, Tally>(p2, i as int, t);
                assert(h@ == old(h)@.insert(nv, t));
            }
        },
        Err(i) => {
            let ghost p = h.pairs();
            let mut t = Tally::new();
            proof {
                assert(t@ =~= Map::<Seq<char>, usize>::empty());
            }
            t.increment(value);
            h.insert_at(i, name, t);
            proof {
                use_type_invariant(&*h);
                lemma_map_after_insert::<String, Tally>(p, i as int, nv, t);
            }
        },
    }
    assert(header_counts(h@) =~= old_counts.insert(nv, counted(counts_under(old_counts, nv), vv)));
}

} // verus!
