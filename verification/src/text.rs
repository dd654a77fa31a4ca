//! Plain text building blocks: decimal numbers, escaping and substitution.
use vstd::prelude::*;

verus! {

/// The decimal digit character for `d` (0..10).
pub open spec fn digit_char(d: nat) -> char {
    if d == 0 { '0' }
    else if d == 1 { '1' }
    else if d == 2 { '2' }
    else if d == 3 { '3' }
    else if d == 4 { '4' }
    else if d == 5 { '5' }
    else if d == 6 { '6' }
    else if d == 7 { '7' }
    else if d == 8 { '8' }
    else { '9' }
}

/// The decimal notation of `n`, without sign or leading zeros (as `{}` prints it).
pub open spec fn decimal(n: nat) -> Seq<char>
    decreases n,
{
    if n < 10 {
        seq![digit_char(n)]
    } else {
        decimal(n / 10).push(digit_char(n % 10))
    }
}

/// The number that a string of decimal digits reads as, most significant
/// digit first.
pub open spec fn digits_value(s: Seq<char>) -> int
    decreases s.len(),
{
    if s.len() == 0 {
        0
    } else {
        10 * digits_value(s.drop_last()) + (s.last() as int - '0' as int)
    }
}

/// `decimal(n)` is a nonempty string of the digits `0` to `9` that reads as
/// `n`, and it starts with `0` only when it is `0` itself.
pub proof fn lemma_decimal_reads_back(n: nat)
    ensures
        decimal(n).len() >= 1,
        forall|i: int| 0 <= i < decimal(n).len() ==> '0' <= #[trigger] decimal(n)[i] <= '9',
        digits_value(decimal(n)) == n,
        decimal(n)[0] == '0' ==> n == 0,
    decreases n,
{
    assert('0' as int == 48 && '1' as int == 49 && '2' as int == 50 && '3' as int == 51 && '4' as int == 52);
    assert('5' as int == 53 && '6' as int == 54 && '7' as int == 55 && '8' as int == 56 && '9' as int == 57);
    assert(digit_char(n % 10) as int == 48 + n % 10);
    if n < 10 {
        let t = seq![digit_char(n)];
        assert(t.drop_last() =~= Seq::<char>::empty());
        assert(digits_value(t.drop_last()) == 0);
        assert(t.last() == digit_char(n));
        assert(digits_value(t) == digit_char(n) as int - '0' as int);
        assert(n % 10 == n);
    } else {
        lemma_decimal_reads_back(n / 10);
        let s = decimal(n / 10);
        let t = s.push(digit_char(n % 10));
        assert(t.drop_last() =~= s);
        assert(t[0] == s[0]);
        assert(digits_value(t) == 10 * digits_value(s) + (n % 10));
        assert(10 * (n / 10) + n % 10 == n);
        assert forall|i: int| 0 <= i < t.len() implies '0' <= #[trigger] t[i] <= '9' by {
            if i < s.len() {
                assert(t[i] == s[i]);
            }
        }
    }
}

/// Appends `c` to `s`.
///
/// Trusted: calls `String::push`, whose documentation says that it appends
/// the character to the end of the string.
#[verifier::external_body]
pub(crate) fn push_char(s: &mut String, c: char)
    ensures
        final(s)@ == old(s)@.push(c),
{
    s.push(c);
}

fn digit(d: u64) -> (c: char)
    requires
        d < 10,
    ensures
        c == digit_char(d as nat),
{
    if d == 0 { '0' }
    else if d == 1 { '1' }
    else if d == 2 { '2' }
    else if d == 3 { '3' }
    else if d == 4 { '4' }
    else if d == 5 { '5' }
    else if d == 6 { '6' }
    else if d == 7 { '7' }
    else if d == 8 { '8' }
    else { '9' }
}

/// Appends the decimal notation of `n` to `out`.
pub fn append_decimal(out: &mut String, n: u64)
    ensures
        final(out)@ == old(out)@ + decimal(n as nat),
    decreases n,
{
    if n >= 10 {
        append_decimal(out, n / 10);
    }
    push_char(out, digit(n % 10));
    proof {
        if n >= 10 {
            assert(decimal(n as nat) == decimal((n / 10) as nat).push(digit_char((n % 10) as nat)));
        }
    }
}

/// The decimal notation of `n`.
pub fn decimal_string(n: u64) -> (s: String)
    ensures
        s@ == decimal(n as nat),
{
    let mut s = String::new();
    append_decimal(&mut s, n);
    s
}

/// The characters of `s`, in order.
pub fn chars_of(s: &str) -> (v: Vec<char>)
    ensures
        v@ == s@,
{
    let n = s.unicode_len();
    let mut v: Vec<char> = Vec::new();
    let mut i: usize = 0;
    while i < n
        invariant
            n == s@.len(),
            i <= n,
            v@ == s@.take(i as int),
        decreases n - i,
    {
        v.push(s.get_char(i));
        i = i + 1;
        assert(v@ =~= s@.take(i as int));
    }
    assert(v@ =~= s@);
    v
}

/// Appends all of `chars` to `out`.
pub fn append_chars(out: &mut String, chars: &Vec<char>)
    ensures
        final(out)@ == old(out)@ + chars@,
{
    let mut i: usize = 0;
    while i < chars.len()
        invariant
            i <= chars@.len(),
            out@ == old(out)@ + chars@.take(i as int),
        decreases chars.len() - i,
    {
        push_char(out, chars[i]);
        i = i + 1;
        assert(out@ =~= old(out)@ + chars@.take(i as int));
    }
    assert(chars@.take(chars@.len() as int) =~= chars@);
}

/// `s` with every occurrence of the nonempty `pattern` replaced by
/// `replacement`, occurrences taken left to right without overlap (as
/// `str::replace` does).
pub open spec fn replace_all(s: Seq<char>, pattern: Seq<char>, replacement: Seq<char>) -> Seq<char>
    decreases s.len(),
{
    if pattern.len() == 0 || s.len() < pattern.len() {
        s
    } else if s.take(pattern.len() as int) == pattern {
        replacement + replace_all(s.skip(pattern.len() as int), pattern, replacement)
    } else {
        seq![s[0]] + replace_all(s.skip(1), pattern, replacement)
    }
}

/// Substitution leaves a text in which the pattern never occurs as it is,
/// turns a leading occurrence into the replacement and goes on after it,
/// and on an empty text gives an empty text.
pub proof fn lemma_replace_all_laws(s: Seq<char>, pattern: Seq<char>, replacement: Seq<char>)
    requires
        pattern.len() > 0,
    ensures
        (forall|i: int| 0 <= i <= s.len() - pattern.len() ==> #[trigger] s.skip(i).take(pattern.len() as int) != pattern)
            ==> replace_all(s, pattern, replacement) == s,
        replace_all(pattern + s, pattern, replacement) == replacement + replace_all(s, pattern, replacement),
        replace_all(Seq::<char>::empty(), pattern, replacement) == Seq::<char>::empty(),
    decreases s.len(),
{
    let n = pattern.len() as int;
    let t = pattern + s;
    assert(t.take(n) =~= pattern);
    assert(t.skip(n) =~= s);
    if forall|i: int| 0 <= i <= s.len() - n ==> #[trigger] s.skip(i).take(n) != pattern {
        if s.len() >= n {
            assert(s.skip(0) =~= s);
            assert(s.take(n) != pattern) by {
                assert(s.skip(0).take(n) != pattern);
            }
            assert forall|i: int| 0 <= i <= s.skip(1).len() - n implies #[trigger] s.skip(1).skip(i).take(n) != pattern by {
                assert(s.skip(1).skip(i) =~= s.skip(i + 1));
                assert(s.skip(i + 1).take(n) != pattern);
            }
            lemma_replace_all_laws(s.skip(1), pattern, replacement);
            assert(seq![s[0]] + s.skip(1) =~= s);
        }
    }
}

fn matches_at(s: &Vec<char>, i: usize, pattern: &Vec<char>) -> (b: bool)
    requires
        i + pattern.len() <= s.len(),
    ensures
        b == (s@.skip(i as int).take(pattern@.len() as int) == pattern@),
{
    let mut k: usize = 0;
    while k < pattern.len()
        invariant
            i + pattern.len() <= s.len(),
            k <= pattern@.len(),
            forall|m: int| 0 <= m < k ==> s@[i + m] == pattern@[m],
        decreases pattern.len() - k,
    {
        if s[i + k] != pattern[k] {
            assert(s@.skip(i as int).take(pattern@.len() as int)[k as int] != pattern@[k as int]);
            return false;
        }
        k = k + 1;
    }
    assert(s@.skip(i as int).take(pattern@.len() as int) =~= pattern@);
    true
}

/// `s` with every occurrence of `pattern` replaced by `replacement`.
pub fn replace_all_str(s: &str, pattern: &str, replacement: &str) -> (r: String)
    requires
        pattern@.len() > 0,
    ensures
        r@ == replace_all(s@, pattern@, replacement@),
{
    let cs = chars_of(s);
    let pat = chars_of(pattern);
    let rep = chars_of(replacement);
    let n = cs.len();
    let m = pat.len();
    let mut out = String::new();
    let mut i: usize = 0;
    assert(cs@.skip(0) =~= cs@);
    assert(out@ + replace_all(cs@, pat@, rep@) =~= replace_all(cs@, pat@, rep@));
    while i < n
        invariant
            n == cs@.len(),
            m == pat@.len(),
            m > 0,
            cs@ == s@,
            pat@ == pattern@,
            rep@ == replacement@,
            i <= n,
            out@ + replace_all(cs@.skip(i as int), pat@, rep@) == replace_all(s@, pattern@, replacement@),
        decreases n - i,
    {
        let ghost rest = cs@.skip(i as int);
        if n - i >= m && matches_at(&cs, i, &pat) {
            append_chars(&mut out, &rep);
            assert(rest.take(m as int) == pat@);
            assert(rest.skip(m as int) =~= cs@.skip(i + m));
            i = i + m;
        } else {
            push_char(&mut out, cs[i]);
            assert(rest.skip(1) =~= cs@.skip(i + 1));
            assert(rest[0] == cs@[i as int]);
            i = i + 1;
        }
    }
    assert(cs@.skip(n as int) =~= Seq::<char>::empty());
    out
}

/// `s` with each backslash and each double quote preceded by a backslash.
pub open spec fn escape_quotes(s: Seq<char>) -> Seq<char>
    decreases s.len(),
{
    if s.len() == 0 {
        s
    } else {
        let c = s[0];
        let head = if c == '\\' || c == '"' { seq!['\\', c] } else { seq![c] };
        head + escape_quotes(s.skip(1))
    }
}

/// Escaping works character by character: nothing gives nothing, a
/// backslash or double quote gets a backslash before it, any other
/// character stays as it is, and the escape of two strings joined is the two
/// escapes joined.
pub proof fn lemma_escape_quotes_parts(a: Seq<char>, b: Seq<char>, c: char)
    ensures
        escape_quotes(Seq::<char>::empty()) == Seq::<char>::empty(),
        escape_quotes(seq![c]) == (if c == '\\' || c == '"' { seq!['\\', c] } else { seq![c] }),
        escape_quotes(a + b) == escape_quotes(a) + escape_quotes(b),
    decreases a.len(),
{
    assert(seq![c].skip(1) =~= Seq::<char>::empty());
    assert(escape_quotes(seq![c].skip(1)) == Seq::<char>::empty());
    let head = if c == '\\' || c == '"' { seq!['\\', c] } else { seq![c] };
    assert(escape_quotes(seq![c]) == head + escape_quotes(seq![c].skip(1)));
    assert(head + Seq::<char>::empty() =~= head);
    if a.len() > 0 {
        lemma_escape_quotes_parts(a.skip(1), b, c);
        assert((a + b).skip(1) =~= a.skip(1) + b);
        assert((a + b)[0] == a[0]);
    } else {
        assert(a + b =~= b);
    }
}

/// `s` as a double-quoted string in which backslashes and double quotes are
/// escaped with a backslash.
pub fn quote_string(s: &str) -> (q: String)
    ensures
        q@ == seq!['"'] + escape_quotes(s@) + seq!['"'],
{
    let cs = chars_of(s);
    let n = cs.len();
    let mut out = String::new();
    push_char(&mut out, '"');
    let mut i: usize = 0;
    assert(cs@.skip(0) =~= cs@);
    while i < n
        invariant
            n == cs@.len(),
            cs@ == s@,
            i <= n,
            out@ + escape_quotes(cs@.skip(i as int)) == seq!['"'] + escape_quotes(s@),
        decreases n - i,
    {
        let c = cs[i];
        let ghost rest = cs@.skip(i as int);
        if c == '\\' || c == '"' {
            push_char(&mut out, '\\');
        }
        push_char(&mut out, c);
        assert(rest.skip(1) =~= cs@.skip(i + 1));
        assert(rest[0] == c);
        i = i + 1;
    }
    assert(cs@.skip(n as int) =~= Seq::<char>::empty());
    push_char(&mut out, '"');
    out
}

} // verus!
