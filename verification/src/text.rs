//! Text as the kernel and its tools write it: lines, words, fields, numbers.
//!
//! A text is modelled by the sequence of its characters. Executable code works
//! on character slices, and on strings at the edges.

use vstd::prelude::*;
use vstd::slice::slice_subrange;

verus! {

/// The most characters kept of a text that comes from outside.
pub const EXTERNAL_TEXT_LIMIT: usize = 256;

/// `String::push` appends one character at the end and changes nothing else.
pub assume_specification[ String::push ](string: &mut String, ch: char)
    ensures
        final(string)@ == old(string)@.push(ch),
;

/// The characters with the Unicode property `White_Space`.
pub open spec fn is_white(c: char) -> bool {
    ||| '\u{9}' <= c <= '\u{d}'
    ||| c == ' '
    ||| c == '\u{85}'
    ||| c == '\u{a0}'
    ||| c == '\u{1680}'
    ||| '\u{2000}' <= c <= '\u{200a}'
    ||| c == '\u{2028}'
    ||| c == '\u{2029}'
    ||| c == '\u{202f}'
    ||| c == '\u{205f}'
    ||| c == '\u{3000}'
}

/// The length of the longest beginning of `s` whose items all satisfy `p`.
pub open spec fn span<V>(s: Seq<V>, p: spec_fn(V) -> bool) -> nat
    decreases s.len(),
{
    if s.len() == 0 || !p(s[0]) {
        0
    } else {
        1 + span(s.skip(1), p)
    }
}

/// Every character but `c`.
pub open spec fn other_than(c: char) -> spec_fn(char) -> bool {
    |x: char| x != c
}

/// Every character that is not white space.
pub open spec fn not_white() -> spec_fn(char) -> bool {
    |x: char| !is_white(x)
}

/// Where `c` first stands in `s`, or the length of `s`.
pub open spec fn find(s: Seq<char>, c: char) -> nat {
    span(s, other_than(c))
}

/// What follows the last `c` of `s`, or all of `s`.
pub open spec fn after_last(s: Seq<char>, c: char) -> Seq<char>
    decreases s.len(),
{
    if find(s, c) < s.len() {
        after_last(s.skip(find(s, c) as int + 1), c)
    } else {
        s
    }
}

/// Where `c` last stands in `s`, or -1.
pub open spec fn find_last(s: Seq<char>, c: char) -> int {
    s.len() - after_last(s, c).len() - 1
}

/// The pieces of `s` between the occurrences of `c`: one more than there are of those.
pub open spec fn split_on(s: Seq<char>, c: char) -> Seq<Seq<char>>
    decreases s.len(),
{
    let i = find(s, c) as int;
    if i < s.len() {
        seq![s.take(i)] + split_on(s.skip(i + 1), c)
    } else {
        seq![s]
    }
}

/// `s` without one carriage return at its end.
pub open spec fn drop_return(s: Seq<char>) -> Seq<char> {
    if s.len() > 0 && s.last() == '\r' {
        s.drop_last()
    } else {
        s
    }
}

/// The lines of `s`: each ends with a line feed, or with a carriage return and
/// a line feed; the last line need not end so.
pub open spec fn lines(s: Seq<char>) -> Seq<Seq<char>>
    decreases s.len(),
{
    let i = find(s, '\n') as int;
    if s.len() == 0 {
        seq![]
    } else if i < s.len() {
        seq![drop_return(s.take(i))] + lines(s.skip(i + 1))
    } else {
        seq![s]
    }
}

/// The longest pieces of `s` without white space.
pub open spec fn words(s: Seq<char>) -> Seq<Seq<char>>
    decreases s.len(),
{
    if s.len() == 0 {
        seq![]
    } else if is_white(s[0]) {
        words(s.skip(1))
    } else {
        let n = span(s, not_white()) as int;
        proof {
            lemma_span_holds(s, not_white());
        }
        seq![s.take(n)] + words(s.skip(n))
    }
}

/// `s` without the white space at its beginning.
pub open spec fn trim_start(s: Seq<char>) -> Seq<char>
    decreases s.len(),
{
    if s.len() > 0 && is_white(s[0]) {
        trim_start(s.skip(1))
    } else {
        s
    }
}

/// `s` without the white space at its end.
pub open spec fn trim_end(s: Seq<char>) -> Seq<char>
    decreases s.len(),
{
    if s.len() > 0 && is_white(s.last()) {
        trim_end(s.drop_last())
    } else {
        s
    }
}

/// `s` without the white space at both ends.
pub open spec fn trim(s: Seq<char>) -> Seq<char> {
    trim_end(trim_start(s))
}

/// Whether `s` begins with `p`.
pub open spec fn starts_with(s: Seq<char>, p: Seq<char>) -> bool {
    s.len() >= p.len() && s.take(p.len() as int) == p
}

/// Whether `s` ends with `p`.
pub open spec fn ends_with(s: Seq<char>, p: Seq<char>) -> bool {
    s.len() >= p.len() && s.skip(s.len() - p.len()) == p
}

/// What follows the beginning `p` of `s`, if `s` begins so.
pub open spec fn strip_prefix(s: Seq<char>, p: Seq<char>) -> Option<Seq<char>> {
    if starts_with(s, p) {
        Some(s.skip(p.len() as int))
    } else {
        None
    }
}

/// What stands before the end `p` of `s`, if `s` ends so.
pub open spec fn strip_suffix(s: Seq<char>, p: Seq<char>) -> Option<Seq<char>> {
    if ends_with(s, p) {
        Some(s.take(s.len() - p.len()))
    } else {
        None
    }
}

/// The first `limit` characters of `s`, or all of them.
pub open spec fn bounded(s: Seq<char>, limit: int) -> Seq<char> {
    if s.len() > limit {
        s.take(limit)
    } else {
        s
    }
}

/// Whether `c` is a decimal digit.
pub open spec fn is_digit(c: char) -> bool {
    '0' <= c <= '9'
}

/// Whether `s` is made of decimal digits.
pub open spec fn all_digits(s: Seq<char>) -> bool {
    forall|i: int| 0 <= i < s.len() ==> is_digit(#[trigger] s[i])
}

/// The number that the decimal digits `s` write.
pub open spec fn digits_value(s: Seq<char>) -> nat
    decreases s.len(),
{
    if s.len() == 0 {
        0
    } else {
        digits_value(s.drop_last()) * 10 + (s.last() as u32 - '0' as u32) as nat
    }
}

/// The digits of a number that may be written with a plus sign before it.
pub open spec fn without_plus(s: Seq<char>) -> Seq<char> {
    if s.len() > 0 && s[0] == '+' {
        s.skip(1)
    } else {
        s
    }
}

/// The number up to `max` that `s` writes: decimal digits, at least one, with
/// nothing but a plus sign before them.
pub open spec fn number(s: Seq<char>, max: int) -> Option<nat> {
    let digits = without_plus(s);
    if digits.len() > 0 && all_digits(digits) && digits_value(digits) <= max {
        Some(digits_value(digits))
    } else {
        None
    }
}

/// `s` with `to` in place of each `from`, found from the left.
pub open spec fn replace(s: Seq<char>, from: Seq<char>, to: Seq<char>) -> Seq<char>
    decreases s.len(),
{
    if s.len() == 0 || from.len() == 0 {
        s
    } else if starts_with(s, from) {
        to + replace(s.skip(from.len() as int), from, to)
    } else {
        seq![s[0]] + replace(s.skip(1), from, to)
    }
}

/// `s` without any number of `end`s at its end.
pub open spec fn strip_all(s: Seq<char>, end: Seq<char>) -> Seq<char>
    decreases s.len(),
{
    if end.len() > 0 && ends_with(s, end) {
        strip_all(s.take(s.len() - end.len()), end)
    } else {
        s
    }
}

/// The texts `parts` with `between` between each two.
pub open spec fn join(parts: Seq<Seq<char>>, between: char) -> Seq<char>
    decreases parts.len(),
{
    if parts.len() == 0 {
        seq![]
    } else if parts.len() == 1 {
        parts[0]
    } else {
        join(parts.drop_last(), between).push(between) + parts.last()
    }
}

/// The bytes of the UTF-8 encoding of `s`.
pub open spec fn utf8(s: Seq<char>) -> Seq<u8> {
    vstd::utf8::encode_utf8(s)
}

/// The decimal digits of `n`.
pub open spec fn decimal(n: nat) -> Seq<char>
    decreases n,
{
    if n < 10 {
        seq![(('0' as u32 + n) as u32) as char]
    } else {
        decimal(n / 10).push((('0' as u32 + n % 10) as u32) as char)
    }
}

/// The texts that a list of character vectors holds.
pub open spec fn texts(v: Seq<Vec<char>>) -> Seq<Seq<char>> {
    v.map_values(|t: Vec<char>| t@)
}

/// The model of an optional value.
pub open spec fn viewed<T: View>(value: Option<T>) -> Option<T::V> {
    match value {
        Some(v) => Some(v@),
        None => None,
    }
}

/// The texts that a list of strings holds.
pub open spec fn strings(v: Seq<String>) -> Seq<Seq<char>> {
    v.map_values(|t: String| t@)
}

/// Where the first `n` items have the property and the next has not, the span is `n`.
pub proof fn lemma_span<V>(s: Seq<V>, p: spec_fn(V) -> bool, n: int)
    requires
        0 <= n <= s.len(),
        forall|i: int| 0 <= i < n ==> p(#[trigger] s[i]),
        n == s.len() || !p(s[n]),
    ensures
        span(s, p) == n,
    decreases s.len(),
{
    if n > 0 {
        let rest = s.skip(1);
        assert forall|i: int| 0 <= i < n - 1 implies p(#[trigger] rest[i]) by {
            assert(rest[i] == s[i + 1]);
        }
        lemma_span(rest, p, n - 1);
    }
}

/// The items of a span have the property, and the one after them has not.
pub proof fn lemma_span_holds<V>(s: Seq<V>, p: spec_fn(V) -> bool)
    ensures
        span(s, p) <= s.len(),
        forall|i: int| 0 <= i < span(s, p) ==> p(#[trigger] s[i]),
        span(s, p) < s.len() ==> !p(s[span(s, p) as int]),
    decreases s.len(),
{
    if s.len() > 0 && p(s[0]) {
        let rest = s.skip(1);
        lemma_span_holds(rest, p);
        assert forall|i: int| 0 <= i < span(s, p) implies p(#[trigger] s[i]) by {
            if i > 0 {
                assert(rest[i - 1] == s[i]);
            }
        }
    }
}

/// Whether `a` comes before `b` in the order of their characters, as in a dictionary.
pub open spec fn less(a: Seq<char>, b: Seq<char>) -> bool
    decreases a.len(),
{
    if b.len() == 0 {
        false
    } else if a.len() == 0 {
        true
    } else if a[0] != b[0] {
        a[0] < b[0]
    } else {
        less(a.skip(1), b.skip(1))
    }
}

/// No two texts come before each other.
pub proof fn lemma_less_strict(a: Seq<char>, b: Seq<char>)
    ensures
        less(a, b) ==> !less(b, a),
    decreases a.len(),
{
    if a.len() > 0 && b.len() > 0 && a[0] == b[0] {
        lemma_less_strict(a.skip(1), b.skip(1));
    }
}

/// Any third text comes after the first of two or before the second.
pub proof fn lemma_less_weak(a: Seq<char>, b: Seq<char>, c: Seq<char>)
    ensures
        less(a, b) ==> less(a, c) || less(c, b),
    decreases a.len(),
{
    if a.len() > 0 && b.len() > 0 && c.len() > 0 && a[0] == b[0] && b[0] == c[0] {
        lemma_less_weak(a.skip(1), b.skip(1), c.skip(1));
    }
}

/// Of two different texts, one comes before the other.
pub proof fn lemma_less_total(a: Seq<char>, b: Seq<char>)
    ensures
        a == b || less(a, b) || less(b, a),
    decreases a.len(),
{
    if a.len() > 0 && b.len() > 0 && a[0] == b[0] {
        lemma_less_total(a.skip(1), b.skip(1));
        if a.skip(1) == b.skip(1) {
            assert(a == seq![a[0]] + a.skip(1));
            assert(b == seq![b[0]] + b.skip(1));
        }
    } else if a.len() == 0 && b.len() == 0 {
        assert(a == b);
    }
}

/// Whether `a` comes before `b` in the order of their characters.
pub fn comes_before(a: &str, b: &str) -> (r: bool)
    ensures
        r == less(a@, b@),
{
    let a: Vec<char> = chars_of(a);
    let b: Vec<char> = chars_of(b);
    let mut i: usize = 0;
    assert(a@.skip(0) == a@ && b@.skip(0) == b@);
    while i < a.len() && i < b.len() && a[i] == b[i]
        invariant
            i <= a@.len(),
            i <= b@.len(),
            less(a@.skip(i as int), b@.skip(i as int)) == less(a@, b@),
        decreases a.len() - i,
    {
        assert(a@.skip(i as int).skip(1) == a@.skip(i + 1));
        assert(b@.skip(i as int).skip(1) == b@.skip(i + 1));
        i = i + 1;
    }
    if i == b.len() {
        false
    } else if i == a.len() {
        true
    } else {
        a[i] < b[i]
    }
}

/// Whether `c` is white space.
pub fn white(c: char) -> (r: bool)
    ensures
        r == is_white(c),
{
    ('\u{9}' <= c && c <= '\u{d}') || c == ' ' || c == '\u{85}' || c == '\u{a0}' || c == '\u{1680}'
        || ('\u{2000}' <= c && c <= '\u{200a}') || c == '\u{2028}' || c == '\u{2029}' || c
        == '\u{202f}' || c == '\u{205f}' || c == '\u{3000}'
}

/// The characters of `s`.
pub fn chars_of(s: &str) -> (r: Vec<char>)
    ensures
        r@ == s@,
{
    let mut out: Vec<char> = Vec::new();
    for c in it: s.chars()
        invariant
            it.seq() == s@,
            out@ == s@.take(it.index()),
    {
        out.push(c);
        assert(s@.take(it.index() + 1) == s@.take(it.index()).push(c));
    }
    assert(s@.take(s@.len() as int) == s@);
    out
}

/// The string with the characters `s`.
pub fn string_of(s: &[char]) -> (r: String)
    ensures
        r@ == s@,
{
    let mut out: String = String::new();
    let mut i: usize = 0;
    while i < s.len()
        invariant
            i <= s@.len(),
            out@ == s@.take(i as int),
        decreases s.len() - i,
    {
        out.push(s[i]);
        i = i + 1;
        assert(s@.take(i as int) == s@.take(i - 1).push(s@[i - 1]));
    }
    assert(s@.take(s@.len() as int) == s@);
    out
}

/// A copy of the characters `s`.
pub fn copy_of(s: &[char]) -> (r: Vec<char>)
    ensures
        r@ == s@,
{
    let mut out: Vec<char> = Vec::new();
    let mut i: usize = 0;
    while i < s.len()
        invariant
            i <= s@.len(),
            out@ == s@.take(i as int),
        decreases s.len() - i,
    {
        out.push(s[i]);
        i = i + 1;
        assert(s@.take(i as int) == s@.take(i - 1).push(s@[i - 1]));
    }
    assert(s@.take(s@.len() as int) == s@);
    out
}

/// Whether `a` and `b` hold the same characters.
pub fn same(a: &[char], b: &[char]) -> (r: bool)
    ensures
        r == (a@ == b@),
{
    if a.len() != b.len() {
        return false;
    }
    let mut i: usize = 0;
    while i < a.len()
        invariant
            i <= a@.len(),
            a@.len() == b@.len(),
            a@.take(i as int) == b@.take(i as int),
        decreases a.len() - i,
    {
        if a[i] != b[i] {
            return false;
        }
        i = i + 1;
        assert(a@.take(i as int) == a@.take(i - 1).push(a@[i - 1]));
        assert(b@.take(i as int) == b@.take(i - 1).push(b@[i - 1]));
    }
    assert(a@.take(i as int) == a@);
    assert(b@.take(i as int) == b@);
    true
}

/// Whether `s` holds the characters of `t`.
pub fn is_text(s: &[char], t: &str) -> (r: bool)
    ensures
        r == (s@ == t@),
{
    same(s, chars_of(t).as_slice())
}

/// Whether `a` and `b` are the same text.
pub fn same_str(a: &str, b: &str) -> (r: bool)
    ensures
        r == (a@ == b@),
{
    let x: &[u8] = a.as_bytes();
    let y: &[u8] = b.as_bytes();
    if x.len() != y.len() {
        return false;
    }
    let mut i: usize = 0;
    while i < x.len()
        invariant
            i <= x@.len(),
            x@ == utf8(a@),
            y@ == utf8(b@),
            x@.len() == y@.len(),
            forall|k: int| 0 <= k < i ==> #[trigger] x@[k] == y@[k],
        decreases x.len() - i,
    {
        if x[i] != y[i] {
            return false;
        }
        i = i + 1;
    }
    proof {
        assert(x@ == y@);
        vstd::utf8::encode_utf8_decode_utf8(a@);
        vstd::utf8::encode_utf8_decode_utf8(b@);
    }
    true
}

/// Where `c` first stands in `s`, or the length of `s`.
pub fn find_char(s: &[char], c: char) -> (i: usize)
    ensures
        i == find(s@, c),
        i <= s@.len(),
{
    let mut i: usize = 0;
    while i < s.len() && s[i] != c
        invariant
            i <= s@.len(),
            forall|j: int| 0 <= j < i ==> other_than(c)(#[trigger] s@[j]),
        decreases s.len() - i,
    {
        i = i + 1;
    }
    proof {
        lemma_span(s@, other_than(c), i as int);
    }
    i
}

/// What follows the last `c` of `s`, or all of `s`.
pub fn tail_after(s: &[char], c: char) -> (r: &[char])
    ensures
        r@ == after_last(s@, c),
{
    let mut rest: &[char] = s;
    loop
        invariant
            after_last(rest@, c) == after_last(s@, c),
        decreases rest@.len(),
    {
        let i: usize = find_char(rest, c);
        if i == rest.len() {
            return rest;
        }
        let next: &[char] = slice_subrange(rest, i + 1, rest.len());
        assert(next@ == rest@.skip(i + 1));
        rest = next;
    }
}

proof fn lemma_after_last(s: Seq<char>, c: char)
    ensures
        after_last(s, c).len() <= s.len(),
        after_last(s, c) == s.skip(s.len() - after_last(s, c).len()),
        after_last(s, c).len() < s.len() ==> s[find_last(s, c)] == c,
        find(s, c) < s.len() ==> find_last(s, c) >= find(s, c),
        find(s, c) >= s.len() ==> find_last(s, c) == -1,
    decreases s.len(),
{
    lemma_span_holds(s, other_than(c));
    if find(s, c) < s.len() {
        let rest = s.skip(find(s, c) as int + 1);
        lemma_after_last(rest, c);
        assert(s.skip(s.len() - after_last(s, c).len()) == rest.skip(
            rest.len() - after_last(rest, c).len(),
        ));
    } else {
        assert(s.skip(0) == s);
    }
}

/// Where `c` last stands in `s`.
pub fn find_last_char(s: &[char], c: char) -> (r: Option<usize>)
    ensures
        r is None <==> find_last(s@, c) == -1,
        r is Some ==> r->0 == find_last(s@, c) && r->0 < s@.len() && s@[r->0 as int] == c,
{
    let tail: &[char] = tail_after(s, c);
    proof {
        lemma_after_last(s@, c);
    }
    if tail.len() == s.len() {
        None
    } else {
        Some(s.len() - tail.len() - 1)
    }
}

/// `s` with `to` in place of each `from`.
pub fn replaced(s: &[char], from: &str, to: char) -> (r: Vec<char>)
    ensures
        r@ == replace(s@, from@, seq![to]),
{
    let width: usize = chars_of(from).len();
    if width == 0 {
        return copy_of(s);
    }
    let mut out: Vec<char> = Vec::new();
    let mut rest: &[char] = s;
    assert(out@ + replace(s@, from@, seq![to]) == replace(s@, from@, seq![to]));
    while rest.len() > 0
        invariant
            width == from@.len(),
            width > 0,
            out@ + replace(rest@, from@, seq![to]) == replace(s@, from@, seq![to]),
        decreases rest@.len(),
    {
        let ghost before = out@;
        let ghost was = rest@;
        match after_prefix(rest, from) {
            Some(next) => {
                out.push(to);
                rest = next;
                assert(out@ + replace(rest@, from@, seq![to]) == before + (seq![to] + replace(
                    rest@,
                    from@,
                    seq![to],
                )));
            },
            None => {
                out.push(rest[0]);
                rest = slice_subrange(rest, 1, rest.len());
                assert(rest@ == was.skip(1));
                assert(out@ + replace(rest@, from@, seq![to]) == before + (seq![was[0]] + replace(
                    rest@,
                    from@,
                    seq![to],
                )));
            },
        }
    }
    assert(out@ + replace(rest@, from@, seq![to]) == out@);
    out
}

/// `s` without any number of `end`s at its end.
pub fn without_ends<'a>(s: &'a [char], end: &str) -> (r: &'a [char])
    ensures
        r@ == strip_all(s@, end@),
{
    if chars_of(end).len() == 0 {
        return s;
    }
    let mut rest: &'a [char] = s;
    loop
        invariant
            end@.len() > 0,
            strip_all(rest@, end@) == strip_all(s@, end@),
        decreases rest@.len(),
    {
        match before_suffix(rest, end) {
            Some(next) => {
                rest = next;
            },
            None => {
                return rest;
            },
        }
    }
}

/// The texts `parts` with `between` between each two.
pub fn joined(parts: &[Vec<char>], between: char) -> (r: Vec<char>)
    ensures
        r@ == join(texts(parts@), between),
{
    let mut out: Vec<char> = Vec::new();
    let ghost all = texts(parts@);
    let mut i: usize = 0;
    while i < parts.len()
        invariant
            i <= parts@.len(),
            all == texts(parts@),
            out@ == join(all.take(i as int), between),
        decreases parts.len() - i,
    {
        if i > 0 {
            out.push(between);
        }
        let ghost before = out@;
        append(&mut out, parts[i].as_slice());
        i = i + 1;
        proof {
            assert(all[i - 1] == parts@[i - 1]@);
            assert(all.take(i as int).drop_last() == all.take(i - 1));
            if i == 1 {
                assert(out@ == all[0]);
            }
        }
    }
    assert(all.take(all.len() as int) == all);
    out
}

/// Appends the characters `more` to `out`.
pub fn append(out: &mut Vec<char>, more: &[char])
    ensures
        final(out)@ == old(out)@ + more@,
{
    let ghost before = out@;
    let mut i: usize = 0;
    assert(before + more@.take(0) == before);
    while i < more.len()
        invariant
            i <= more@.len(),
            out@ == before + more@.take(i as int),
        decreases more.len() - i,
    {
        out.push(more[i]);
        i = i + 1;
        assert(before + more@.take(i as int) == (before + more@.take(i - 1)).push(more@[i - 1]));
    }
    assert(more@.take(more@.len() as int) == more@);
}

/// The pieces of `s` between the occurrences of `c`.
pub fn split(s: &[char], c: char) -> (r: Vec<Vec<char>>)
    ensures
        texts(r@) == split_on(s@, c),
        r@.len() >= 1,
{
    let mut out: Vec<Vec<char>> = Vec::new();
    let mut rest: &[char] = s;
    loop
        invariant
            texts(out@) + split_on(rest@, c) == split_on(s@, c),
        decreases rest@.len(),
    {
        let i: usize = find_char(rest, c);
        let piece: &[char] = slice_subrange(rest, 0, i);
        let ghost before = out@;
        out.push(copy_of(piece));
        assert(texts(out@) == texts(before).push(piece@));
        if i == rest.len() {
            assert(piece@ == rest@);
            assert(texts(out@) == texts(before) + split_on(rest@, c));
            return out;
        }
        let next: &[char] = slice_subrange(rest, i + 1, rest.len());
        proof {
            assert(piece@ == rest@.take(i as int));
            assert(next@ == rest@.skip(i + 1));
            assert(texts(out@) + split_on(next@, c) == texts(before) + (seq![piece@] + split_on(
                next@,
                c,
            )));
        }
        rest = next;
    }
}

/// The lines of `s`.
pub fn split_lines(s: &[char]) -> (r: Vec<Vec<char>>)
    ensures
        texts(r@) == lines(s@),
{
    let mut out: Vec<Vec<char>> = Vec::new();
    let mut rest: &[char] = s;
    assert(texts(out@) + lines(s@) == lines(s@));
    while rest.len() > 0
        invariant
            texts(out@) + lines(rest@) == lines(s@),
        decreases rest@.len(),
    {
        let i: usize = find_char(rest, '\n');
        let ghost before = out@;
        if i == rest.len() {
            out.push(copy_of(rest));
            proof {
                assert(texts(out@) == texts(before).push(rest@));
                assert(texts(out@) == texts(before) + lines(rest@));
            }
            return out;
        }
        let whole: &[char] = slice_subrange(rest, 0, i);
        let line: &[char] = if i > 0 && whole[i - 1] == '\r' {
            slice_subrange(whole, 0, i - 1)
        } else {
            whole
        };
        out.push(copy_of(line));
        let next: &[char] = slice_subrange(rest, i + 1, rest.len());
        proof {
            assert(whole@ == rest@.take(i as int));
            assert(line@ == drop_return(rest@.take(i as int)));
            assert(next@ == rest@.skip(i + 1));
            assert(texts(out@) == texts(before).push(line@));
            assert(texts(out@) + lines(next@) == texts(before) + (seq![line@] + lines(next@)));
        }
        rest = next;
    }
    assert(texts(out@) + lines(rest@) == texts(out@));
    out
}

/// The longest pieces of `s` without white space.
pub fn split_words(s: &[char]) -> (r: Vec<Vec<char>>)
    ensures
        texts(r@) == words(s@),
{
    let mut out: Vec<Vec<char>> = Vec::new();
    let mut rest: &[char] = s;
    assert(texts(out@) + words(s@) == words(s@));
    while rest.len() > 0
        invariant
            texts(out@) + words(rest@) == words(s@),
        decreases rest@.len(),
    {
        if white(rest[0]) {
            let next: &[char] = slice_subrange(rest, 1, rest.len());
            assert(next@ == rest@.skip(1));
            rest = next;
        } else {
            let mut n: usize = 1;
            while n < rest.len() && !white(rest[n])
                invariant
                    1 <= n <= rest@.len(),
                    forall|j: int| 0 <= j < n ==> not_white()(#[trigger] rest@[j]),
                decreases rest.len() - n,
            {
                n = n + 1;
            }
            let word: &[char] = slice_subrange(rest, 0, n);
            let ghost before = out@;
            out.push(copy_of(word));
            let next: &[char] = slice_subrange(rest, n, rest.len());
            proof {
                lemma_span(rest@, not_white(), n as int);
                assert(word@ == rest@.take(n as int));
                assert(next@ == rest@.skip(n as int));
                assert(texts(out@) == texts(before).push(word@));
                assert(texts(out@) + words(next@) == texts(before) + (seq![word@] + words(next@)));
            }
            rest = next;
        }
    }
    assert(texts(out@) + words(rest@) == texts(out@));
    out
}

/// `s` without the white space at both ends.
pub fn trimmed(s: &[char]) -> (r: &[char])
    ensures
        r@ == trim(s@),
{
    let mut rest: &[char] = s;
    while rest.len() > 0 && white(rest[0])
        invariant
            trim_start(rest@) == trim_start(s@),
        decreases rest@.len(),
    {
        let next: &[char] = slice_subrange(rest, 1, rest.len());
        assert(next@ == rest@.skip(1));
        rest = next;
    }
    let ghost begun = rest@;
    while rest.len() > 0 && white(rest[rest.len() - 1])
        invariant
            trim_end(rest@) == trim_end(begun),
        decreases rest@.len(),
    {
        let next: &[char] = slice_subrange(rest, 0, rest.len() - 1);
        assert(next@ == rest@.drop_last());
        rest = next;
    }
    rest
}

/// What follows the beginning `p` of `s`, if `s` begins so.
pub fn after_prefix<'a>(s: &'a [char], p: &str) -> (r: Option<&'a [char]>)
    ensures
        r is Some <==> strip_prefix(s@, p@) is Some,
        r is Some ==> r->0@ == strip_prefix(s@, p@)->0,
{
    let p = chars_of(p);
    if s.len() < p.len() || !same(slice_subrange(s, 0, p.len()), p.as_slice()) {
        assert(s@.len() >= p@.len() ==> s@.subrange(0, p@.len() as int) == s@.take(p@.len() as int));
        return None;
    }
    assert(s@.subrange(0, p@.len() as int) == s@.take(p@.len() as int));
    let rest: &[char] = slice_subrange(s, p.len(), s.len());
    assert(rest@ == s@.skip(p@.len() as int));
    Some(rest)
}

/// What stands before the end `p` of `s`, if `s` ends so.
pub fn before_suffix<'a>(s: &'a [char], p: &str) -> (r: Option<&'a [char]>)
    ensures
        r is Some <==> strip_suffix(s@, p@) is Some,
        r is Some ==> r->0@ == strip_suffix(s@, p@)->0,
{
    let p = chars_of(p);
    if s.len() < p.len() {
        return None;
    }
    let cut: usize = s.len() - p.len();
    let end: &[char] = slice_subrange(s, cut, s.len());
    assert(end@ == s@.skip(cut as int));
    if !same(end, p.as_slice()) {
        return None;
    }
    let rest: &[char] = slice_subrange(s, 0, cut);
    assert(rest@ == s@.take(cut as int));
    Some(rest)
}

/// Whether `s` begins with `p`.
pub fn begins(s: &[char], p: &str) -> (r: bool)
    ensures
        r == starts_with(s@, p@),
{
    after_prefix(s, p).is_some()
}

/// Whether `s` ends with `p`.
pub fn ends(s: &[char], p: &str) -> (r: bool)
    ensures
        r == ends_with(s@, p@),
{
    before_suffix(s, p).is_some()
}

/// The first `limit` characters of `s`, as a string.
pub fn bounded_text(s: &[char], limit: usize) -> (r: String)
    ensures
        r@ == bounded(s@, limit as int),
{
    if s.len() > limit {
        let head: &[char] = slice_subrange(s, 0, limit);
        assert(head@ == s@.take(limit as int));
        string_of(head)
    } else {
        string_of(s)
    }
}

/// The number that digits write is not less than that of the first of them.
pub proof fn lemma_digits_grow(s: Seq<char>, n: int)
    requires
        0 <= n <= s.len(),
    ensures
        digits_value(s.take(n)) <= digits_value(s),
    decreases s.len(),
{
    if n < s.len() {
        lemma_digits_grow(s.drop_last(), n);
        assert(s.drop_last().take(n) == s.take(n));
    } else {
        assert(s.take(n) == s);
    }
}

/// The number up to `max` that `s` writes.
pub fn parse_up_to(s: &[char], max: u64) -> (r: Option<u64>)
    ensures
        r == (match number(s@, max as int) {
            Some(n) => Some(n as u64),
            None => None,
        }),
        r is Some ==> r->0 <= max,
{
    let digits: &[char] = if s.len() > 0 && s[0] == '+' {
        slice_subrange(s, 1, s.len())
    } else {
        s
    };
    assert(digits@ == without_plus(s@));
    if digits.len() == 0 {
        return None;
    }
    let mut value: u64 = 0;
    let mut i: usize = 0;
    while i < digits.len()
        invariant
            i <= digits@.len(),
            digits@ == without_plus(s@),
            digits@.len() > 0,
            value == digits_value(digits@.take(i as int)),
            value <= max,
            forall|j: int| 0 <= j < i ==> is_digit(#[trigger] digits@[j]),
        decreases digits.len() - i,
    {
        let c: char = digits[i];
        if !('0' <= c && c <= '9') {
            assert(!is_digit(digits@[i as int]));
            return None;
        }
        let digit: u64 = c as u64 - '0' as u64;
        proof {
            let longer = digits@.take(i + 1);
            assert(longer.drop_last() == digits@.take(i as int));
            assert(digits_value(longer) == value * 10 + digit);
            lemma_digits_grow(digits@, i + 1);
        }
        let sum: u128 = value as u128 * 10 + digit as u128;
        if sum > max as u128 {
            return None;
        }
        value = sum as u64;
        i = i + 1;
    }
    assert(digits@.take(i as int) == digits@);
    Some(value)
}

/// The number that `s` writes, if it writes one that fits 64 bits.
pub fn parse_u64(s: &[char]) -> (r: Option<u64>)
    ensures
        r == (match number(s@, u64::MAX as int) {
            Some(n) => Some(n as u64),
            None => None,
        }),
{
    parse_up_to(s, u64::MAX)
}

/// The number that `s` writes, if it writes one that fits 32 bits.
pub fn parse_u32(s: &[char]) -> (r: Option<u32>)
    ensures
        r == (match number(s@, u32::MAX as int) {
            Some(n) => Some(n as u32),
            None => None,
        }),
{
    match parse_up_to(s, u32::MAX as u64) {
        Some(n) => Some(n as u32),
        None => None,
    }
}

/// The decimal digits of `n`.
pub fn decimal_of(n: u32) -> (r: Vec<char>)
    ensures
        r@ == decimal(n as nat),
    decreases n,
{
    if n < 10 {
        let mut out: Vec<char> = Vec::new();
        out.push((48u8 + n as u8) as char);
        assert(out@ == decimal(n as nat));
        out
    } else {
        let mut out: Vec<char> = decimal_of(n / 10);
        out.push((48u8 + (n % 10) as u8) as char);
        out
    }
}

} // verus!
