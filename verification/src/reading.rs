//! What becomes of text that is cut up and put together.

use crate::names;
use crate::text;
use vstd::prelude::*;

verus! {

/// Whether no character of `s` is white space.
pub open spec fn has_no_space(s: Seq<char>) -> bool {
    forall|i: int| 0 <= i < s.len() ==> !text::is_white(#[trigger] s[i])
}

/// Whether every character of `s` is white space.
pub open spec fn is_space(s: Seq<char>) -> bool {
    forall|i: int| 0 <= i < s.len() ==> text::is_white(#[trigger] s[i])
}

/// White space is a tab, a line feed or another of the five controls from there, a space,
/// a next line, and what Unicode has besides.
pub proof fn white_space_has_its_codes(c: char)
    ensures
        text::is_white(c) <==> ({
            let code = c as int;
            ||| 9 <= code <= 13
            ||| code == 32
            ||| code == 133
            ||| code == 160
            ||| code == 5760
            ||| 8192 <= code <= 8202
            ||| 8232 <= code <= 8233
            ||| code == 8239
            ||| code == 8287
            ||| code == 12288
        }),
{
}

proof fn lemma_words_of_word(s: Seq<char>, n: int)
    requires
        0 < n <= s.len(),
        has_no_space(s.take(n)),
        n == s.len() || text::is_white(s[n]),
    ensures
        text::words(s) == seq![s.take(n)] + text::words(s.skip(n)),
{
    assert forall|i: int| 0 <= i < n implies text::not_white()(#[trigger] s[i]) by {
        assert(s.take(n)[i] == s[i]);
    }
    text::lemma_span(s, text::not_white(), n);
    assert(s.take(n)[0] == s[0]);
}

/// The words before a white space and those after it are the words of the whole. A text
/// without white space is one word, and an empty one is none.
pub proof fn words_stand_between_white_space(a: Seq<char>, c: char, b: Seq<char>)
    ensures
        text::is_white(c) ==> text::words(a.push(c) + b) == text::words(a) + text::words(b),
        a.len() > 0 && has_no_space(a) ==> text::words(a) == seq![a],
        a.len() == 0 ==> text::words(a).len() == 0,
    decreases a.len(),
{
    let s = a.push(c) + b;
    if a.len() > 0 && has_no_space(a) {
        assert(a.take(a.len() as int) == a);
        lemma_words_of_word(a, a.len() as int);
        assert(a.skip(a.len() as int).len() == 0);
        assert(text::words(a) == seq![a]);
    }
    if text::is_white(c) {
        if a.len() == 0 {
            assert(s.skip(1) == b);
            assert(text::words(a) + text::words(b) == text::words(b));
        } else if text::is_white(a[0]) {
            words_stand_between_white_space(a.skip(1), c, b);
            assert(s.skip(1) == a.skip(1).push(c) + b);
        } else {
            let n = text::span(a, text::not_white()) as int;
            text::lemma_span_holds(a, text::not_white());
            assert forall|i: int| 0 <= i < n implies !text::is_white(#[trigger] a.take(n)[i]) by {
                assert(text::not_white()(a[i]));
            }
            assert(n > 0) by {
                assert(text::not_white()(a[0]));
            }
            assert(n < a.len() ==> !text::not_white()(a[n]));
            lemma_words_of_word(a, n);
            assert(s.take(n) == a.take(n));
            assert(s[n] == a.push(c)[n]);
            lemma_words_of_word(s, n);
            words_stand_between_white_space(a.skip(n), c, b);
            assert(s.skip(n) == a.skip(n).push(c) + b);
            assert(seq![a.take(n)] + (text::words(a.skip(n)) + text::words(b)) == (seq![a.take(n)]
                + text::words(a.skip(n))) + text::words(b));
        }
    }
}

proof fn lemma_find(s: Seq<char>, c: char, n: int)
    requires
        0 <= n <= s.len(),
        names::lacks(s.take(n), c),
        n == s.len() || s[n] == c,
    ensures
        text::find(s, c) == n,
{
    assert forall|i: int| 0 <= i < n implies text::other_than(c)(#[trigger] s[i]) by {
        assert(s.take(n)[i] == s[i]);
    }
    text::lemma_span(s, text::other_than(c), n);
}

/// The fields before a separator and those after it are the fields of the whole. A text
/// without a separator is one field, even an empty one.
pub proof fn fields_stand_between_separators(a: Seq<char>, c: char, b: Seq<char>)
    ensures
        text::split_on(a.push(c) + b, c) == text::split_on(a, c) + text::split_on(b, c),
        names::lacks(a, c) ==> text::split_on(a, c) == seq![a],
    decreases a.len(),
{
    let s = a.push(c) + b;
    let n = text::find(a, c) as int;
    text::lemma_span_holds(a, text::other_than(c));
    assert forall|i: int| 0 <= i < n implies #[trigger] a.take(n)[i] != c by {
        assert(text::other_than(c)(a[i]));
    }
    assert(s.take(n) == a.take(n));
    if n < a.len() {
        assert(!text::other_than(c)(a[n]));
        assert(s[n] == a[n]);
    } else {
        assert(s[n] == c);
    }
    lemma_find(s, c, n);
    if names::lacks(a, c) {
        assert(a.take(a.len() as int) == a);
        lemma_find(a, c, a.len() as int);
    }
    if n < a.len() {
        fields_stand_between_separators(a.skip(n + 1), c, b);
        assert(s.skip(n + 1) == a.skip(n + 1).push(c) + b);
        assert(seq![a.take(n)] + (text::split_on(a.skip(n + 1), c) + text::split_on(b, c)) == (
        seq![a.take(n)] + text::split_on(a.skip(n + 1), c)) + text::split_on(b, c));
    } else {
        assert(a.take(n) == a);
        assert(s.skip(n + 1) == b);
    }
}

/// Texts that are joined with a separator, none of them holding it, are the fields of what
/// comes out.
pub proof fn joined_fields_are_split(parts: Seq<Seq<char>>, c: char)
    requires
        parts.len() > 0,
        forall|i: int| 0 <= i < parts.len() ==> names::lacks(#[trigger] parts[i], c),
    ensures
        text::split_on(text::join(parts, c), c) == parts,
    decreases parts.len(),
{
    let last = parts.last();
    assert(last == parts[parts.len() - 1]);
    fields_stand_between_separators(last, c, seq![]);
    if parts.len() == 1 {
        assert(parts == seq![parts[0]]);
    } else {
        let rest = parts.drop_last();
        assert forall|i: int| 0 <= i < rest.len() implies names::lacks(#[trigger] rest[i], c) by {
            assert(rest[i] == parts[i]);
        }
        joined_fields_are_split(rest, c);
        fields_stand_between_separators(text::join(rest, c), c, last);
        assert(rest + seq![last] == parts);
    }
}

/// A line ends at a line feed, which a carriage return may stand before; what follows are
/// further lines. A text that does not end so is a line too, and an empty one is none.
pub proof fn lines_end_at_line_feeds(a: Seq<char>, b: Seq<char>)
    requires
        names::lacks(a, '\n'),
    ensures
        a.len() == 0 || a.last() != '\r' ==> text::lines(a.push('\n') + b) == seq![a]
            + text::lines(b),
        text::lines(a.push('\r').push('\n') + b) == seq![a] + text::lines(b),
        a.len() > 0 ==> text::lines(a) == seq![a],
        a.len() == 0 ==> text::lines(a).len() == 0,
{
    let s = a.push('\n') + b;
    let n = a.len() as int;
    assert(a.take(n) == a);
    lemma_find(a, '\n', n);
    assert(s.take(n) == a);
    lemma_find(s, '\n', n);
    assert(s.skip(n + 1) == b);
    let t = a.push('\r').push('\n') + b;
    let with = a.push('\r');
    assert(t.take(n + 1) == with);
    assert(names::lacks(with, '\n'));
    lemma_find(t, '\n', n + 1);
    assert(t.skip(n + 2) == b);
    assert(with.drop_last() == a);
}

/// Trimming takes the white space at both ends, and what begins and ends with something
/// else stays whole.
pub proof fn trimming_takes_the_space_around(before: Seq<char>, s: Seq<char>, after: Seq<char>)
    requires
        is_space(before),
        is_space(after),
        s.len() > 0 ==> !text::is_white(s[0]) && !text::is_white(s.last()),
        s.len() == 0 ==> after.len() == 0,
    ensures
        text::trim(before + s + after) == s,
{
    lemma_trim_start(before, s + after);
    assert(before + s + after == before + (s + after));
    if s.len() > 0 {
        assert((s + after)[0] == s[0]);
        lemma_trim_end(s, after);
    } else {
        assert(s + after == s);
    }
}

proof fn lemma_trim_start(before: Seq<char>, s: Seq<char>)
    requires
        is_space(before),
        s.len() > 0 ==> !text::is_white(s[0]),
    ensures
        text::trim_start(before + s) == s,
    decreases before.len(),
{
    let whole = before + s;
    if before.len() > 0 {
        assert(whole[0] == before[0]);
        lemma_trim_start(before.skip(1), s);
        assert(whole.skip(1) == before.skip(1) + s);
    } else {
        assert(whole == s);
    }
}

proof fn lemma_trim_end(s: Seq<char>, after: Seq<char>)
    requires
        is_space(after),
        s.len() > 0,
        !text::is_white(s.last()),
    ensures
        text::trim_end(s + after) == s,
    decreases after.len(),
{
    let whole = s + after;
    if after.len() > 0 {
        assert(whole.last() == after[after.len() - 1]);
        lemma_trim_end(s, after.drop_last());
        assert(whole.drop_last() == s + after.drop_last());
    } else {
        assert(whole == s);
    }
}

/// A beginning or an end is found exactly where the text is made of it and a rest, and the
/// rest is what is left when it is taken off.
pub proof fn ends_are_taken_off(s: Seq<char>, p: Seq<char>, rest: Seq<char>)
    ensures
        text::strip_prefix(p + rest, p) == Some(rest),
        text::strip_suffix(rest + p, p) == Some(rest),
        text::starts_with(p + rest, p) && text::ends_with(rest + p, p),
        text::strip_prefix(s, p) matches Some(r) ==> s == p + r,
        text::strip_suffix(s, p) matches Some(r) ==> s == r + p,
        text::starts_with(s, p) <==> text::strip_prefix(s, p) is Some,
        text::ends_with(s, p) <==> text::strip_suffix(s, p) is Some,
{
    assert((p + rest).take(p.len() as int) == p);
    assert((p + rest).skip(p.len() as int) == rest);
    let whole = rest + p;
    assert(whole.skip(whole.len() - p.len()) == p);
    assert(whole.take(whole.len() - p.len()) == rest);
    if text::starts_with(s, p) {
        assert(s == p + s.skip(p.len() as int));
    }
    if text::ends_with(s, p) {
        assert(s == s.take(s.len() - p.len()) + p);
    }
}

/// A text that is too long loses its end, and nothing else.
pub proof fn long_texts_lose_their_end(a: Seq<char>, b: Seq<char>)
    ensures
        text::bounded(a + b, a.len() as int) == a,
        forall|limit: int| a.len() <= limit ==> #[trigger] text::bounded(a, limit) == a,
{
    assert((a + b).take(a.len() as int) == a);
    if b.len() == 0 {
        assert(a + b == a);
    }
}

/// What follows the last separator is found, and where it stands; a text without one is
/// left whole.
pub proof fn last_separator_is_found(a: Seq<char>, c: char, b: Seq<char>)
    requires
        names::lacks(b, c),
    ensures
        text::after_last(a.push(c) + b, c) == b,
        text::find_last(a.push(c) + b, c) == a.len(),
        text::after_last(b, c) == b,
        text::find_last(b, c) == -1,
    decreases a.len(),
{
    reveal_with_fuel(text::after_last, 2);
    let s = a.push(c) + b;
    assert(b.take(b.len() as int) == b);
    lemma_find(b, c, b.len() as int);
    let n = text::find(a, c) as int;
    text::lemma_span_holds(a, text::other_than(c));
    assert forall|i: int| 0 <= i < n implies #[trigger] s.take(n)[i] != c by {
        assert(text::other_than(c)(a[i]));
    }
    if n < a.len() {
        assert(!text::other_than(c)(a[n]));
        assert(s[n] == a[n]);
        lemma_find(s, c, n);
        last_separator_is_found(a.skip(n + 1), c, b);
        assert(s.skip(n + 1) == a.skip(n + 1).push(c) + b);
    } else {
        assert(s[n] == c);
        lemma_find(s, c, n);
        assert(s.skip(n + 1) == b);
    }
}

/// Where a separator last stands is a place in the text, or before it.
pub proof fn last_separator_is_in(s: Seq<char>, c: char)
    ensures
        -1 <= text::find_last(s, c) < s.len(),
        text::find_last(s, c) >= 0 ==> s[text::find_last(s, c)] == c,
    decreases s.len(),
{
    let n = text::find(s, c) as int;
    text::lemma_span_holds(s, text::other_than(c));
    if n < s.len() {
        let rest = s.skip(n + 1);
        last_separator_is_in(rest, c);
        assert(!text::other_than(c)(s[n]));
        if text::find_last(rest, c) >= 0 {
            assert(rest[text::find_last(rest, c)] == s[text::find_last(s, c)]);
        }
    }
}

/// The first separator is found.
pub proof fn first_separator_is_found(a: Seq<char>, c: char, b: Seq<char>)
    requires
        names::lacks(a, c),
    ensures
        text::find(a.push(c) + b, c) == a.len(),
        text::find(a, c) == a.len(),
{
    let s = a.push(c) + b;
    assert(s.take(a.len() as int) == a);
    assert(a.take(a.len() as int) == a);
    lemma_find(s, c, a.len() as int);
    lemma_find(a, c, a.len() as int);
}

/// The digits of a number write it.
proof fn lemma_decimal(n: nat)
    ensures
        text::decimal(n).len() > 0,
        text::all_digits(text::decimal(n)),
        text::digits_value(text::decimal(n)) == n,
        n > 0 ==> text::decimal(n)[0] != '0',
    decreases n,
{
    reveal_with_fuel(text::digits_value, 2);
    let s = text::decimal(n);
    if n < 10 {
        assert(s.drop_last().len() == 0);
        assert(s.last() as u32 - '0' as u32 == n);
    } else {
        lemma_decimal(n / 10);
        let rest = text::decimal(n / 10);
        assert(s.drop_last() == rest);
        assert(s.last() as u32 - '0' as u32 == n % 10);
        assert forall|i: int| 0 <= i < s.len() implies text::is_digit(#[trigger] s[i]) by {
            if i < rest.len() {
                assert(s[i] == rest[i]);
            }
        }
        assert(s[0] == rest[0]);
    }
}

/// A number that is written in digits is read as that number, whether or not a plus sign
/// stands before it, unless it is too large. It is written without needless zeros.
pub proof fn written_numbers_are_read_back(n: nat, max: int)
    ensures
        text::number(text::decimal(n), max) == (if n <= max {
            Some(n)
        } else {
            None
        }),
        text::number(seq!['+'] + text::decimal(n), max) == text::number(text::decimal(n), max),
        n > 0 ==> text::decimal(n)[0] != '0',
        text::decimal(n).len() > 0,
{
    lemma_decimal(n);
    let s = text::decimal(n);
    assert(text::is_digit(s[0]));
    assert((seq!['+'] + s).skip(1) == s);
}

proof fn lemma_leading_zero(s: Seq<char>)
    ensures
        text::digits_value(seq!['0'] + s) == text::digits_value(s),
    decreases s.len(),
{
    reveal_with_fuel(text::digits_value, 2);
    let t = seq!['0'] + s;
    if s.len() > 0 {
        lemma_leading_zero(s.drop_last());
        assert(t.drop_last() == seq!['0'] + s.drop_last());
        assert(t.last() == s.last());
    } else {
        assert(t.drop_last().len() == 0);
    }
}

/// What is read as a number is made of digits, with at most a plus sign before them; zeros
/// before the digits do not count, and an empty text is no number.
pub proof fn only_digits_are_numbers(s: Seq<char>, max: int)
    ensures
        s.len() == 0 ==> text::number(s, max) is None,
        text::number(s, max) is Some ==> (forall|i: int|
            1 <= i < s.len() ==> '0' <= #[trigger] s[i] <= '9') && ('0' <= s[0] <= '9' || s[0]
            == '+' && s.len() > 1) && text::number(s, max)->0 <= max,
        s.len() > 0 && s[0] != '+' ==> text::number(seq!['0'] + s, max) == text::number(s, max),
{
    let digits = text::without_plus(s);
    if text::number(s, max) is Some {
        assert forall|i: int| 1 <= i < s.len() implies '0' <= #[trigger] s[i] <= '9' by {
            assert(text::is_digit(digits[i - (s.len() - digits.len())]));
        }
        assert(text::is_digit(digits[0]));
    }
    if s.len() > 0 && s[0] != '+' {
        lemma_leading_zero(s);
        let t = seq!['0'] + s;
        assert(text::without_plus(t) == t);
        if text::all_digits(s) {
            assert(text::all_digits(t));
        }
        if text::all_digits(t) {
            assert forall|i: int| 0 <= i < s.len() implies text::is_digit(#[trigger] s[i]) by {
                assert(t[i + 1] == s[i]);
            }
        }
    }
}

/// Replacing goes to the first place where the text stands, puts the other in its place
/// and goes on behind it; where it stands nowhere nothing changes.
pub proof fn replacing_goes_from_place_to_place(
    a: Seq<char>,
    from: Seq<char>,
    to: Seq<char>,
    b: Seq<char>,
)
    requires
        from.len() > 0,
        forall|i: int|
            0 <= i < a.len() ==> !text::starts_with(#[trigger] (a + from + b).skip(i), from),
    ensures
        text::replace(a + from + b, from, to) == a + to + text::replace(b, from, to),
    decreases a.len(),
{
    let s = a + from + b;
    if a.len() == 0 {
        assert(s.take(from.len() as int) == from);
        assert(s.skip(from.len() as int) == b);
        assert(to + text::replace(b, from, to) == a + to + text::replace(b, from, to));
    } else {
        assert(s.skip(0) == s);
        assert(!text::starts_with(s.skip(0), from));
        let rest = a.skip(1);
        assert(s.skip(1) == rest + from + b);
        assert forall|i: int| 0 <= i < rest.len() implies !text::starts_with(
            #[trigger] (rest + from + b).skip(i),
            from,
        ) by {
            assert((rest + from + b).skip(i) == s.skip(i + 1));
        }
        replacing_goes_from_place_to_place(rest, from, to, b);
        assert(seq![s[0]] + (rest + to + text::replace(b, from, to)) == a + to + text::replace(
            b,
            from,
            to,
        ));
    }
}

/// Replacing a text that stands nowhere changes nothing.
pub proof fn replacing_nothing_changes_nothing(s: Seq<char>, from: Seq<char>, to: Seq<char>)
    requires
        forall|i: int| 0 <= i < s.len() ==> !text::starts_with(#[trigger] s.skip(i), from),
    ensures
        text::replace(s, from, to) == s,
    decreases s.len(),
{
    if s.len() > 0 {
        assert(s.skip(0) == s);
        let rest = s.skip(1);
        assert forall|i: int| 0 <= i < rest.len() implies !text::starts_with(
            #[trigger] rest.skip(i),
            from,
        ) by {
            assert(rest.skip(i) == s.skip(i + 1));
        }
        replacing_nothing_changes_nothing(rest, from, to);
        assert(seq![s[0]] + rest == s);
    }
}

/// All ends of a kind are taken off, as many as there are.
pub proof fn all_ends_are_taken_off(s: Seq<char>, end: Seq<char>)
    ensures
        end.len() > 0 ==> text::strip_all(s + end, end) == text::strip_all(s, end),
        !text::ends_with(s, end) ==> text::strip_all(s, end) == s,
{
    if end.len() > 0 {
        ends_are_taken_off(s + end, end, s);
    }
}

/// One text comes before another exactly where it is a beginning of it, or has the smaller
/// character at the first place where they differ.
pub proof fn texts_are_ordered_by_their_first_difference(a: Seq<char>, b: Seq<char>, k: int)
    requires
        0 <= k <= a.len(),
        k <= b.len(),
        a.take(k) == b.take(k),
        k < a.len() && k < b.len() ==> a[k] != b[k],
    ensures
        text::less(a, b) <==> k < b.len() && (k == a.len() || a[k] < b[k]),
    decreases k,
{
    if k > 0 {
        assert(a[0] == a.take(k)[0] && b[0] == b.take(k)[0]);
        let (x, y) = (a.skip(1), b.skip(1));
        assert(x.take(k - 1) == a.take(k).skip(1));
        assert(y.take(k - 1) == b.take(k).skip(1));
        if k < a.len() && k < b.len() {
            assert(x[k - 1] == a[k] && y[k - 1] == b[k]);
        }
        texts_are_ordered_by_their_first_difference(x, y, k - 1);
    }
}

} // verus!
