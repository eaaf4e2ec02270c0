//! Lines of output: a sample as JSON, or a short record where it would be too long.

use crate::text;
use crate::text::{append, chars_of, decimal_of, string_of};
use vstd::prelude::*;

verus! {

/// The most bytes that a line of output has.
pub const OUTPUT_LINE_LIMIT: usize = 524288;

/// `serde_json::Value`, a JSON value. See [`json`] for what one holds.
#[verifier::external_type_specification]
#[verifier::external_body]
pub struct ExValue(serde_json::Value);

/// `serde_json::Number`, a JSON number. See [`number`] for what one holds.
#[verifier::external_type_specification]
#[verifier::external_body]
pub struct ExNumber(serde_json::Number);

/// `serde_json::Map`, the members of a JSON object. See [`members`] for what one holds.
#[verifier::external_type_specification]
#[verifier::external_body]
#[verifier::reject_recursive_types(K)]
#[verifier::reject_recursive_types(V)]
pub struct ExMembers<K, V>(serde_json::Map<K, V>);

/// `serde_json::Error`, the reason why a value could not be written.
#[verifier::external_type_specification]
#[verifier::external_body]
pub struct ExError(serde_json::Error);

/// A JSON number: a whole one, or the bits of a double-precision one.
pub enum NumberView {
    Whole(u64),
    Negative(i64),
    Float(u64),
}

/// A JSON value.
pub enum JsonView {
    Null,
    Flag(bool),
    Number(NumberView),
    Text(Seq<char>),
    List(Seq<JsonView>),
    Object(Map<Seq<char>, JsonView>),
}

/// What a `serde_json::Number` holds.
pub uninterp spec fn number(n: serde_json::Number) -> NumberView;

/// What a `serde_json::Value` holds.
pub uninterp spec fn json(value: serde_json::Value) -> JsonView;

/// What a `serde_json::Map` holds.
pub uninterp spec fn members(m: serde_json::Map<String, serde_json::Value>) -> Map<
    Seq<char>,
    JsonView,
>;

/// The text that `serde_json::to_string` writes for a value.
pub uninterp spec fn json_text(j: JsonView) -> Seq<char>;

/// Bytes that suffice for the text `s` in quotes: no character takes more than the six of
/// an escape.
pub open spec fn quoted_room(s: Seq<char>) -> int {
    2 + 6 * s.len() as int
}

/// Whether `room` bytes suffice for `j` for the plain reason that every item of a list,
/// and every member of an object, has room in an even share of them.
pub open spec fn has_room(j: JsonView, room: int) -> bool
    decreases j,
{
    match j {
        JsonView::Null => room >= 4,
        JsonView::Flag(_) => room >= 5,
        JsonView::Number(_) => room >= 24,
        JsonView::Text(s) => room >= quoted_room(s),
        JsonView::List(items) => room >= 2 && forall|i: int|
            0 <= i < items.len() ==> has_room(
                #[trigger] items[i],
                (room - 2) / (items.len() as int) - 1,
            ),
        JsonView::Object(m) => room >= 2 && m.dom().finite() && forall|k: Seq<char>| #[trigger]
            m.contains_key(k) ==> has_room(
                m[k],
                (room - 2) / (m.len() as int) - quoted_room(k) - 2,
            ),
    }
}

/// Whether no line feed is in `s`.
pub open spec fn is_one_line(s: Seq<char>) -> bool {
    forall|i: int| 0 <= i < s.len() ==> #[trigger] s[i] != '\n'
}

/// `Number::from` makes a whole number of a `u64`.
#[verifier::external_body]
fn whole_number(n: u64) -> (r: serde_json::Number)
    ensures
        number(r) == NumberView::Whole(n),
{
    serde_json::Number::from(n)
}

/// `Value::from` makes a JSON number of a number, and `null` of none.
#[verifier::external_body]
fn number_value(n: Option<serde_json::Number>) -> (r: serde_json::Value)
    ensures
        json(r) == (match n {
            Some(n) => JsonView::Number(number(n)),
            None => JsonView::Null,
        }),
{
    serde_json::Value::from(n)
}

/// `Value::from` makes a JSON string of a `String`.
#[verifier::external_body]
fn text_value(s: String) -> (r: serde_json::Value)
    ensures
        json(r) == JsonView::Text(s@),
{
    serde_json::Value::from(s)
}

/// `Value::from` makes a JSON list of a `Vec`, with the same items in the same order.
#[verifier::external_body]
fn list_value(items: Vec<serde_json::Value>) -> (r: serde_json::Value)
    ensures
        json(r) == JsonView::List(items@.map_values(|v: serde_json::Value| json(v))),
{
    serde_json::Value::from(items)
}

/// `Value::from` makes a JSON object of its members.
#[verifier::external_body]
fn object_value(m: serde_json::Map<String, serde_json::Value>) -> (r: serde_json::Value)
    ensures
        json(r) == JsonView::Object(members(m)),
{
    serde_json::Value::from(m)
}

/// `Map::new` makes a map without members.
#[verifier::external_body]
fn no_members() -> (r: serde_json::Map<String, serde_json::Value>)
    ensures
        members(r) == (Map::<Seq<char>, JsonView>::empty()),
{
    serde_json::Map::new()
}

/// `Map::insert` gives `key` the value `value`, in place of any that it had.
#[verifier::external_body]
fn put(
    m: &mut serde_json::Map<String, serde_json::Value>,
    key: String,
    value: serde_json::Value,
)
    ensures
        members(*final(m)) == members(*old(m)).insert(key@, json(value)),
{
    m.insert(key, value);
}

/// `serde_json::to_string` writes a value as text, which depends on what the value holds
/// and on nothing else: the members of an object stand in the order of their keys. It
/// fails only for types whose serialization can fail and for maps with keys that are no
/// strings, neither of which a `Value` has. No number takes more than 24 bytes, no
/// character of a string more than six, and nothing but the brackets, the commas and the
/// colons is added. A line feed in a string is written as an escape, and none is added.
#[verifier::external_body]
fn render(value: &serde_json::Value) -> (r: Result<String, serde_json::Error>)
    ensures
        r is Ok,
        r->Ok_0@ == json_text(json(*value)),
        forall|room: int| #[trigger]
            has_room(json(*value), room) ==> text::utf8(r->Ok_0@).len() <= room,
        is_one_line(r->Ok_0@),
{
    serde_json::to_string(value)
}

/// Whether a line has no more bytes than a line of output may have.
pub open spec fn is_short(line: Seq<char>) -> bool {
    text::utf8(line).len() <= OUTPUT_LINE_LIMIT
}

/// A number, or `null` for none.
pub open spec fn number_or_null(n: Option<serde_json::Number>) -> JsonView {
    match n {
        Some(n) => JsonView::Number(number(n)),
        None => JsonView::Null,
    }
}

/// What is said in place of a sample that is too long.
pub open spec fn too_long() -> Seq<char> {
    "sample exceeded "@ + text::decimal(OUTPUT_LINE_LIMIT as nat) + "-byte output limit"@
}

/// The record that stands for a sample that is too long.
pub open spec fn error_record(
    seq: u64,
    now: JsonView,
    elapsed: JsonView,
    interval: JsonView,
) -> JsonView {
    JsonView::Object(
        map![
            "seq"@ => JsonView::Number(NumberView::Whole(seq)),
            "t"@ => now,
            "elapsed"@ => elapsed,
            "interval"@ => interval,
            "errors"@ => JsonView::List(seq![JsonView::Text(too_long())]),
        ],
    )
}

proof fn lemma_error_record_has_room(
    seq: u64,
    now: Option<serde_json::Number>,
    elapsed: Option<serde_json::Number>,
    interval: Option<serde_json::Number>,
)
    ensures
        has_room(
            error_record(
                seq,
                number_or_null(now),
                number_or_null(elapsed),
                number_or_null(interval),
            ),
            OUTPUT_LINE_LIMIT as int,
        ),
{
    let j = error_record(
        seq,
        number_or_null(now),
        number_or_null(elapsed),
        number_or_null(interval),
    );
    let m = j->Object_0;
    reveal_strlit("seq");
    reveal_strlit("t");
    reveal_strlit("elapsed");
    reveal_strlit("interval");
    reveal_strlit("errors");
    reveal_strlit("sample exceeded ");
    reveal_strlit("-byte output limit");
    // no two keys have the same length
    assert("seq"@.len() == 3 && "t"@.len() == 1 && "elapsed"@.len() == 7 && "interval"@.len() == 8
        && "errors"@.len() == 6);
    assert(m.len() == 5);
    assert(text::decimal(OUTPUT_LINE_LIMIT as nat).len() == 6) by {
        reveal_with_fuel(text::decimal, 7);
    }
    let share = (OUTPUT_LINE_LIMIT - 2) / 5;
    assert forall|k: Seq<char>| #[trigger] m.contains_key(k) implies has_room(
        m[k],
        share - quoted_room(k) - 2,
    ) by {
        assert(k.len() <= 8);
        if k == "errors"@ {
            let items = seq![JsonView::Text(too_long())];
            assert(m[k] == JsonView::List(items));
            let room = share - quoted_room(k) - 2;
            assert((room - 2) / 1 - 1 == room - 3);
            assert(has_room(items[0], room - 3));
        }
    }
}

/// The record that stands for a sample that is too long.
pub fn make_error_record(
    seq: u64,
    now: Option<serde_json::Number>,
    elapsed: Option<serde_json::Number>,
    interval: Option<serde_json::Number>,
) -> (r: serde_json::Value)
    ensures
        json(r) == error_record(
            seq,
            number_or_null(now),
            number_or_null(elapsed),
            number_or_null(interval),
        ),
{
    let mut message: Vec<char> = chars_of("sample exceeded ");
    append(&mut message, decimal_of(OUTPUT_LINE_LIMIT as u32).as_slice());
    append(&mut message, chars_of("-byte output limit").as_slice());
    let mut errors: Vec<serde_json::Value> = Vec::new();
    errors.push(text_value(string_of(message.as_slice())));
    assert(errors@.map_values(|v: serde_json::Value| json(v)) == seq![JsonView::Text(too_long())]);
    let mut m: serde_json::Map<String, serde_json::Value> = no_members();
    put(&mut m, "seq".to_owned(), number_value(Some(whole_number(seq))));
    put(&mut m, "t".to_owned(), number_value(now));
    put(&mut m, "elapsed".to_owned(), number_value(elapsed));
    put(&mut m, "interval".to_owned(), number_value(interval));
    put(&mut m, "errors".to_owned(), list_value(errors));
    object_value(m)
}

/// The line for a sample: `line`, or the record that stands for it where that is too
/// long.
pub fn bounded_line(
    line: String,
    seq: u64,
    now: Option<serde_json::Number>,
    elapsed: Option<serde_json::Number>,
    interval: Option<serde_json::Number>,
) -> (r: Option<String>)
    ensures
        text::viewed(r) == Some(
            if is_short(line@) {
                line@
            } else {
                json_text(
                    error_record(
                        seq,
                        number_or_null(now),
                        number_or_null(elapsed),
                        number_or_null(interval),
                    ),
                )
            },
        ),
        r is Some && is_short(r->0@),
        is_one_line(line@) ==> is_one_line(r->0@),
{
    if line.as_str().as_bytes().len() <= OUTPUT_LINE_LIMIT {
        return Some(line);
    }
    proof {
        lemma_error_record_has_room(seq, now, elapsed, interval);
    }
    match render(&make_error_record(seq, now, elapsed, interval)) {
        Ok(record) => Some(record),
        Err(_) => None,
    }
}

/// The line for the sample `payload`: its text, or a record of the error where that is
/// too long. It has never more bytes than the limit, and never a line feed in it.
pub fn bounded_output_line(
    payload: &serde_json::Value,
    seq: u64,
    now: Option<serde_json::Number>,
    elapsed: Option<serde_json::Number>,
    interval: Option<serde_json::Number>,
) -> (r: Option<String>)
    ensures
        text::viewed(r) == Some(
            if is_short(json_text(json(*payload))) {
                json_text(json(*payload))
            } else {
                json_text(
                    error_record(
                        seq,
                        number_or_null(now),
                        number_or_null(elapsed),
                        number_or_null(interval),
                    ),
                )
            },
        ),
        r is Some && is_short(r->0@) && is_one_line(r->0@),
{
    match render(payload) {
        Ok(line) => bounded_line(line, seq, now, elapsed, interval),
        Err(_) => None,
    }
}

} // verus!
