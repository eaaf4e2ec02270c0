//! Lines of output, with the JSON library linked.

use omastats_sampler::output::{
    bounded_line, bounded_output_line, make_error_record, OUTPUT_LINE_LIMIT,
};
use serde_json::{Number, Value};

fn one() -> Option<Number> {
    Number::from_f64(1.0)
}

fn blob(len: usize) -> Value {
    let mut map = serde_json::Map::new();
    map.insert("blob".to_string(), Value::from("x".repeat(len)));
    Value::Object(map)
}

#[test]
fn oversized_output_is_replaced_by_a_bounded_error_record() {
    let payload = blob(OUTPUT_LINE_LIMIT + 1);
    let line = bounded_output_line(&payload, 7, one(), one(), one()).unwrap();
    assert!(line.len() <= OUTPUT_LINE_LIMIT);
    assert!(line.contains("output limit"));
    assert_eq!(serde_json::from_str::<Value>(&line).unwrap()["seq"], 7);
}

#[test]
fn output_that_fits_is_written_as_it_is() {
    let payload = blob(3);
    let line = bounded_output_line(&payload, 7, one(), one(), one()).unwrap();
    assert_eq!(line, "{\"blob\":\"xxx\"}");
}

#[test]
fn output_may_be_as_long_as_the_limit_and_no_longer() {
    let around = "{\"blob\":\"\"}".len();
    let longest = blob(OUTPUT_LINE_LIMIT - around);
    let line = bounded_output_line(&longest, 0, one(), one(), one()).unwrap();
    assert_eq!(line.len(), OUTPUT_LINE_LIMIT);
    let longer = blob(OUTPUT_LINE_LIMIT - around + 1);
    let line = bounded_output_line(&longer, 0, one(), one(), one()).unwrap();
    assert!(line.len() < 200);
}

#[test]
fn error_records_hold_the_numbers_of_the_tick() {
    let record = make_error_record(
        u64::MAX,
        Number::from_f64(1788307200.25),
        Number::from_f64(0.125),
        None,
    );
    assert_eq!(record["seq"], u64::MAX);
    assert_eq!(record["t"], 1788307200.25);
    assert_eq!(record["elapsed"], 0.125);
    assert_eq!(record["interval"], Value::Null);
    let errors = record["errors"].as_array().unwrap();
    assert_eq!(errors.len(), 1);
    assert_eq!(errors[0], "sample exceeded 524288-byte output limit");
    assert_eq!(record.as_object().unwrap().len(), 5);
}

#[test]
fn long_lines_are_replaced_whatever_they_hold() {
    let kept = bounded_line("short".to_string(), 1, one(), one(), one());
    assert_eq!(kept.as_deref(), Some("short"));
    let wide = "\u{e9}".repeat(OUTPUT_LINE_LIMIT / 2 + 1);
    let line = bounded_line(wide, 1, one(), one(), one()).unwrap();
    assert_eq!(
        line,
        "{\"elapsed\":1.0,\"errors\":[\"sample exceeded 524288-byte output limit\"],\
         \"interval\":1.0,\"seq\":1,\"t\":1.0}"
    );
}

#[test]
fn numbers_take_no_more_room_than_is_kept_for_them() {
    let widest = [f64::MIN, f64::MIN_POSITIVE, -2.2250738585072014e-308, 5e-324, -1.0 / 3.0];
    for n in widest {
        assert!(serde_json::to_string(&Value::from(n)).unwrap().len() <= 24);
    }
    assert!(serde_json::to_string(&Value::from(u64::MAX)).unwrap().len() <= 24);
    assert!(serde_json::to_string(&Value::from(i64::MIN)).unwrap().len() <= 24);
    assert_eq!(serde_json::to_string(&Value::from("\u{1}")).unwrap().len(), 2 + 6);
}

#[test]
fn a_line_is_one_line_whatever_the_sample_holds() {
    let mut map = serde_json::Map::new();
    map.insert("a\nb".to_string(), Value::from("c\nd"));
    let line = bounded_output_line(&Value::Object(map), 0, one(), one(), one()).unwrap();
    assert_eq!(line, "{\"a\\nb\":\"c\\nd\"}");
}
