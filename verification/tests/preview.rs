use json_shape::json_value::JsonValue;
use json_shape::preview::truncate_json;

fn s(x: &str) -> String {
    x.to_string()
}

fn num(x: &str) -> JsonValue {
    JsonValue::Number(s(x))
}

#[test]
fn depth_zero_summarises_shapes() {
    assert_eq!(truncate_json(&JsonValue::Null, 0), JsonValue::String(s("null")));
    assert_eq!(truncate_json(&JsonValue::Bool(true), 0), JsonValue::String(s("bool")));
    assert_eq!(truncate_json(&num("7"), 0), JsonValue::String(s("number")));
    assert_eq!(truncate_json(&JsonValue::String(s("x")), 0), JsonValue::String(s("\"...\"")));
    assert_eq!(truncate_json(&JsonValue::Array(vec![]), 0), JsonValue::String(s("[...]")));
    assert_eq!(truncate_json(&JsonValue::Object(vec![]), 0), JsonValue::String(s("{...}")));
}

#[test]
fn scalars_survive_at_positive_depth() {
    assert_eq!(truncate_json(&num("7"), 1), num("7"));
    assert_eq!(truncate_json(&JsonValue::String(s("x")), 3), JsonValue::String(s("x")));
}

#[test]
fn long_array_keeps_first_element_and_a_marker() {
    let v = JsonValue::Array(vec![num("1"), num("2"), num("3")]);
    assert_eq!(
        truncate_json(&v, 1),
        JsonValue::Array(vec![
            JsonValue::String(s("number")),
            JsonValue::String(s("... (2 more)")),
        ])
    );
}

#[test]
fn singleton_array_keeps_no_marker() {
    let v = JsonValue::Array(vec![num("1")]);
    assert_eq!(truncate_json(&v, 1), JsonValue::Array(vec![JsonValue::String(s("number"))]));
}

#[test]
fn empty_array_stays_empty() {
    assert_eq!(truncate_json(&JsonValue::Array(vec![]), 2), JsonValue::Array(vec![]));
}

#[test]
fn object_keeps_keys_and_truncates_values() {
    let v = JsonValue::Object(vec![
        (s("a"), JsonValue::Object(vec![(s("deep"), num("1"))])),
        (s("b"), num("2")),
    ]);
    assert_eq!(
        truncate_json(&v, 1),
        JsonValue::Object(vec![
            (s("a"), JsonValue::String(s("{...}"))),
            (s("b"), JsonValue::String(s("number"))),
        ])
    );
}

#[test]
fn object_values_survive_at_depth_two() {
    let v = JsonValue::Object(vec![(s("a"), num("2"))]);
    assert_eq!(truncate_json(&v, 2), JsonValue::Object(vec![(s("a"), num("2"))]));
}

#[test]
fn marker_counts_above_ten() {
    let elems: Vec<JsonValue> = (0..13).map(|i| num(&i.to_string())).collect();
    let v = JsonValue::Array(elems);
    assert_eq!(
        truncate_json(&v, 1),
        JsonValue::Array(vec![
            JsonValue::String(s("number")),
            JsonValue::String(s("... (12 more)")),
        ])
    );
}
