use json_shape::json_value::JsonValue;
use json_shape::transform::{Transform, TransformPipeline};

fn s(x: &str) -> String {
    x.to_string()
}

fn num(x: &str) -> JsonValue {
    JsonValue::Number(s(x))
}

#[test]
fn parse_simple_selector() {
    assert_eq!(Transform::from_jq(".name"), Ok(Transform::SelectField(s("name"))));
}

#[test]
fn parse_rejects_missing_dot() {
    assert_eq!(Transform::from_jq("name"), Err(s("Transform must start with '.'")));
}

#[test]
fn parse_rejects_empty_field() {
    assert_eq!(Transform::from_jq("."), Err(s("Field name cannot be empty")));
}

#[test]
fn parse_rejects_empty_input() {
    assert_eq!(Transform::from_jq(""), Err(s("Transform must start with '.'")));
    assert_eq!(Transform::from_jq("   "), Err(s("Transform must start with '.'")));
}

#[test]
fn parse_trims_whitespace() {
    assert_eq!(Transform::from_jq("  .name\t\n"), Ok(Transform::SelectField(s("name"))));
}

#[test]
fn render_selector() {
    assert_eq!(Transform::SelectField(s("field")).to_jq(), s(".field"));
}

#[test]
fn parse_render_roundtrip() {
    for name in ["name", "a", "weird name", "x1_y"] {
        let t = Transform::SelectField(s(name));
        assert_eq!(Transform::from_jq(&t.to_jq()), Ok(t));
    }
}

#[test]
fn apply_selects_field() {
    let t = Transform::SelectField(s("a"));
    let v = JsonValue::Object(vec![(s("a"), num("5")), (s("b"), JsonValue::Null)]);
    assert_eq!(t.apply(&v), Ok(num("5")));
}

#[test]
fn apply_missing_field_error() {
    let t = Transform::SelectField(s("zip"));
    let v = JsonValue::Object(vec![(s("a"), num("5"))]);
    assert_eq!(t.apply(&v), Err(s("Field 'zip' not found")));
}

#[test]
fn apply_non_object_error() {
    let t = Transform::SelectField(s("a"));
    assert_eq!(t.apply(&num("5")), Err(s("Cannot select field from non-object {value}")));
}

#[test]
fn empty_pipeline_is_identity() {
    let p = TransformPipeline::new();
    let samples = vec![
        JsonValue::Null,
        JsonValue::Bool(true),
        num("3"),
        JsonValue::String(s("hi")),
        JsonValue::Array(vec![num("1")]),
        JsonValue::Object(vec![(s("k"), JsonValue::Null)]),
    ];
    for v in samples {
        assert_eq!(p.apply(v.clone()), Ok(v));
    }
}

#[test]
fn empty_pipeline_renders_identity_filter() {
    assert_eq!(TransformPipeline::new().to_jq(), s("."));
}

#[test]
fn pipeline_renders_joined_steps() {
    let mut p = TransformPipeline::new();
    p.add(Transform::SelectField(s("a")));
    p.add(Transform::SelectField(s("b")));
    assert_eq!(p.to_jq(), s(".a | .b"));
}

#[test]
fn pipeline_threads_values() {
    let mut p = TransformPipeline::new();
    p.add(Transform::SelectField(s("a")));
    p.add(Transform::SelectField(s("b")));
    let v = JsonValue::Object(vec![(
        s("a"),
        JsonValue::Object(vec![(s("b"), num("5"))]),
    )]);
    assert_eq!(p.apply(v), Ok(num("5")));
}

#[test]
fn pipeline_fails_fast_with_first_error() {
    let mut p = TransformPipeline::new();
    p.add(Transform::SelectField(s("a")));
    p.add(Transform::SelectField(s("b")));
    let v = JsonValue::Object(vec![(s("a"), num("5"))]);
    assert_eq!(p.apply(v), Err(s("Cannot select field from non-object {value}")));
}

#[test]
fn pipeline_error_on_missing_first_field() {
    let mut p = TransformPipeline::new();
    p.add(Transform::SelectField(s("x")));
    p.add(Transform::SelectField(s("y")));
    let v = JsonValue::Object(vec![(s("a"), num("5"))]);
    assert_eq!(p.apply(v), Err(s("Field 'x' not found")));
}

#[test]
fn lookup_finds_first_occurrence() {
    let t = Transform::SelectField(s("a"));
    let v = JsonValue::Object(vec![(s("a"), num("1")), (s("a"), num("2"))]);
    assert_eq!(t.apply(&v), Ok(num("1")));
}
