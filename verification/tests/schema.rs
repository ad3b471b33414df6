use json_shape::json_type::JsonType;
use json_shape::json_value::JsonValue;
use json_shape::semilattice::JoinSemilattice;

fn s(x: &str) -> String {
    x.to_string()
}

fn num(x: &str) -> JsonValue {
    JsonValue::Number(s(x))
}

#[test]
fn infer_flat_object() {
    let v = JsonValue::Object(vec![(s("a"), num("1")), (s("b"), JsonValue::String(s("x")))]);
    let t = JsonType::infer(&v);
    assert_eq!(
        t,
        JsonType::Object(vec![(s("a"), JsonType::Number), (s("b"), JsonType::String)])
    );
}

#[test]
fn infer_object_sorts_keys() {
    let v = JsonValue::Object(vec![(s("b"), num("2")), (s("a"), JsonValue::Bool(true))]);
    let t = JsonType::infer(&v);
    assert_eq!(
        t,
        JsonType::Object(vec![(s("a"), JsonType::Bool), (s("b"), JsonType::Number)])
    );
}

#[test]
fn infer_object_duplicate_key_keeps_last() {
    let v = JsonValue::Object(vec![(s("a"), num("1")), (s("a"), JsonValue::Null)]);
    let t = JsonType::infer(&v);
    assert_eq!(t, JsonType::Object(vec![(s("a"), JsonType::Null)]));
}

#[test]
fn infer_mixed_array() {
    let v = JsonValue::Array(vec![num("1"), JsonValue::String(s("x"))]);
    let t = JsonType::infer(&v);
    assert_eq!(
        t,
        JsonType::Array(Box::new(JsonType::Union(vec![JsonType::Number, JsonType::String])))
    );
}

#[test]
fn infer_empty_array() {
    let v = JsonValue::Array(vec![]);
    assert_eq!(JsonType::infer(&v), JsonType::Array(Box::new(JsonType::Never)));
}

#[test]
fn infer_empty_object() {
    let v = JsonValue::Object(vec![]);
    assert_eq!(JsonType::infer(&v), JsonType::Object(vec![]));
}

#[test]
fn infer_scalars() {
    assert_eq!(JsonType::infer(&JsonValue::Null), JsonType::Null);
    assert_eq!(JsonType::infer(&JsonValue::Bool(false)), JsonType::Bool);
    assert_eq!(JsonType::infer(&num("3.5")), JsonType::Number);
    assert_eq!(JsonType::infer(&JsonValue::String(s(""))), JsonType::String);
}

#[test]
fn infer_nested() {
    let v = JsonValue::Object(vec![(
        s("outer"),
        JsonValue::Array(vec![JsonValue::Object(vec![(s("n"), num("7"))])]),
    )]);
    let t = JsonType::infer(&v);
    assert_eq!(
        t,
        JsonType::Object(vec![(
            s("outer"),
            JsonType::Array(Box::new(JsonType::Object(vec![(s("n"), JsonType::Number)])))
        )])
    );
}

#[test]
fn join_never_is_identity() {
    let samples = vec![
        JsonType::Null,
        JsonType::Bool,
        JsonType::Number,
        JsonType::String,
        JsonType::Array(Box::new(JsonType::Number)),
        JsonType::Object(vec![(s("a"), JsonType::Bool)]),
        JsonType::Union(vec![JsonType::Number, JsonType::String]),
    ];
    for x in samples {
        assert_eq!(JsonType::join(&JsonType::Never, &x), x);
        assert_eq!(JsonType::join(&x, &JsonType::Never), x);
    }
    assert_eq!(JsonType::join(&JsonType::Never, &JsonType::Never), JsonType::Never);
}

#[test]
fn join_is_idempotent() {
    let samples = vec![
        JsonType::Null,
        JsonType::Number,
        JsonType::Array(Box::new(JsonType::String)),
        JsonType::Object(vec![(s("a"), JsonType::Bool), (s("b"), JsonType::Number)]),
    ];
    for x in samples {
        assert_eq!(JsonType::join(&x, &x), x);
    }
}

#[test]
fn join_is_commutative() {
    let a = JsonType::Object(vec![(s("a"), JsonType::Number), (s("b"), JsonType::Bool)]);
    let b = JsonType::Object(vec![(s("b"), JsonType::String), (s("c"), JsonType::Null)]);
    assert_eq!(JsonType::join(&a, &b), JsonType::join(&b, &a));
    assert_eq!(
        JsonType::join(&JsonType::Bool, &JsonType::Number),
        JsonType::join(&JsonType::Number, &JsonType::Bool)
    );
}

#[test]
fn join_incompatible_scalars_makes_union() {
    let t = JsonType::join(&JsonType::String, &JsonType::Bool);
    assert_eq!(t, JsonType::Union(vec![JsonType::Bool, JsonType::String]));
}

#[test]
fn join_objects_joins_shared_fields() {
    let a = JsonType::Object(vec![(s("a"), JsonType::Number)]);
    let b = JsonType::Object(vec![(s("a"), JsonType::String), (s("b"), JsonType::Bool)]);
    let t = JsonType::join(&a, &b);
    assert_eq!(
        t,
        JsonType::Object(vec![
            (s("a"), JsonType::Union(vec![JsonType::Number, JsonType::String])),
            (s("b"), JsonType::Bool),
        ])
    );
}

#[test]
fn join_arrays_joins_elements() {
    let a = JsonType::Array(Box::new(JsonType::Number));
    let b = JsonType::Array(Box::new(JsonType::Null));
    assert_eq!(
        JsonType::join(&a, &b),
        JsonType::Array(Box::new(JsonType::Union(vec![JsonType::Null, JsonType::Number])))
    );
}

#[test]
fn join_union_with_compatible_member_merges() {
    let u = JsonType::Union(vec![JsonType::Number, JsonType::Array(Box::new(JsonType::Number))]);
    let x = JsonType::Array(Box::new(JsonType::String));
    let t = JsonType::join(&u, &x);
    assert_eq!(
        t,
        JsonType::Union(vec![
            JsonType::Number,
            JsonType::Array(Box::new(JsonType::Union(vec![JsonType::Number, JsonType::String]))),
        ])
    );
}

#[test]
fn unify_deduplicates() {
    let t = JsonType::unify(&[JsonType::Number, JsonType::Number, JsonType::String]);
    assert_eq!(t, JsonType::Union(vec![JsonType::Number, JsonType::String]));
}

#[test]
fn unify_is_order_independent() {
    let perms: Vec<Vec<JsonType>> = vec![
        vec![JsonType::Number, JsonType::String, JsonType::Bool],
        vec![JsonType::String, JsonType::Bool, JsonType::Number],
        vec![JsonType::Bool, JsonType::Number, JsonType::String],
        vec![JsonType::Number, JsonType::Bool, JsonType::String],
        vec![JsonType::String, JsonType::Number, JsonType::Bool],
        vec![JsonType::Bool, JsonType::String, JsonType::Number],
    ];
    let expected = JsonType::unify(&perms[0]);
    for p in &perms {
        assert_eq!(JsonType::unify(p), expected);
    }
}

#[test]
fn unify_order_independent_with_structures() {
    let a = JsonType::Array(Box::new(JsonType::Number));
    let b = JsonType::Object(vec![(s("k"), JsonType::Bool)]);
    let c = JsonType::Array(Box::new(JsonType::String));
    let one = JsonType::unify(&[a.clone(), b.clone(), c.clone()]);
    let two = JsonType::unify(&[c.clone(), a.clone(), b.clone()]);
    let three = JsonType::unify(&[b, c, a]);
    assert_eq!(one, two);
    assert_eq!(one, three);
}

#[test]
fn unify_empty_is_never() {
    assert_eq!(JsonType::unify(&[]), JsonType::Never);
}

#[test]
fn semilattice_trait_matches_inherent_operations() {
    let bottom: JsonType = <JsonType as JoinSemilattice>::bot();
    assert_eq!(bottom, JsonType::Never);
    let j = <JsonType as JoinSemilattice>::join(&JsonType::Number, &JsonType::Number);
    assert_eq!(j, JsonType::Number);
}

#[test]
fn pretty_json_scalars() {
    assert_eq!(JsonType::Never.to_pretty_json(), JsonValue::String(s("never")));
    assert_eq!(JsonType::Null.to_pretty_json(), JsonValue::String(s("null")));
    assert_eq!(JsonType::Bool.to_pretty_json(), JsonValue::String(s("bool")));
    assert_eq!(JsonType::Number.to_pretty_json(), JsonValue::String(s("number")));
    assert_eq!(JsonType::String.to_pretty_json(), JsonValue::String(s("string")));
}

#[test]
fn pretty_json_structures() {
    let t = JsonType::Object(vec![(
        s("xs"),
        JsonType::Array(Box::new(JsonType::Union(vec![JsonType::Number, JsonType::String]))),
    )]);
    let rendered = t.to_pretty_json();
    assert_eq!(
        rendered,
        JsonValue::Object(vec![(
            s("xs"),
            JsonValue::Array(vec![JsonValue::Object(vec![(
                s("union"),
                JsonValue::Array(vec![
                    JsonValue::String(s("number")),
                    JsonValue::String(s("string")),
                ])
            )])])
        )])
    );
}

#[test]
fn end_to_end_inference_then_render() {
    let v = JsonValue::Array(vec![num("1"), JsonValue::String(s("x"))]);
    let t = JsonType::infer(&v);
    let rendered = t.to_pretty_json();
    assert_eq!(
        rendered,
        JsonValue::Array(vec![JsonValue::Object(vec![(
            s("union"),
            JsonValue::Array(vec![JsonValue::String(s("number")), JsonValue::String(s("string"))])
        )])])
    );
}
