use validated_records::record::{FnRules, Record, Unconstrained, Value};
use validated_records::reflect::{split_once, GetError, InsertionError, Separator};
use validated_records::schema::{FieldSpec, FieldType, RecordSpec};

fn scalar(name: &str, constraint: Option<&str>) -> FieldSpec {
    FieldSpec {
        name: name.to_string(),
        vis: String::new(),
        tags: Vec::new(),
        ty: FieldType::Scalar("i64".to_string()),
        constraint: constraint.map(|c| c.to_string()),
    }
}

fn nested(name: &str, record: RecordSpec, constraint: Option<&str>) -> FieldSpec {
    FieldSpec {
        name: name.to_string(),
        vis: String::new(),
        tags: Vec::new(),
        ty: FieldType::Nested(record),
        constraint: constraint.map(|c| c.to_string()),
    }
}

fn record(name: &str, fields: Vec<FieldSpec>) -> RecordSpec {
    RecordSpec { name: name.to_string(), tags: Vec::new(), recursive_tags: Vec::new(), fields }
}

/// `a: i64, b: { x: i64, y: i64 }`
fn outer() -> RecordSpec {
    record(
        "Outer",
        vec![
            scalar("a", None),
            nested("b", record("Inner", vec![scalar("x", Some("positive")), scalar("y", None)]), None),
        ],
    )
}

fn sample() -> Record<i64> {
    Record {
        fields: vec![
            Value::Scalar(1),
            Value::Nested(Record { fields: vec![Value::Scalar(2), Value::Scalar(3)] }),
        ],
    }
}

fn positive(constraint: &str, candidate: &Value<i64>) -> bool {
    match (constraint, candidate) {
        ("positive", Value::Scalar(x)) => *x > 0,
        _ => true,
    }
}

fn texts(keys: &[&str]) -> Vec<String> {
    keys.iter().map(|k| k.to_string()).collect()
}

#[test]
fn split_once_splits_at_the_first_separator() {
    assert_eq!(split_once("b.x.y", Separator::Dot), ("b", "x.y"));
    assert_eq!(split_once("b", Separator::Dot), ("b", ""));
    assert_eq!(split_once("b.", Separator::Dot), ("b", ""));
    assert_eq!(split_once(".b", Separator::Dot), ("", "b"));
    assert_eq!(split_once("", Separator::Dot), ("", ""));
    assert_eq!(split_once("b/x", Separator::Dot), ("b/x", ""));
    assert_eq!(split_once("b/x", Separator::Slash), ("b", "x"));
    assert_eq!(split_once("é/ü", Separator::Slash), ("é", "ü"));
}

#[test]
fn keys_lists_every_path_in_declaration_order() {
    assert_eq!(outer().keys(Separator::Dot), texts(&["a", "b", "b.x", "b.y"]));
    assert_eq!(outer().keys(Separator::Slash), texts(&["a", "b", "b/x", "b/y"]));
}

#[test]
fn keys_of_a_record_without_fields_is_empty() {
    assert_eq!(record("Empty", vec![]).keys(Separator::Dot), Vec::<String>::new());
}

#[test]
fn keys_go_as_deep_as_the_nesting() {
    let spec = record(
        "A",
        vec![nested("b", record("B", vec![nested("c", record("C", vec![scalar("d", None)]), None)]), None)],
    );
    assert_eq!(spec.keys(Separator::Slash), texts(&["b", "b/c", "b/c/d"]));
}

#[test]
fn insert_updates_only_the_addressed_field() {
    let spec = outer();
    let mut rec = sample();
    let out: Result<(), InsertionError<String>> =
        rec.insert(&spec, Separator::Dot, "b.x", |_ty: &FieldType| Ok(Value::Scalar(20)), &Unconstrained);
    assert_eq!(out, Ok(()));
    assert_eq!(
        rec,
        Record {
            fields: vec![
                Value::Scalar(1),
                Value::Nested(Record { fields: vec![Value::Scalar(20), Value::Scalar(3)] }),
            ],
        }
    );
}

#[test]
fn insert_fails_on_an_unknown_key() {
    let spec = outer();
    let mut rec = sample();
    let out: Result<(), InsertionError<String>> =
        rec.insert(&spec, Separator::Dot, "c", |_ty: &FieldType| Ok(Value::Scalar(20)), &Unconstrained);
    assert_eq!(out, Err(InsertionError::UnknownKey));
    assert_eq!(rec, sample());
    let out: Result<(), InsertionError<String>> =
        rec.insert(&spec, Separator::Dot, "b.z", |_ty: &FieldType| Ok(Value::Scalar(20)), &Unconstrained);
    assert_eq!(out, Err(InsertionError::UnknownKey));
    assert_eq!(rec, sample());
}

#[test]
fn insert_cannot_go_on_past_a_scalar() {
    let spec = outer();
    let mut rec = sample();
    let out: Result<(), InsertionError<String>> =
        rec.insert(&spec, Separator::Dot, "a.x", |_ty: &FieldType| Ok(Value::Scalar(20)), &Unconstrained);
    assert_eq!(out, Err(InsertionError::UnknownKey));
    assert_eq!(rec, sample());
}

#[test]
fn insert_does_not_ask_the_source_for_an_unknown_key() {
    let spec = outer();
    let mut rec = sample();
    let mut asked = false;
    let out: Result<(), InsertionError<String>> = rec.insert(
        &spec,
        Separator::Dot,
        "nowhere",
        |_ty: &FieldType| {
            asked = true;
            Ok(Value::Scalar(20))
        },
        &Unconstrained,
    );
    assert_eq!(out, Err(InsertionError::UnknownKey));
    assert!(!asked);
}

#[test]
fn insert_asks_the_source_for_the_type_of_the_field() {
    let spec = outer();
    let mut rec = sample();
    let mut asked_for = None;
    let out: Result<(), InsertionError<String>> = rec.insert(
        &spec,
        Separator::Dot,
        "b",
        |ty: &FieldType| {
            asked_for = Some(ty.clone());
            Ok(Value::Nested(Record { fields: vec![Value::Scalar(7), Value::Scalar(8)] }))
        },
        &Unconstrained,
    );
    assert_eq!(out, Ok(()));
    assert_eq!(
        asked_for,
        Some(FieldType::Nested(record("Inner", vec![scalar("x", Some("positive")), scalar("y", None)])))
    );
    assert_eq!(
        rec.fields[1],
        Value::Nested(Record { fields: vec![Value::Scalar(7), Value::Scalar(8)] })
    );
    assert_eq!(rec.fields[0], Value::Scalar(1));
}

#[test]
fn insert_passes_on_the_error_of_the_source() {
    let spec = outer();
    let mut rec = sample();
    let out = rec.insert(
        &spec,
        Separator::Dot,
        "a",
        |_ty: &FieldType| Err("not a number".to_string()),
        &Unconstrained,
    );
    assert_eq!(out, Err(InsertionError::Decoding("not a number".to_string())));
    assert_eq!(rec, sample());
}

#[test]
fn insert_reports_a_rejected_value_under_the_name_of_the_field() {
    let spec = outer();
    let mut rec = sample();
    let rules = FnRules::new(positive);
    let out: Result<(), InsertionError<String>> =
        rec.insert(&spec, Separator::Dot, "b.x", |_ty: &FieldType| Ok(Value::Scalar(-1)), &rules);
    assert_eq!(out, Err(InsertionError::PredicateRejected("x".to_string())));
    assert_eq!(rec, sample());
    let out: Result<(), InsertionError<String>> =
        rec.insert(&spec, Separator::Dot, "b.x", |_ty: &FieldType| Ok(Value::Scalar(5)), &rules);
    assert_eq!(out, Ok(()));
}

#[test]
fn insert_decoded_puts_an_unknown_key_before_a_failed_decoding() {
    let spec = outer();
    let mut rec = sample();
    let out = rec.insert_decoded(&spec, Separator::Dot, "c", Err("bad".to_string()), &Unconstrained);
    assert_eq!(out, Err(InsertionError::UnknownKey));
    let out = rec.insert_decoded(&spec, Separator::Dot, "a", Err("bad".to_string()), &Unconstrained);
    assert_eq!(out, Err(InsertionError::Decoding("bad".to_string())));
    let out: Result<(), InsertionError<String>> =
        rec.insert_decoded(&spec, Separator::Dot, "a", Ok(Value::Scalar(9)), &Unconstrained);
    assert_eq!(out, Ok(()));
    assert_eq!(rec.fields[0], Value::Scalar(9));
}

#[test]
fn get_reads_fields_at_any_depth() {
    let spec = outer();
    let rec = sample();
    assert_eq!(rec.get(&spec, Separator::Dot, "a"), Ok(&Value::Scalar(1)));
    assert_eq!(rec.get(&spec, Separator::Dot, "b.x"), Ok(&Value::Scalar(2)));
    assert_eq!(rec.get(&spec, Separator::Dot, "b.y"), Ok(&Value::Scalar(3)));
    assert_eq!(
        rec.get(&spec, Separator::Dot, "b"),
        Ok(&Value::Nested(Record { fields: vec![Value::Scalar(2), Value::Scalar(3)] }))
    );
    assert_eq!(rec.get(&spec, Separator::Slash, "b/y"), Ok(&Value::Scalar(3)));
}

#[test]
fn get_fails_where_no_field_matches() {
    let spec = outer();
    let rec = sample();
    assert_eq!(rec.get(&spec, Separator::Dot, "c"), Err(GetError::NoMatchingKey));
    assert_eq!(rec.get(&spec, Separator::Dot, "b.z"), Err(GetError::NoMatchingKey));
    assert_eq!(rec.get(&spec, Separator::Dot, "a.x"), Err(GetError::NoMatchingKey));
    assert_eq!(rec.get(&spec, Separator::Dot, "b/x"), Err(GetError::NoMatchingKey));
}

#[test]
fn get_fails_on_an_empty_segment() {
    let spec = outer();
    let rec = sample();
    assert_eq!(rec.get(&spec, Separator::Dot, ""), Err(GetError::NoMatchingKey));
    assert_eq!(rec.get(&spec, Separator::Dot, ".a"), Err(GetError::NoMatchingKey));
    assert_eq!(rec.get(&spec, Separator::Dot, "b..x"), Err(GetError::NoMatchingKey));
}

#[test]
fn insert_then_get_gives_the_value_back_for_every_key() {
    let spec = outer();
    for (n, key) in spec.keys(Separator::Dot).iter().enumerate() {
        let mut rec = sample();
        let fresh = |ty: &FieldType| -> Result<Value<i64>, String> {
            Ok(match ty {
                FieldType::Scalar(_) => Value::Scalar(100 + n as i64),
                FieldType::Nested(_) => {
                    Value::Nested(Record { fields: vec![Value::Scalar(200), Value::Scalar(201)] })
                }
            })
        };
        let expected = fresh(&spec.target(Separator::Dot, key).unwrap().ty).unwrap();
        assert_eq!(rec.insert(&spec, Separator::Dot, key, fresh, &Unconstrained), Ok(()));
        assert_eq!(rec.get(&spec, Separator::Dot, key), Ok(&expected));
    }
}

#[test]
fn position_finds_the_first_field_of_a_name() {
    let spec = record("P", vec![scalar("a", None), scalar("b", None), scalar("a", None)]);
    assert_eq!(spec.position("a"), Some(0));
    assert_eq!(spec.position("b"), Some(1));
    assert_eq!(spec.position("c"), None);
}
