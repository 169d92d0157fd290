use validated_records::schema::{clone_tags, Attrs, FieldSpec, FieldType, RecordSpec, Tag};

fn tag(path: &str, tokens: &str) -> Tag {
    Tag { path: path.to_string(), tokens: tokens.to_string() }
}

fn marker() -> Tag {
    tag("recursive_attrs", "")
}

#[test]
fn split_without_a_marker_keeps_all_tags_local() {
    let attrs = Attrs::split(vec![tag("doc", "= \"x\""), tag("derive", "(Clone)")]);
    assert_eq!(attrs.local, vec![tag("doc", "= \"x\""), tag("derive", "(Clone)")]);
    assert_eq!(attrs.recursive, Vec::<Tag>::new());
}

#[test]
fn split_of_no_tags_is_empty() {
    let attrs = Attrs::split(Vec::new());
    assert_eq!(attrs, Attrs { local: Vec::new(), recursive: Vec::new() });
}

#[test]
fn split_drops_the_marker_and_parts_the_tags_around_it() {
    let attrs = Attrs::split(vec![
        tag("doc", "= \"x\""),
        marker(),
        tag("derive", "(Clone)"),
        tag("repr", "(C)"),
    ]);
    assert_eq!(attrs.local, vec![tag("doc", "= \"x\"")]);
    assert_eq!(attrs.recursive, vec![tag("derive", "(Clone)"), tag("repr", "(C)")]);
}

#[test]
fn split_with_the_marker_first_or_last() {
    let first = Attrs::split(vec![marker(), tag("derive", "(Clone)")]);
    assert_eq!(first.local, Vec::<Tag>::new());
    assert_eq!(first.recursive, vec![tag("derive", "(Clone)")]);
    let last = Attrs::split(vec![tag("derive", "(Clone)"), marker()]);
    assert_eq!(last.local, vec![tag("derive", "(Clone)")]);
    assert_eq!(last.recursive, Vec::<Tag>::new());
}

#[test]
fn split_parts_at_the_first_marker_only() {
    let attrs = Attrs::split(vec![tag("a", ""), marker(), tag("b", ""), marker(), tag("c", "")]);
    assert_eq!(attrs.local, vec![tag("a", "")]);
    assert_eq!(attrs.recursive, vec![tag("b", ""), marker(), tag("c", "")]);
}

#[test]
fn split_knows_the_marker_by_its_name_alone() {
    let attrs = Attrs::split(vec![tag("a", ""), tag("recursive_attrs", "(anything)"), tag("b", "")]);
    assert_eq!(attrs.local, vec![tag("a", "")]);
    assert_eq!(attrs.recursive, vec![tag("b", "")]);
    let none = Attrs::split(vec![tag("a", "recursive_attrs"), tag("recursive", "")]);
    assert_eq!(none.local.len(), 2);
    assert_eq!(none.recursive.len(), 0);
}

#[test]
fn ty_names_a_scalar_by_its_type_and_a_record_by_its_name() {
    assert_eq!(FieldType::Scalar("Vec<u8>".to_string()).ty(), "Vec<u8>");
    let inner = RecordSpec {
        name: "Inner".to_string(),
        tags: Vec::new(),
        recursive_tags: Vec::new(),
        fields: Vec::new(),
    };
    assert_eq!(FieldType::Nested(inner).ty(), "Inner");
}

#[test]
fn clones_are_equal_to_what_they_were_made_from() {
    let inner = RecordSpec {
        name: "Inner".to_string(),
        tags: vec![tag("doc", "= \"inner\"")],
        recursive_tags: vec![tag("derive", "(Debug)")],
        fields: vec![FieldSpec {
            name: "x".to_string(),
            vis: "pub".to_string(),
            tags: vec![tag("doc", "= \"x\"")],
            ty: FieldType::Scalar("u8".to_string()),
            constraint: Some("small".to_string()),
        }],
    };
    let outer = RecordSpec {
        name: "Outer".to_string(),
        tags: Vec::new(),
        recursive_tags: Vec::new(),
        fields: vec![FieldSpec {
            name: "inner".to_string(),
            vis: String::new(),
            tags: Vec::new(),
            ty: FieldType::Nested(inner),
            constraint: None,
        }],
    };
    assert_eq!(outer.clone(), outer);
    assert_eq!(outer.fields[0].clone(), outer.fields[0]);
    assert_eq!(outer.fields[0].ty.clone(), outer.fields[0].ty);
    assert_eq!(tag("a", "b").clone(), tag("a", "b"));
    let tags = vec![tag("a", "1"), tag("b", "2")];
    assert_eq!(clone_tags(&tags), tags);
}
