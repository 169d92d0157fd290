use validated_records::flatten::ScopeStack;
use validated_records::schema::{FieldSpec, FieldType, RecordSpec, Tag};

fn tag(path: &str) -> Tag {
    Tag { path: path.to_string(), tokens: String::new() }
}

fn tags(paths: &[&str]) -> Vec<Tag> {
    paths.iter().map(|p| tag(p)).collect()
}

fn scalar(name: &str) -> FieldSpec {
    FieldSpec {
        name: name.to_string(),
        vis: String::new(),
        tags: Vec::new(),
        ty: FieldType::Scalar("u8".to_string()),
        constraint: None,
    }
}

fn nested(name: &str, record: RecordSpec) -> FieldSpec {
    FieldSpec {
        name: name.to_string(),
        vis: "pub".to_string(),
        tags: tags(&["field_tag"]),
        ty: FieldType::Nested(record),
        constraint: Some("check".to_string()),
    }
}

fn record(name: &str, local: &[&str], recursive: &[&str], fields: Vec<FieldSpec>) -> RecordSpec {
    RecordSpec { name: name.to_string(), tags: tags(local), recursive_tags: tags(recursive), fields }
}

/// `R { a, b: B { c: C {}, d }, e: E {} }`
fn tree() -> RecordSpec {
    record(
        "R",
        &["l_r"],
        &["r_r"],
        vec![
            scalar("a"),
            nested(
                "b",
                record(
                    "B",
                    &["l_b"],
                    &["r_b"],
                    vec![nested("c", record("C", &["l_c"], &[], vec![])), scalar("d")],
                ),
            ),
            nested("e", record("E", &[], &["r_e"], vec![])),
        ],
    )
}

fn names(list: &[RecordSpec]) -> Vec<String> {
    list.iter().map(|r| r.name.clone()).collect()
}

#[test]
fn flatten_of_a_record_without_nested_fields_is_that_record() {
    let flat = record("P", &["x"], &[], vec![scalar("a")]).flatten();
    assert_eq!(flat, vec![record("P", &["x"], &[], vec![scalar("a")])]);
}

#[test]
fn flatten_puts_nested_records_before_the_records_that_hold_them() {
    let flat = tree().flatten();
    assert_eq!(names(&flat), vec!["C", "B", "E", "R"]);
}

#[test]
fn flatten_puts_a_child_before_its_parent() {
    let parent = record("P", &[], &[], vec![nested("c", record("C", &[], &[], vec![]))]);
    let flat = parent.flatten();
    let c = names(&flat).iter().position(|n| n == "C").unwrap();
    let p = names(&flat).iter().position(|n| n == "P").unwrap();
    assert!(c < p);
    assert_eq!(flat.len(), 2);
}

#[test]
fn flatten_hands_recursive_tags_down_to_every_depth() {
    let flat = tree().flatten();
    assert_eq!(flat[0].tags, tags(&["l_c", "r_r", "r_b"]));
    assert_eq!(flat[1].tags, tags(&["l_b", "r_r", "r_b"]));
    assert_eq!(flat[2].tags, tags(&["r_r", "r_e"]));
    assert_eq!(flat[3].tags, tags(&["l_r", "r_r"]));
}

#[test]
fn flatten_keeps_local_tags_on_the_record_that_declares_them() {
    let flat = tree().flatten();
    for (i, entry) in flat.iter().enumerate() {
        assert_eq!(entry.tags.contains(&tag("l_r")), i == 3);
        assert_eq!(entry.tags.contains(&tag("l_b")), i == 1);
        assert_eq!(entry.tags.contains(&tag("l_c")), i == 0);
    }
}

#[test]
fn flatten_does_not_hand_tags_to_siblings() {
    let flat = tree().flatten();
    assert!(!flat[2].tags.contains(&tag("r_b")));
    assert!(!flat[0].tags.contains(&tag("r_e")));
    assert!(!flat[1].tags.contains(&tag("r_e")));
}

#[test]
fn flatten_leaves_nothing_to_hand_down() {
    for entry in tree().flatten() {
        assert_eq!(entry.recursive_tags, Vec::<Tag>::new());
    }
}

#[test]
fn flatten_puts_the_resolved_record_into_the_field_that_nests_it() {
    let flat = tree().flatten();
    assert_eq!(flat[1].fields[0].ty, FieldType::Nested(flat[0].clone()));
    assert_eq!(flat[3].fields[1].ty, FieldType::Nested(flat[1].clone()));
    assert_eq!(flat[3].fields[2].ty, FieldType::Nested(flat[2].clone()));
    assert_eq!(flat[3].fields[0], scalar("a"));
    assert_eq!(flat[1].fields[1], scalar("d"));
}

#[test]
fn flatten_leaves_fields_as_they_are_but_for_the_nested_record() {
    let flat = tree().flatten();
    let b = &flat[3].fields[1];
    assert_eq!(b.name, "b");
    assert_eq!(b.vis, "pub");
    assert_eq!(b.tags, tags(&["field_tag"]));
    assert_eq!(b.constraint, Some("check".to_string()));
}

#[test]
fn flatten_go_appends_to_the_list_and_restores_the_scopes() {
    let mut list = vec![record("Before", &[], &[], vec![])];
    let mut scopes = ScopeStack::new();
    scopes.push(tags(&["outer"]));
    let resolved = record("P", &["l"], &["r"], vec![nested("c", record("C", &[], &[], vec![]))])
        .flatten_go(&mut list, &mut scopes);
    assert_eq!(names(&list), vec!["Before", "C", "P"]);
    assert_eq!(list[1].tags, tags(&["outer", "r"]));
    assert_eq!(list[2].tags, tags(&["l", "outer", "r"]));
    assert_eq!(resolved, list[2]);
    assert_eq!(scopes.depth(), 1);
    assert_eq!(scopes.collect(), tags(&["outer"]));
}

#[test]
fn scope_stack_collects_from_the_bottom_frame_to_the_top_one() {
    let mut scopes = ScopeStack::new();
    assert_eq!(scopes.depth(), 0);
    assert_eq!(scopes.collect(), Vec::<Tag>::new());
    scopes.push(tags(&["a", "b"]));
    scopes.push(tags(&[]));
    scopes.push(tags(&["c"]));
    assert_eq!(scopes.depth(), 3);
    assert_eq!(scopes.collect(), tags(&["a", "b", "c"]));
    assert_eq!(scopes.pop(), Some(tags(&["c"])));
    assert_eq!(scopes.collect(), tags(&["a", "b"]));
    assert_eq!(scopes.pop(), Some(tags(&[])));
    assert_eq!(scopes.pop(), Some(tags(&["a", "b"])));
    assert_eq!(scopes.pop(), None);
    assert_eq!(scopes.depth(), 0);
}
