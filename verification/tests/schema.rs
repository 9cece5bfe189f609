use parquet_lab::bytes::Span;
use parquet_lab::metadata::{PhysicalType, SchemaElement};
use parquet_lab::schema::{
    build, leaves, max_levels, physical_word, to_text, Leaf, Repetition, SchemaError,
};

fn el(name: &str, children: Option<i64>, rep: Option<&str>, physical: Option<i64>) -> SchemaElement {
    SchemaElement {
        name: name.into(),
        physical_type: physical.map(PhysicalType),
        type_length: None,
        repetition: rep.map(str::to_string),
        num_children: children,
        converted_type: None,
        logical_type: None,
        scale: None,
        precision: None,
        field_id: None,
        span: Span::new(0, 0),
    }
}

fn sample() -> Vec<SchemaElement> {
    vec![
        el("schema", Some(2), None, None),
        el("order_id", None, Some("REQUIRED"), Some(2)),
        el("items", Some(2), Some("REPEATED"), None),
        el("sku", None, Some("REQUIRED"), Some(6)),
        el("discounts", None, Some("REPEATED"), Some(1)),
    ]
}

#[test]
fn the_flat_list_rebuilds_into_a_tree() {
    let root = build(&sample()).unwrap();
    assert_eq!(root.children.len(), 2);
    assert_eq!(root.children[1].children.len(), 2);
    let paths: Vec<String> = leaves(&root).iter().map(Leaf::dotted_path).collect();
    assert_eq!(paths, ["order_id", "items.sku", "items.discounts"]);
}

#[test]
fn levels_count_the_fields_that_may_be_absent_or_repeated() {
    let root = build(&sample()).unwrap();
    let levels: Vec<(u32, u32)> = leaves(&root)
        .iter()
        .map(|l| (l.max_definition_level, l.max_repetition_level))
        .collect();
    assert_eq!(levels, [(0, 0), (1, 1), (2, 2)]);
}

#[test]
fn a_group_that_claims_too_many_children_is_refused() {
    let mut s = sample();
    s[2].num_children = Some(3);
    assert!(matches!(
        build(&s),
        Err(SchemaError::TooFewElements { element: 2, .. })
    ));
}

#[test]
fn elements_nobody_owns_are_refused() {
    let mut s = sample();
    s[0].num_children = Some(1);
    assert_eq!(build(&s), Err(SchemaError::TrailingElements { from: 2 }));
}

#[test]
fn the_text_form_nests_groups() {
    let text = to_text(&build(&sample()).unwrap());
    assert!(text.starts_with("message schema {\n  required int64 order_id;\n"));
    assert!(text.contains("  repeated group items {\n    required binary sku;\n"));
}

#[test]
fn an_empty_schema_and_a_typeless_leaf_are_refused() {
    assert_eq!(build(&[]), Err(SchemaError::Empty));
    let mut s = sample();
    s[1].physical_type = None;
    assert_eq!(
        build(&s),
        Err(SchemaError::NotALeaf {
            name: "order_id".to_string(),
            element: 1
        })
    );
}

#[test]
fn leaves_carry_their_columns_types_and_repetitions() {
    let root = build(&sample()).unwrap();
    let l = leaves(&root);
    assert_eq!(l[2].column, 2);
    assert_eq!(l[2].element, 4);
    assert_eq!(l[2].physical_type, PhysicalType(1));
    assert_eq!(l[2].repetitions, vec![Repetition::Repeated, Repetition::Repeated]);
    assert_eq!(
        max_levels(&[Repetition::Optional, Repetition::Required, Repetition::Repeated]),
        (2, 1)
    );
    assert_eq!(physical_word(PhysicalType(7), Some(16)), "fixed_len_byte_array(16)");
    assert_eq!(physical_word(PhysicalType(9), None), "type9");
    assert_eq!(Repetition::Optional.word(), "optional");
}
