use parquet_lab::bytes::Span;
use parquet_lab::logical::LogicalType;
use parquet_lab::metadata::PhysicalType;
use parquet_lab::column::Triple;
use parquet_lab::nested::{explain, path_fields, PathField};
use parquet_lab::schema::{Leaf, Repetition, SchemaNode};

fn node(
    name: &str,
    repetition: Repetition,
    logical_type: Option<LogicalType>,
    children: Vec<SchemaNode>,
) -> SchemaNode {
    SchemaNode {
        element: 0,
        name: name.to_string(),
        repetition,
        physical_type: None,
        type_length: None,
        logical_type,
        converted_type: None,
        field_id: None,
        span: Span::new(0, 0),
        children,
    }
}

fn leaf(path: &[&str]) -> Leaf {
    Leaf {
        column: 0,
        path: path.iter().map(|s| s.to_string()).collect(),
        repetitions: vec![],
        max_definition_level: 0,
        max_repetition_level: 0,
        element: 0,
        physical_type: PhysicalType(6),
        type_length: None,
        logical_type: None,
    }
}

fn orders() -> SchemaNode {
    let sku = node("sku", Repetition::Required, None, vec![]);
    let element = node("element", Repetition::Optional, None, vec![sku]);
    let list = node("list", Repetition::Repeated, None, vec![element]);
    let items = node("items", Repetition::Optional, Some(LogicalType::List), vec![list]);
    let id = node("id", Repetition::Required, None, vec![]);
    node("schema", Repetition::Required, None, vec![id, items])
}

#[test]
fn a_list_element_is_named_with_brackets() {
    let fields = path_fields(&orders(), &leaf(&["items", "list", "element", "sku"]));
    let labels: Vec<&str> = fields.iter().map(|f| f.label.as_str()).collect();
    assert_eq!(labels, ["items", "items[]", "items[]", "items[].sku"]);
    let defs: Vec<u32> = fields.iter().map(|f| f.def).collect();
    assert_eq!(defs, [1, 2, 3, 3]);
    let reps: Vec<u32> = fields.iter().map(|f| f.rep).collect();
    assert_eq!(reps, [0, 1, 1, 1]);
    assert!(fields[0].is_list);
    assert!(!fields[1].is_list);
}

#[test]
fn a_name_no_child_has_ends_the_walk() {
    let fields = path_fields(&orders(), &leaf(&["items", "nope", "sku"]));
    assert_eq!(fields.len(), 1);
    assert_eq!(fields[0].name, "items");
    let fields = path_fields(&orders(), &leaf(&["id"]));
    assert_eq!(fields[0].def, 0);
    assert_eq!(fields[0].label, "id");
}

fn field(name: &str, repetition: Repetition, def: u32, rep: u32, is_list: bool, label: &str) -> PathField {
    PathField { name: name.into(), repetition, def, rep, is_list, label: label.into() }
}

fn triple(rep: u32, def: u32) -> Triple {
    Triple { rep, def, value: None, value_span: None, page: 0 }
}

#[test]
fn a_triple_is_explained_by_the_fields_on_its_path() {
    let fields = [
        field("items", Repetition::Optional, 1, 0, true, "items"),
        field("list", Repetition::Repeated, 2, 1, false, "items[]"),
        field("element", Repetition::Optional, 3, 1, false, "items[]"),
    ];
    assert_eq!(explain(&fields, &triple(0, 3)), "starts a new record; the value is present");
    assert_eq!(
        explain(&fields, &triple(1, 3)),
        "adds an element to `items`; the value is present"
    );
    assert_eq!(explain(&fields, &triple(0, 1)), "starts a new record; `items` is an empty list");
    assert_eq!(
        explain(&fields, &triple(0, 2)),
        "starts a new record; an element of `items` is null"
    );
    assert_eq!(explain(&fields, &triple(0, 0)), "starts a new record; `items` is null");
    assert_eq!(
        explain(&fields, &triple(2, 3)),
        "repetition level 2 matches no repeated field; the value is present"
    );
}
