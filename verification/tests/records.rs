use parquet_lab::column::Triple;
use parquet_lab::nested::{assemble, PathField, Record};
use parquet_lab::plain::PlainValue;
use parquet_lab::schema::Repetition;

fn field(name: &str, repetition: Repetition, def: u32, rep: u32, is_list: bool) -> PathField {
    PathField {
        name: name.to_string(),
        repetition,
        def,
        rep,
        is_list,
        label: name.to_string(),
    }
}

fn slot(rep: u32, def: u32, value: Option<i64>) -> Triple {
    Triple {
        rep,
        def,
        value: value.map(PlainValue::Int),
        value_span: None,
        page: 0,
    }
}

fn named(name: &str, r: Record) -> Record {
    Record::Field(name.to_string(), Box::new(r))
}

/// `items`: an optional annotated LIST of optional integers.
fn list_fields() -> Vec<PathField> {
    vec![
        field("items", Repetition::Optional, 1, 0, true),
        field("list", Repetition::Repeated, 2, 1, false),
        field("element", Repetition::Optional, 3, 1, false),
    ]
}

#[test]
fn a_list_column_rebuilds_one_record_per_row() {
    let triples = vec![
        slot(0, 3, Some(1)),
        slot(1, 3, Some(2)),
        slot(0, 1, None),
        slot(0, 0, None),
        slot(0, 2, None),
    ];
    let records = assemble(&list_fields(), &triples);
    assert_eq!(
        records,
        vec![
            named("items", Record::List(vec![Record::Value(PlainValue::Int(1)), Record::Value(PlainValue::Int(2))])),
            named("items", Record::List(vec![])),
            named("items", Record::Null),
            named("items", Record::List(vec![Record::Null])),
        ]
    );
}

#[test]
fn a_struct_column_holds_its_field_or_null() {
    let fields = vec![
        field("a", Repetition::Optional, 1, 0, false),
        field("b", Repetition::Required, 1, 0, false),
    ];
    let records = assemble(&fields, &[slot(0, 1, Some(5)), slot(0, 0, None)]);
    assert_eq!(
        records,
        vec![
            named("a", named("b", Record::Value(PlainValue::Int(5)))),
            named("a", Record::Null),
        ]
    );
}

#[test]
fn a_repeated_field_without_a_list_annotation_is_a_list_of_structs() {
    // `tags` repeated group holding a required `name`.
    let fields = vec![
        field("tags", Repetition::Repeated, 1, 1, false),
        field("name", Repetition::Required, 1, 1, false),
    ];
    let records = assemble(&fields, &[slot(0, 1, Some(7)), slot(1, 1, Some(8)), slot(0, 0, None)]);
    assert_eq!(
        records,
        vec![
            named(
                "tags",
                Record::List(vec![
                    named("name", Record::Value(PlainValue::Int(7))),
                    named("name", Record::Value(PlainValue::Int(8))),
                ])
            ),
            named("tags", Record::List(vec![])),
        ]
    );
}

#[test]
fn no_slots_make_no_records() {
    assert!(assemble(&list_fields(), &[]).is_empty());
}

#[test]
fn every_slot_with_repetition_level_zero_starts_a_record() {
    // Five slots, of which the first and two more start a row.
    let triples = vec![
        slot(0, 3, Some(1)),
        slot(1, 3, Some(2)),
        slot(1, 3, Some(3)),
        slot(0, 0, None),
        slot(0, 3, Some(4)),
    ];
    let records = assemble(&list_fields(), &triples);
    assert_eq!(records.len(), 3);
    assert_eq!(
        records[0],
        named(
            "items",
            Record::List(vec![
                Record::Value(PlainValue::Int(1)),
                Record::Value(PlainValue::Int(2)),
                Record::Value(PlainValue::Int(3)),
            ])
        )
    );
}
