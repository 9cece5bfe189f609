use parquet_lab::parquet_thrift::{enum_value_name, field_def, fields_of, EnumName, Kind};

#[test]
fn every_struct_named_as_a_child_is_either_described_or_an_empty_marker() {
    const MARKERS: &[&str] = &[
        "StringType", "MapType", "ListType", "EnumType", "DateType", "NullType", "JsonType",
        "BsonType", "UUIDType", "Float16Type", "VariantType", "TypeDefinedOrder", "MilliSeconds",
        "MicroSeconds", "NanoSeconds", "EncryptionAlgorithm", "ColumnCryptoMetaData",
        "GeospatialStatistics", "GeometryType", "GeographyType", "IndexPageHeader",
    ];
    let all = [
        "FileMetaData", "SchemaElement", "RowGroup", "ColumnChunk", "ColumnMetaData",
        "Statistics", "PageEncodingStats", "KeyValue", "SortingColumn", "ColumnOrder",
        "SizeStatistics", "LogicalType", "DecimalType", "TimeType", "TimeUnit", "IntType",
        "PageHeader", "DataPageHeader", "DictionaryPageHeader", "DataPageHeaderV2",
    ];
    fn child(kind: Kind) -> Option<&'static str> {
        match kind {
            Kind::Struct(s) => Some(s),
            Kind::ListOf(inner) => child(*inner),
            _ => None,
        }
    }
    for name in all {
        assert!(!fields_of(name).is_empty(), "{name} has no fields");
        for def in fields_of(name) {
            if let Some(c) = child(def.kind) {
                assert!(
                    !fields_of(c).is_empty() || MARKERS.contains(&c),
                    "{name}.{} names {c}, which is neither described nor a marker",
                    def.name
                );
            }
        }
    }
}

#[test]
fn field_ids_are_unique_within_a_struct() {
    for name in ["FileMetaData", "ColumnMetaData", "PageHeader", "LogicalType"] {
        let mut ids: Vec<i16> = fields_of(name).iter().map(|d| d.id).collect();
        ids.sort();
        ids.dedup();
        assert_eq!(ids.len(), fields_of(name).len(), "{name}");
    }
}

#[test]
fn enum_values_have_names() {
    assert_eq!(enum_value_name(EnumName::Type, 2), Some("INT64"));
    assert_eq!(enum_value_name(EnumName::Encoding, 8), Some("RLE_DICTIONARY"));
    assert_eq!(enum_value_name(EnumName::CompressionCodec, 7), Some("LZ4_RAW"));
    assert_eq!(enum_value_name(EnumName::Type, 99), None);
    assert_eq!(enum_value_name(EnumName::Type, -1), None);
}

#[test]
fn fields_are_found_by_id() {
    let d = field_def("FileMetaData", 4).unwrap();
    assert_eq!(d.name, "row_groups");
    assert!(matches!(d.kind, Kind::ListOf(Kind::Struct("RowGroup"))));
    assert_eq!(field_def("TimestampType", 1).unwrap().name, "isAdjustedToUTC");
    assert!(field_def("FileMetaData", 99).is_none());
    assert!(fields_of("NoSuchStruct").is_empty());
}
