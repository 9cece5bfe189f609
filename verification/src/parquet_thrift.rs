//! The names Parquet gives to Thrift field ids: a hand-copied subset of `parquet.thrift`.
//!
//! [`crate::thrift`] decodes the footer as numbered fields. This table says that field 4 of a
//! `FileMetaData` is `row_groups`, that it holds `RowGroup` structs, and that the integer in
//! field 1 of a `ColumnMetaData` is a `Type` enum where 2 means `INT64`.
//!
//! A field missing from the table still decodes: it is displayed by number, and nothing is
//! lost. That is the forward-compatibility rule the compact protocol was designed for.

use vstd::prelude::*;

use crate::text::str_eq;

verus! {

/// What a field holds, as far as naming it goes.
#[derive(Clone, Copy, Debug, PartialEq, Eq)]
pub enum Kind {
    Int,
    Bool,
    Str,
    Bytes,
    Enum(EnumName),
    Struct(&'static str),
    ListOf(&'static Kind),
}

#[derive(Clone, Copy, Debug, PartialEq, Eq, Structural)]
pub enum EnumName {
    Type,
    ConvertedType,
    FieldRepetitionType,
    Encoding,
    CompressionCodec,
    PageType,
    BoundaryOrder,
}

#[derive(Clone, Copy, Debug)]
pub struct FieldDef {
    pub id: i16,
    pub name: &'static str,
    pub kind: Kind,
}

/// The fields of `FILE_META_DATA`.
pub open spec fn file_meta_data_fields() -> Seq<FieldDef> {
    seq![
        FieldDef { id: 1, name: "version", kind: Kind::Int },
        FieldDef { id: 2, name: "schema", kind: Kind::ListOf(&Kind::Struct("SchemaElement")) },
        FieldDef { id: 3, name: "num_rows", kind: Kind::Int },
        FieldDef { id: 4, name: "row_groups", kind: Kind::ListOf(&Kind::Struct("RowGroup")) },
        FieldDef { id: 5, name: "key_value_metadata", kind: Kind::ListOf(&Kind::Struct("KeyValue")), },
        FieldDef { id: 6, name: "created_by", kind: Kind::Str },
        FieldDef { id: 7, name: "column_orders", kind: Kind::ListOf(&Kind::Struct("ColumnOrder")), },
        FieldDef { id: 8, name: "encryption_algorithm", kind: Kind::Struct("EncryptionAlgorithm"), },
        FieldDef { id: 9, name: "footer_signing_key_metadata", kind: Kind::Bytes },
    ]
}

fn file_meta_data_table() -> (t: Vec<FieldDef>)
    ensures
        t@ == file_meta_data_fields(),
{
    let t = vec![
        FieldDef { id: 1, name: "version", kind: Kind::Int },
        FieldDef { id: 2, name: "schema", kind: Kind::ListOf(&Kind::Struct("SchemaElement")) },
        FieldDef { id: 3, name: "num_rows", kind: Kind::Int },
        FieldDef { id: 4, name: "row_groups", kind: Kind::ListOf(&Kind::Struct("RowGroup")) },
        FieldDef { id: 5, name: "key_value_metadata", kind: Kind::ListOf(&Kind::Struct("KeyValue")), },
        FieldDef { id: 6, name: "created_by", kind: Kind::Str },
        FieldDef { id: 7, name: "column_orders", kind: Kind::ListOf(&Kind::Struct("ColumnOrder")), },
        FieldDef { id: 8, name: "encryption_algorithm", kind: Kind::Struct("EncryptionAlgorithm"), },
        FieldDef { id: 9, name: "footer_signing_key_metadata", kind: Kind::Bytes },
    ];
    assert(t@ =~= file_meta_data_fields());
    t
}

/// The fields of `SCHEMA_ELEMENT`.
pub open spec fn schema_element_fields() -> Seq<FieldDef> {
    seq![
        FieldDef { id: 1, name: "type", kind: Kind::Enum(EnumName::Type) },
        FieldDef { id: 2, name: "type_length", kind: Kind::Int },
        FieldDef { id: 3, name: "repetition_type", kind: Kind::Enum(EnumName::FieldRepetitionType), },
        FieldDef { id: 4, name: "name", kind: Kind::Str },
        FieldDef { id: 5, name: "num_children", kind: Kind::Int },
        FieldDef { id: 6, name: "converted_type", kind: Kind::Enum(EnumName::ConvertedType) },
        FieldDef { id: 7, name: "scale", kind: Kind::Int },
        FieldDef { id: 8, name: "precision", kind: Kind::Int },
        FieldDef { id: 9, name: "field_id", kind: Kind::Int },
        FieldDef { id: 10, name: "logicalType", kind: Kind::Struct("LogicalType") },
    ]
}

fn schema_element_table() -> (t: Vec<FieldDef>)
    ensures
        t@ == schema_element_fields(),
{
    let t = vec![
        FieldDef { id: 1, name: "type", kind: Kind::Enum(EnumName::Type) },
        FieldDef { id: 2, name: "type_length", kind: Kind::Int },
        FieldDef { id: 3, name: "repetition_type", kind: Kind::Enum(EnumName::FieldRepetitionType), },
        FieldDef { id: 4, name: "name", kind: Kind::Str },
        FieldDef { id: 5, name: "num_children", kind: Kind::Int },
        FieldDef { id: 6, name: "converted_type", kind: Kind::Enum(EnumName::ConvertedType) },
        FieldDef { id: 7, name: "scale", kind: Kind::Int },
        FieldDef { id: 8, name: "precision", kind: Kind::Int },
        FieldDef { id: 9, name: "field_id", kind: Kind::Int },
        FieldDef { id: 10, name: "logicalType", kind: Kind::Struct("LogicalType") },
    ];
    assert(t@ =~= schema_element_fields());
    t
}

/// The fields of `ROW_GROUP`.
pub open spec fn row_group_fields() -> Seq<FieldDef> {
    seq![
        FieldDef { id: 1, name: "columns", kind: Kind::ListOf(&Kind::Struct("ColumnChunk")) },
        FieldDef { id: 2, name: "total_byte_size", kind: Kind::Int },
        FieldDef { id: 3, name: "num_rows", kind: Kind::Int },
        FieldDef { id: 4, name: "sorting_columns", kind: Kind::ListOf(&Kind::Struct("SortingColumn")), },
        FieldDef { id: 5, name: "file_offset", kind: Kind::Int },
        FieldDef { id: 6, name: "total_compressed_size", kind: Kind::Int },
        FieldDef { id: 7, name: "ordinal", kind: Kind::Int },
    ]
}

fn row_group_table() -> (t: Vec<FieldDef>)
    ensures
        t@ == row_group_fields(),
{
    let t = vec![
        FieldDef { id: 1, name: "columns", kind: Kind::ListOf(&Kind::Struct("ColumnChunk")) },
        FieldDef { id: 2, name: "total_byte_size", kind: Kind::Int },
        FieldDef { id: 3, name: "num_rows", kind: Kind::Int },
        FieldDef { id: 4, name: "sorting_columns", kind: Kind::ListOf(&Kind::Struct("SortingColumn")), },
        FieldDef { id: 5, name: "file_offset", kind: Kind::Int },
        FieldDef { id: 6, name: "total_compressed_size", kind: Kind::Int },
        FieldDef { id: 7, name: "ordinal", kind: Kind::Int },
    ];
    assert(t@ =~= row_group_fields());
    t
}

/// The fields of `COLUMN_CHUNK`.
pub open spec fn column_chunk_fields() -> Seq<FieldDef> {
    seq![
        FieldDef { id: 1, name: "file_path", kind: Kind::Str },
        FieldDef { id: 2, name: "file_offset", kind: Kind::Int },
        FieldDef { id: 3, name: "meta_data", kind: Kind::Struct("ColumnMetaData") },
        FieldDef { id: 4, name: "offset_index_offset", kind: Kind::Int },
        FieldDef { id: 5, name: "offset_index_length", kind: Kind::Int },
        FieldDef { id: 6, name: "column_index_offset", kind: Kind::Int },
        FieldDef { id: 7, name: "column_index_length", kind: Kind::Int },
        FieldDef { id: 8, name: "crypto_metadata", kind: Kind::Struct("ColumnCryptoMetaData") },
        FieldDef { id: 9, name: "encrypted_column_metadata", kind: Kind::Bytes },
    ]
}

fn column_chunk_table() -> (t: Vec<FieldDef>)
    ensures
        t@ == column_chunk_fields(),
{
    let t = vec![
        FieldDef { id: 1, name: "file_path", kind: Kind::Str },
        FieldDef { id: 2, name: "file_offset", kind: Kind::Int },
        FieldDef { id: 3, name: "meta_data", kind: Kind::Struct("ColumnMetaData") },
        FieldDef { id: 4, name: "offset_index_offset", kind: Kind::Int },
        FieldDef { id: 5, name: "offset_index_length", kind: Kind::Int },
        FieldDef { id: 6, name: "column_index_offset", kind: Kind::Int },
        FieldDef { id: 7, name: "column_index_length", kind: Kind::Int },
        FieldDef { id: 8, name: "crypto_metadata", kind: Kind::Struct("ColumnCryptoMetaData") },
        FieldDef { id: 9, name: "encrypted_column_metadata", kind: Kind::Bytes },
    ];
    assert(t@ =~= column_chunk_fields());
    t
}

/// The fields of `COLUMN_META_DATA`.
pub open spec fn column_meta_data_fields() -> Seq<FieldDef> {
    seq![
        FieldDef { id: 1, name: "type", kind: Kind::Enum(EnumName::Type) },
        FieldDef { id: 2, name: "encodings", kind: Kind::ListOf(&Kind::Enum(EnumName::Encoding)) },
        FieldDef { id: 3, name: "path_in_schema", kind: Kind::ListOf(&Kind::Str) },
        FieldDef { id: 4, name: "codec", kind: Kind::Enum(EnumName::CompressionCodec) },
        FieldDef { id: 5, name: "num_values", kind: Kind::Int },
        FieldDef { id: 6, name: "total_uncompressed_size", kind: Kind::Int },
        FieldDef { id: 7, name: "total_compressed_size", kind: Kind::Int },
        FieldDef { id: 8, name: "key_value_metadata", kind: Kind::ListOf(&Kind::Struct("KeyValue")), },
        FieldDef { id: 9, name: "data_page_offset", kind: Kind::Int },
        FieldDef { id: 10, name: "index_page_offset", kind: Kind::Int },
        FieldDef { id: 11, name: "dictionary_page_offset", kind: Kind::Int },
        FieldDef { id: 12, name: "statistics", kind: Kind::Struct("Statistics") },
        FieldDef { id: 13, name: "encoding_stats", kind: Kind::ListOf(&Kind::Struct("PageEncodingStats")), },
        FieldDef { id: 14, name: "bloom_filter_offset", kind: Kind::Int },
        FieldDef { id: 15, name: "bloom_filter_length", kind: Kind::Int },
        FieldDef { id: 16, name: "size_statistics", kind: Kind::Struct("SizeStatistics") },
        FieldDef { id: 17, name: "geospatial_statistics", kind: Kind::Struct("GeospatialStatistics"), },
    ]
}

fn column_meta_data_table() -> (t: Vec<FieldDef>)
    ensures
        t@ == column_meta_data_fields(),
{
    let t = vec![
        FieldDef { id: 1, name: "type", kind: Kind::Enum(EnumName::Type) },
        FieldDef { id: 2, name: "encodings", kind: Kind::ListOf(&Kind::Enum(EnumName::Encoding)) },
        FieldDef { id: 3, name: "path_in_schema", kind: Kind::ListOf(&Kind::Str) },
        FieldDef { id: 4, name: "codec", kind: Kind::Enum(EnumName::CompressionCodec) },
        FieldDef { id: 5, name: "num_values", kind: Kind::Int },
        FieldDef { id: 6, name: "total_uncompressed_size", kind: Kind::Int },
        FieldDef { id: 7, name: "total_compressed_size", kind: Kind::Int },
        FieldDef { id: 8, name: "key_value_metadata", kind: Kind::ListOf(&Kind::Struct("KeyValue")), },
        FieldDef { id: 9, name: "data_page_offset", kind: Kind::Int },
        FieldDef { id: 10, name: "index_page_offset", kind: Kind::Int },
        FieldDef { id: 11, name: "dictionary_page_offset", kind: Kind::Int },
        FieldDef { id: 12, name: "statistics", kind: Kind::Struct("Statistics") },
        FieldDef { id: 13, name: "encoding_stats", kind: Kind::ListOf(&Kind::Struct("PageEncodingStats")), },
        FieldDef { id: 14, name: "bloom_filter_offset", kind: Kind::Int },
        FieldDef { id: 15, name: "bloom_filter_length", kind: Kind::Int },
        FieldDef { id: 16, name: "size_statistics", kind: Kind::Struct("SizeStatistics") },
        FieldDef { id: 17, name: "geospatial_statistics", kind: Kind::Struct("GeospatialStatistics"), },
    ];
    assert(t@ =~= column_meta_data_fields());
    t
}

/// The fields of `STATISTICS`.
pub open spec fn statistics_fields() -> Seq<FieldDef> {
    seq![
        FieldDef { id: 1, name: "max", kind: Kind::Bytes },
        FieldDef { id: 2, name: "min", kind: Kind::Bytes },
        FieldDef { id: 3, name: "null_count", kind: Kind::Int },
        FieldDef { id: 4, name: "distinct_count", kind: Kind::Int },
        FieldDef { id: 5, name: "max_value", kind: Kind::Bytes },
        FieldDef { id: 6, name: "min_value", kind: Kind::Bytes },
        FieldDef { id: 7, name: "is_max_value_exact", kind: Kind::Bool },
        FieldDef { id: 8, name: "is_min_value_exact", kind: Kind::Bool },
    ]
}

fn statistics_table() -> (t: Vec<FieldDef>)
    ensures
        t@ == statistics_fields(),
{
    let t = vec![
        FieldDef { id: 1, name: "max", kind: Kind::Bytes },
        FieldDef { id: 2, name: "min", kind: Kind::Bytes },
        FieldDef { id: 3, name: "null_count", kind: Kind::Int },
        FieldDef { id: 4, name: "distinct_count", kind: Kind::Int },
        FieldDef { id: 5, name: "max_value", kind: Kind::Bytes },
        FieldDef { id: 6, name: "min_value", kind: Kind::Bytes },
        FieldDef { id: 7, name: "is_max_value_exact", kind: Kind::Bool },
        FieldDef { id: 8, name: "is_min_value_exact", kind: Kind::Bool },
    ];
    assert(t@ =~= statistics_fields());
    t
}

/// The fields of `PAGE_ENCODING_STATS`.
pub open spec fn page_encoding_stats_fields() -> Seq<FieldDef> {
    seq![
        FieldDef { id: 1, name: "page_type", kind: Kind::Enum(EnumName::PageType) },
        FieldDef { id: 2, name: "encoding", kind: Kind::Enum(EnumName::Encoding) },
        FieldDef { id: 3, name: "count", kind: Kind::Int },
    ]
}

fn page_encoding_stats_table() -> (t: Vec<FieldDef>)
    ensures
        t@ == page_encoding_stats_fields(),
{
    let t = vec![
        FieldDef { id: 1, name: "page_type", kind: Kind::Enum(EnumName::PageType) },
        FieldDef { id: 2, name: "encoding", kind: Kind::Enum(EnumName::Encoding) },
        FieldDef { id: 3, name: "count", kind: Kind::Int },
    ];
    assert(t@ =~= page_encoding_stats_fields());
    t
}

/// The fields of `KEY_VALUE`.
pub open spec fn key_value_fields() -> Seq<FieldDef> {
    seq![
        FieldDef { id: 1, name: "key", kind: Kind::Str },
        FieldDef { id: 2, name: "value", kind: Kind::Str },
    ]
}

fn key_value_table() -> (t: Vec<FieldDef>)
    ensures
        t@ == key_value_fields(),
{
    let t = vec![
        FieldDef { id: 1, name: "key", kind: Kind::Str },
        FieldDef { id: 2, name: "value", kind: Kind::Str },
    ];
    assert(t@ =~= key_value_fields());
    t
}

/// The fields of `SORTING_COLUMN`.
pub open spec fn sorting_column_fields() -> Seq<FieldDef> {
    seq![
        FieldDef { id: 1, name: "column_idx", kind: Kind::Int },
        FieldDef { id: 2, name: "descending", kind: Kind::Bool },
        FieldDef { id: 3, name: "nulls_first", kind: Kind::Bool },
    ]
}

fn sorting_column_table() -> (t: Vec<FieldDef>)
    ensures
        t@ == sorting_column_fields(),
{
    let t = vec![
        FieldDef { id: 1, name: "column_idx", kind: Kind::Int },
        FieldDef { id: 2, name: "descending", kind: Kind::Bool },
        FieldDef { id: 3, name: "nulls_first", kind: Kind::Bool },
    ];
    assert(t@ =~= sorting_column_fields());
    t
}

/// The fields of `COLUMN_ORDER`.
pub open spec fn column_order_fields() -> Seq<FieldDef> {
    seq![
        FieldDef { id: 1, name: "TYPE_ORDER", kind: Kind::Struct("TypeDefinedOrder") },
    ]
}

fn column_order_table() -> (t: Vec<FieldDef>)
    ensures
        t@ == column_order_fields(),
{
    let t = vec![
        FieldDef { id: 1, name: "TYPE_ORDER", kind: Kind::Struct("TypeDefinedOrder") },
    ];
    assert(t@ =~= column_order_fields());
    t
}

/// The fields of `SIZE_STATISTICS`.
pub open spec fn size_statistics_fields() -> Seq<FieldDef> {
    seq![
        FieldDef { id: 1, name: "unencoded_byte_array_data_bytes", kind: Kind::Int },
        FieldDef { id: 2, name: "repetition_level_histogram", kind: Kind::ListOf(&Kind::Int) },
        FieldDef { id: 3, name: "definition_level_histogram", kind: Kind::ListOf(&Kind::Int) },
    ]
}

fn size_statistics_table() -> (t: Vec<FieldDef>)
    ensures
        t@ == size_statistics_fields(),
{
    let t = vec![
        FieldDef { id: 1, name: "unencoded_byte_array_data_bytes", kind: Kind::Int },
        FieldDef { id: 2, name: "repetition_level_histogram", kind: Kind::ListOf(&Kind::Int) },
        FieldDef { id: 3, name: "definition_level_histogram", kind: Kind::ListOf(&Kind::Int) },
    ];
    assert(t@ =~= size_statistics_fields());
    t
}

/// The fields of `LOGICAL_TYPE`.
pub open spec fn logical_type_fields() -> Seq<FieldDef> {
    seq![
        FieldDef { id: 1, name: "STRING", kind: Kind::Struct("StringType") },
        FieldDef { id: 2, name: "MAP", kind: Kind::Struct("MapType") },
        FieldDef { id: 3, name: "LIST", kind: Kind::Struct("ListType") },
        FieldDef { id: 4, name: "ENUM", kind: Kind::Struct("EnumType") },
        FieldDef { id: 5, name: "DECIMAL", kind: Kind::Struct("DecimalType") },
        FieldDef { id: 6, name: "DATE", kind: Kind::Struct("DateType") },
        FieldDef { id: 7, name: "TIME", kind: Kind::Struct("TimeType") },
        FieldDef { id: 8, name: "TIMESTAMP", kind: Kind::Struct("TimestampType") },
        FieldDef { id: 10, name: "INTEGER", kind: Kind::Struct("IntType") },
        FieldDef { id: 11, name: "UNKNOWN", kind: Kind::Struct("NullType") },
        FieldDef { id: 12, name: "JSON", kind: Kind::Struct("JsonType") },
        FieldDef { id: 13, name: "BSON", kind: Kind::Struct("BsonType") },
        FieldDef { id: 14, name: "UUID", kind: Kind::Struct("UUIDType") },
        FieldDef { id: 15, name: "FLOAT16", kind: Kind::Struct("Float16Type") },
        FieldDef { id: 16, name: "VARIANT", kind: Kind::Struct("VariantType") },
        FieldDef { id: 17, name: "GEOMETRY", kind: Kind::Struct("GeometryType") },
        FieldDef { id: 18, name: "GEOGRAPHY", kind: Kind::Struct("GeographyType") },
    ]
}

fn logical_type_table() -> (t: Vec<FieldDef>)
    ensures
        t@ == logical_type_fields(),
{
    let t = vec![
        FieldDef { id: 1, name: "STRING", kind: Kind::Struct("StringType") },
        FieldDef { id: 2, name: "MAP", kind: Kind::Struct("MapType") },
        FieldDef { id: 3, name: "LIST", kind: Kind::Struct("ListType") },
        FieldDef { id: 4, name: "ENUM", kind: Kind::Struct("EnumType") },
        FieldDef { id: 5, name: "DECIMAL", kind: Kind::Struct("DecimalType") },
        FieldDef { id: 6, name: "DATE", kind: Kind::Struct("DateType") },
        FieldDef { id: 7, name: "TIME", kind: Kind::Struct("TimeType") },
        FieldDef { id: 8, name: "TIMESTAMP", kind: Kind::Struct("TimestampType") },
        FieldDef { id: 10, name: "INTEGER", kind: Kind::Struct("IntType") },
        FieldDef { id: 11, name: "UNKNOWN", kind: Kind::Struct("NullType") },
        FieldDef { id: 12, name: "JSON", kind: Kind::Struct("JsonType") },
        FieldDef { id: 13, name: "BSON", kind: Kind::Struct("BsonType") },
        FieldDef { id: 14, name: "UUID", kind: Kind::Struct("UUIDType") },
        FieldDef { id: 15, name: "FLOAT16", kind: Kind::Struct("Float16Type") },
        FieldDef { id: 16, name: "VARIANT", kind: Kind::Struct("VariantType") },
        FieldDef { id: 17, name: "GEOMETRY", kind: Kind::Struct("GeometryType") },
        FieldDef { id: 18, name: "GEOGRAPHY", kind: Kind::Struct("GeographyType") },
    ];
    assert(t@ =~= logical_type_fields());
    t
}

/// The fields of `DECIMAL_TYPE`.
pub open spec fn decimal_type_fields() -> Seq<FieldDef> {
    seq![
        FieldDef { id: 1, name: "scale", kind: Kind::Int },
        FieldDef { id: 2, name: "precision", kind: Kind::Int },
    ]
}

fn decimal_type_table() -> (t: Vec<FieldDef>)
    ensures
        t@ == decimal_type_fields(),
{
    let t = vec![
        FieldDef { id: 1, name: "scale", kind: Kind::Int },
        FieldDef { id: 2, name: "precision", kind: Kind::Int },
    ];
    assert(t@ =~= decimal_type_fields());
    t
}

/// The fields of `TIME_UNIT`.
pub open spec fn time_unit_fields() -> Seq<FieldDef> {
    seq![
        FieldDef { id: 1, name: "MILLIS", kind: Kind::Struct("MilliSeconds") },
        FieldDef { id: 2, name: "MICROS", kind: Kind::Struct("MicroSeconds") },
        FieldDef { id: 3, name: "NANOS", kind: Kind::Struct("NanoSeconds") },
    ]
}

fn time_unit_table() -> (t: Vec<FieldDef>)
    ensures
        t@ == time_unit_fields(),
{
    let t = vec![
        FieldDef { id: 1, name: "MILLIS", kind: Kind::Struct("MilliSeconds") },
        FieldDef { id: 2, name: "MICROS", kind: Kind::Struct("MicroSeconds") },
        FieldDef { id: 3, name: "NANOS", kind: Kind::Struct("NanoSeconds") },
    ];
    assert(t@ =~= time_unit_fields());
    t
}

/// The fields of `TIME_TYPE`.
pub open spec fn time_type_fields() -> Seq<FieldDef> {
    seq![
        FieldDef { id: 1, name: "isAdjustedToUTC", kind: Kind::Bool },
        FieldDef { id: 2, name: "unit", kind: Kind::Struct("TimeUnit") },
    ]
}

fn time_type_table() -> (t: Vec<FieldDef>)
    ensures
        t@ == time_type_fields(),
{
    let t = vec![
        FieldDef { id: 1, name: "isAdjustedToUTC", kind: Kind::Bool },
        FieldDef { id: 2, name: "unit", kind: Kind::Struct("TimeUnit") },
    ];
    assert(t@ =~= time_type_fields());
    t
}

/// The fields of `INT_TYPE`.
pub open spec fn int_type_fields() -> Seq<FieldDef> {
    seq![
        FieldDef { id: 1, name: "bitWidth", kind: Kind::Int },
        FieldDef { id: 2, name: "isSigned", kind: Kind::Bool },
    ]
}

fn int_type_table() -> (t: Vec<FieldDef>)
    ensures
        t@ == int_type_fields(),
{
    let t = vec![
        FieldDef { id: 1, name: "bitWidth", kind: Kind::Int },
        FieldDef { id: 2, name: "isSigned", kind: Kind::Bool },
    ];
    assert(t@ =~= int_type_fields());
    t
}

/// The fields of `PAGE_HEADER`.
pub open spec fn page_header_fields() -> Seq<FieldDef> {
    seq![
        FieldDef { id: 1, name: "type", kind: Kind::Enum(EnumName::PageType) },
        FieldDef { id: 2, name: "uncompressed_page_size", kind: Kind::Int },
        FieldDef { id: 3, name: "compressed_page_size", kind: Kind::Int },
        FieldDef { id: 4, name: "crc", kind: Kind::Int },
        FieldDef { id: 5, name: "data_page_header", kind: Kind::Struct("DataPageHeader") },
        FieldDef { id: 6, name: "index_page_header", kind: Kind::Struct("IndexPageHeader") },
        FieldDef { id: 7, name: "dictionary_page_header", kind: Kind::Struct("DictionaryPageHeader"), },
        FieldDef { id: 8, name: "data_page_header_v2", kind: Kind::Struct("DataPageHeaderV2") },
    ]
}

fn page_header_table() -> (t: Vec<FieldDef>)
    ensures
        t@ == page_header_fields(),
{
    let t = vec![
        FieldDef { id: 1, name: "type", kind: Kind::Enum(EnumName::PageType) },
        FieldDef { id: 2, name: "uncompressed_page_size", kind: Kind::Int },
        FieldDef { id: 3, name: "compressed_page_size", kind: Kind::Int },
        FieldDef { id: 4, name: "crc", kind: Kind::Int },
        FieldDef { id: 5, name: "data_page_header", kind: Kind::Struct("DataPageHeader") },
        FieldDef { id: 6, name: "index_page_header", kind: Kind::Struct("IndexPageHeader") },
        FieldDef { id: 7, name: "dictionary_page_header", kind: Kind::Struct("DictionaryPageHeader"), },
        FieldDef { id: 8, name: "data_page_header_v2", kind: Kind::Struct("DataPageHeaderV2") },
    ];
    assert(t@ =~= page_header_fields());
    t
}

/// The fields of `DATA_PAGE_HEADER`.
pub open spec fn data_page_header_fields() -> Seq<FieldDef> {
    seq![
        FieldDef { id: 1, name: "num_values", kind: Kind::Int },
        FieldDef { id: 2, name: "encoding", kind: Kind::Enum(EnumName::Encoding) },
        FieldDef { id: 3, name: "definition_level_encoding", kind: Kind::Enum(EnumName::Encoding), },
        FieldDef { id: 4, name: "repetition_level_encoding", kind: Kind::Enum(EnumName::Encoding), },
        FieldDef { id: 5, name: "statistics", kind: Kind::Struct("Statistics") },
    ]
}

fn data_page_header_table() -> (t: Vec<FieldDef>)
    ensures
        t@ == data_page_header_fields(),
{
    let t = vec![
        FieldDef { id: 1, name: "num_values", kind: Kind::Int },
        FieldDef { id: 2, name: "encoding", kind: Kind::Enum(EnumName::Encoding) },
        FieldDef { id: 3, name: "definition_level_encoding", kind: Kind::Enum(EnumName::Encoding), },
        FieldDef { id: 4, name: "repetition_level_encoding", kind: Kind::Enum(EnumName::Encoding), },
        FieldDef { id: 5, name: "statistics", kind: Kind::Struct("Statistics") },
    ];
    assert(t@ =~= data_page_header_fields());
    t
}

/// The fields of `DICTIONARY_PAGE_HEADER`.
pub open spec fn dictionary_page_header_fields() -> Seq<FieldDef> {
    seq![
        FieldDef { id: 1, name: "num_values", kind: Kind::Int },
        FieldDef { id: 2, name: "encoding", kind: Kind::Enum(EnumName::Encoding) },
        FieldDef { id: 3, name: "is_sorted", kind: Kind::Bool },
    ]
}

fn dictionary_page_header_table() -> (t: Vec<FieldDef>)
    ensures
        t@ == dictionary_page_header_fields(),
{
    let t = vec![
        FieldDef { id: 1, name: "num_values", kind: Kind::Int },
        FieldDef { id: 2, name: "encoding", kind: Kind::Enum(EnumName::Encoding) },
        FieldDef { id: 3, name: "is_sorted", kind: Kind::Bool },
    ];
    assert(t@ =~= dictionary_page_header_fields());
    t
}

/// The fields of `DATA_PAGE_HEADER_V2`.
pub open spec fn data_page_header_v2_fields() -> Seq<FieldDef> {
    seq![
        FieldDef { id: 1, name: "num_values", kind: Kind::Int },
        FieldDef { id: 2, name: "num_nulls", kind: Kind::Int },
        FieldDef { id: 3, name: "num_rows", kind: Kind::Int },
        FieldDef { id: 4, name: "encoding", kind: Kind::Enum(EnumName::Encoding) },
        FieldDef { id: 5, name: "definition_levels_byte_length", kind: Kind::Int },
        FieldDef { id: 6, name: "repetition_levels_byte_length", kind: Kind::Int },
        FieldDef { id: 7, name: "is_compressed", kind: Kind::Bool },
        FieldDef { id: 8, name: "statistics", kind: Kind::Struct("Statistics") },
    ]
}

fn data_page_header_v2_table() -> (t: Vec<FieldDef>)
    ensures
        t@ == data_page_header_v2_fields(),
{
    let t = vec![
        FieldDef { id: 1, name: "num_values", kind: Kind::Int },
        FieldDef { id: 2, name: "num_nulls", kind: Kind::Int },
        FieldDef { id: 3, name: "num_rows", kind: Kind::Int },
        FieldDef { id: 4, name: "encoding", kind: Kind::Enum(EnumName::Encoding) },
        FieldDef { id: 5, name: "definition_levels_byte_length", kind: Kind::Int },
        FieldDef { id: 6, name: "repetition_levels_byte_length", kind: Kind::Int },
        FieldDef { id: 7, name: "is_compressed", kind: Kind::Bool },
        FieldDef { id: 8, name: "statistics", kind: Kind::Struct("Statistics") },
    ];
    assert(t@ =~= data_page_header_v2_fields());
    t
}

/// The fields of a named struct, or none for one this table does not describe.
pub open spec fn fields_spec(name: Seq<char>) -> Seq<FieldDef> {
    if name == "FileMetaData"@ {
        file_meta_data_fields()
    } else if name == "SchemaElement"@ {
        schema_element_fields()
    } else if name == "RowGroup"@ {
        row_group_fields()
    } else if name == "ColumnChunk"@ {
        column_chunk_fields()
    } else if name == "ColumnMetaData"@ {
        column_meta_data_fields()
    } else if name == "Statistics"@ {
        statistics_fields()
    } else if name == "PageEncodingStats"@ {
        page_encoding_stats_fields()
    } else if name == "KeyValue"@ {
        key_value_fields()
    } else if name == "SortingColumn"@ {
        sorting_column_fields()
    } else if name == "ColumnOrder"@ {
        column_order_fields()
    } else if name == "SizeStatistics"@ {
        size_statistics_fields()
    } else if name == "LogicalType"@ {
        logical_type_fields()
    } else if name == "DecimalType"@ {
        decimal_type_fields()
    } else if name == "TimeType"@ || name == "TimestampType"@ {
        time_type_fields()
    } else if name == "TimeUnit"@ {
        time_unit_fields()
    } else if name == "IntType"@ {
        int_type_fields()
    } else if name == "PageHeader"@ {
        page_header_fields()
    } else if name == "DataPageHeader"@ {
        data_page_header_fields()
    } else if name == "DictionaryPageHeader"@ {
        dictionary_page_header_fields()
    } else if name == "DataPageHeaderV2"@ {
        data_page_header_v2_fields()
    } else {
        Seq::empty()
    }
}

/// The fields of a named struct, or an empty list for one this table does not describe.
pub fn fields_of(struct_name: &str) -> (t: Vec<FieldDef>)
    ensures
        t@ == fields_spec(struct_name@),
{
    if str_eq(struct_name, "FileMetaData") {
        return file_meta_data_table();
    }
    if str_eq(struct_name, "SchemaElement") {
        return schema_element_table();
    }
    if str_eq(struct_name, "RowGroup") {
        return row_group_table();
    }
    if str_eq(struct_name, "ColumnChunk") {
        return column_chunk_table();
    }
    if str_eq(struct_name, "ColumnMetaData") {
        return column_meta_data_table();
    }
    if str_eq(struct_name, "Statistics") {
        return statistics_table();
    }
    if str_eq(struct_name, "PageEncodingStats") {
        return page_encoding_stats_table();
    }
    if str_eq(struct_name, "KeyValue") {
        return key_value_table();
    }
    if str_eq(struct_name, "SortingColumn") {
        return sorting_column_table();
    }
    if str_eq(struct_name, "ColumnOrder") {
        return column_order_table();
    }
    if str_eq(struct_name, "SizeStatistics") {
        return size_statistics_table();
    }
    if str_eq(struct_name, "LogicalType") {
        return logical_type_table();
    }
    if str_eq(struct_name, "DecimalType") {
        return decimal_type_table();
    }
    if str_eq(struct_name, "TimeType") || str_eq(struct_name, "TimestampType") {
        return time_type_table();
    }
    if str_eq(struct_name, "TimeUnit") {
        return time_unit_table();
    }
    if str_eq(struct_name, "IntType") {
        return int_type_table();
    }
    if str_eq(struct_name, "PageHeader") {
        return page_header_table();
    }
    if str_eq(struct_name, "DataPageHeader") {
        return data_page_header_table();
    }
    if str_eq(struct_name, "DictionaryPageHeader") {
        return dictionary_page_header_table();
    }
    if str_eq(struct_name, "DataPageHeaderV2") {
        return data_page_header_v2_table();
    }
    Vec::new()
}

/// The first definition in a list with the given id.
pub open spec fn def_with_id(defs: Seq<FieldDef>, id: i16) -> Option<FieldDef>
    decreases defs.len(),
{
    if defs.len() == 0 {
        None
    } else if defs[0].id == id {
        Some(defs[0])
    } else {
        def_with_id(defs.drop_first(), id)
    }
}

/// The definition of field `id` of a named struct, if the table has one.
pub fn field_def(struct_name: &str, id: i16) -> (d: Option<FieldDef>)
    ensures
        d == def_with_id(fields_spec(struct_name@), id),
{
    let defs = fields_of(struct_name);
    let mut i: usize = 0;
    assert(defs@.skip(0) =~= defs@);
    while i < defs.len()
        invariant
            i <= defs@.len(),
            defs@ == fields_spec(struct_name@),
            def_with_id(defs@, id) == def_with_id(defs@.skip(i as int), id),
        decreases defs@.len() - i,
    {
        proof {
            assert(defs@.skip(i as int).drop_first() =~= defs@.skip(i + 1));
        }
        assert(defs@.skip(i as int)[0] == defs@[i as int]);
        if defs[i].id == id {
            assert(defs@.skip(i as int).len() > 0);
            assert(def_with_id(defs@.skip(i as int), id) == Some(defs@[i as int]));
            return Some(defs[i]);
        }
        i = i + 1;
    }
    proof {
        assert(defs@.skip(i as int) =~= Seq::<FieldDef>::empty());
    }
    None
}

/// The names of an enum's values, in value order.
pub open spec fn enum_names(e: EnumName) -> Seq<&'static str> {
    match e {
        EnumName::Type => seq!["BOOLEAN", "INT32", "INT64", "INT96", "FLOAT", "DOUBLE", "BYTE_ARRAY", "FIXED_LEN_BYTE_ARRAY"],
        EnumName::ConvertedType => seq!["UTF8", "MAP", "MAP_KEY_VALUE", "LIST", "ENUM", "DECIMAL", "DATE", "TIME_MILLIS", "TIME_MICROS", "TIMESTAMP_MILLIS", "TIMESTAMP_MICROS", "UINT_8", "UINT_16", "UINT_32", "UINT_64", "INT_8", "INT_16", "INT_32", "INT_64", "JSON", "BSON", "INTERVAL"],
        EnumName::FieldRepetitionType => seq!["REQUIRED", "OPTIONAL", "REPEATED"],
        EnumName::Encoding => seq!["PLAIN", "GROUP_VAR_INT", "PLAIN_DICTIONARY", "RLE", "BIT_PACKED", "DELTA_BINARY_PACKED", "DELTA_LENGTH_BYTE_ARRAY", "DELTA_BYTE_ARRAY", "RLE_DICTIONARY", "BYTE_STREAM_SPLIT"],
        EnumName::CompressionCodec => seq!["UNCOMPRESSED", "SNAPPY", "GZIP", "LZO", "BROTLI", "LZ4", "ZSTD", "LZ4_RAW"],
        EnumName::PageType => seq!["DATA_PAGE", "INDEX_PAGE", "DICTIONARY_PAGE", "DATA_PAGE_V2"],
        EnumName::BoundaryOrder => seq!["UNORDERED", "ASCENDING", "DESCENDING"],
    }
}

fn enum_names_table(e: EnumName) -> (t: Vec<&'static str>)
    ensures
        t@ == enum_names(e),
{
    let t = match e {
        EnumName::Type => vec!["BOOLEAN", "INT32", "INT64", "INT96", "FLOAT", "DOUBLE", "BYTE_ARRAY", "FIXED_LEN_BYTE_ARRAY"],
        EnumName::ConvertedType => vec!["UTF8", "MAP", "MAP_KEY_VALUE", "LIST", "ENUM", "DECIMAL", "DATE", "TIME_MILLIS", "TIME_MICROS", "TIMESTAMP_MILLIS", "TIMESTAMP_MICROS", "UINT_8", "UINT_16", "UINT_32", "UINT_64", "INT_8", "INT_16", "INT_32", "INT_64", "JSON", "BSON", "INTERVAL"],
        EnumName::FieldRepetitionType => vec!["REQUIRED", "OPTIONAL", "REPEATED"],
        EnumName::Encoding => vec!["PLAIN", "GROUP_VAR_INT", "PLAIN_DICTIONARY", "RLE", "BIT_PACKED", "DELTA_BINARY_PACKED", "DELTA_LENGTH_BYTE_ARRAY", "DELTA_BYTE_ARRAY", "RLE_DICTIONARY", "BYTE_STREAM_SPLIT"],
        EnumName::CompressionCodec => vec!["UNCOMPRESSED", "SNAPPY", "GZIP", "LZO", "BROTLI", "LZ4", "ZSTD", "LZ4_RAW"],
        EnumName::PageType => vec!["DATA_PAGE", "INDEX_PAGE", "DICTIONARY_PAGE", "DATA_PAGE_V2"],
        EnumName::BoundaryOrder => vec!["UNORDERED", "ASCENDING", "DESCENDING"],
    };
    assert(t@ =~= enum_names(e));
    t
}

/// The name of an enum value, or `None` for a value this table does not know.
pub fn enum_value_name(e: EnumName, v: i64) -> (name: Option<&'static str>)
    ensures
        name == (if 0 <= v < enum_names(e).len() {
            Some(enum_names(e)[v as int])
        } else {
            None::<&'static str>
        }),
{
    let names = enum_names_table(e);
    if v >= 0 && (v as u64) < names.len() as u64 {
        Some(names[v as usize])
    } else {
        None
    }
}

} // verus!
