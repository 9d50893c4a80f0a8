use std::cmp::Ordering;
use loom::cbor::{as_array, as_bytes, as_text, as_uint, decode_array, digest_value, Fields};
use loom::columnar::{
    add_numeric, cmp_matches, digest_from_value, sum_values, CmpOp, NumericCell, SumCell, segment_digest_input, ColumnarAggregate, ColumnarAggregateOp,
    ColumnarCompressionPolicy, ColumnarSegmentEncoding, ColumnarStatisticsPolicy,
    COLUMNAR_COMPRESSION_NONE, COLUMNAR_FORMAT_VERSION, COLUMNAR_SEGMENT_ENCODING_NATIVE_CBOR,
    COLUMNAR_STATISTICS_BASIC,
};
use loom::error::Code;
use loom::columnar_records::{
    check_manifest_header, check_segment_position, check_segment_row_count, decode_column_entry, decode_dataset_header, decode_manifest_header,
    decode_manifest_segment_head, decode_segment_head, decode_statistics_entries,
    decode_statistics_null_count, encode_dataset, encode_manifest, ManifestSegment, SegmentPayload,
    SegmentWalk,
};
use loom::columnar_set::{decimal, ColumnarSet};
use loom::error::LoomError;
use loom::segments::{SegmentRange, SegmentedRows, DEFAULT_TARGET_SEGMENT_ROWS};
use loom::{encode, Value};

fn row(i: u64, label: &str) -> (u64, String) {
    (i, label.to_string())
}

fn scan(set: &SegmentedRows<(u64, String)>) -> Vec<(u64, String)> {
    set.segments().iter().flatten().cloned().collect()
}

#[test]
fn policies_map_to_their_committed_codes() {
    assert_eq!(u64::from(ColumnarStatisticsPolicy::Basic), COLUMNAR_STATISTICS_BASIC);
    assert_eq!(u64::from(ColumnarCompressionPolicy::Uncompressed), COLUMNAR_COMPRESSION_NONE);
    assert_eq!(
        u64::from(ColumnarSegmentEncoding::NativeCborRows),
        COLUMNAR_SEGMENT_ENCODING_NATIVE_CBOR
    );
    assert_eq!(COLUMNAR_FORMAT_VERSION, 2);
    assert_eq!(ColumnarStatisticsPolicy::decode(1).unwrap(), ColumnarStatisticsPolicy::Basic);
    assert_eq!(
        ColumnarCompressionPolicy::decode(0).unwrap(),
        ColumnarCompressionPolicy::Uncompressed
    );
    assert_eq!(
        ColumnarSegmentEncoding::decode(1).unwrap(),
        ColumnarSegmentEncoding::NativeCborRows
    );
}

#[test]
fn unknown_policy_codes_are_corrupt() {
    let e = ColumnarStatisticsPolicy::decode(2).unwrap_err();
    assert_eq!(e.code, Code::CorruptObject);
    assert_eq!(e.message, "unknown columnar statistics policy");
    let e = ColumnarCompressionPolicy::decode(1).unwrap_err();
    assert_eq!(e.code, Code::CorruptObject);
    assert_eq!(e.message, "unknown columnar compression policy");
    let e = ColumnarSegmentEncoding::decode(0).unwrap_err();
    assert_eq!(e.code, Code::CorruptObject);
    assert_eq!(e.message, "unknown columnar segment encoding");
}

#[test]
fn aggregates_other_than_count_require_a_column() {
    let count = ColumnarAggregate { op: ColumnarAggregateOp::Count, column: None };
    assert_eq!(count.required_column().unwrap(), None);
    let sum = ColumnarAggregate { op: ColumnarAggregateOp::Sum, column: Some("id".to_string()) };
    assert_eq!(sum.required_column().unwrap(), Some("id"));
    let min = ColumnarAggregate { op: ColumnarAggregateOp::Min, column: None };
    let e = min.required_column().unwrap_err();
    assert_eq!(e.code, Code::InvalidArgument);
    assert_eq!(e.message, "columnar aggregate column is required");
}

#[test]
fn layout_rolls_segments_at_target_and_compacts() {
    let mut set = SegmentedRows::new(2);
    for i in 0..5u64 {
        set.push(row(i, &format!("n{i}")));
    }
    assert_eq!(set.rows(), 5);
    assert_eq!(set.segment_count(), 3);
    assert_eq!(
        scan(&set).into_iter().map(|r| r.0).collect::<Vec<_>>(),
        vec![0, 1, 2, 3, 4]
    );
    set.compact();
    assert_eq!(set.segment_count(), 3);
    assert_eq!(set.rows(), 5);
}

#[test]
fn zero_target_selects_the_default() {
    let set: SegmentedRows<(u64, String)> = SegmentedRows::new(0);
    assert_eq!(set.target_segment_rows(), DEFAULT_TARGET_SEGMENT_ROWS);
    assert_eq!(DEFAULT_TARGET_SEGMENT_ROWS, 8192);
    assert!(set.is_empty());
    assert_eq!(set.segment_count(), 0);
}

#[test]
fn segment_layout_compacts_fragments_in_order() {
    let rows = vec![row(1, "a"), row(2, "b"), row(3, "c")];
    let mut fragmented =
        SegmentedRows::from_segments(rows.iter().cloned().map(|r| vec![r]).collect(), 2);
    assert_eq!(fragmented.segment_count(), 3);
    let before = fragmented.segment_ranges();
    fragmented.compact();
    assert_eq!(fragmented.segment_count(), 2);
    assert_ne!(fragmented.segment_ranges(), before);
    assert_eq!(scan(&fragmented), rows);
    assert_eq!(fragmented.segments()[0].len(), 2);
    assert_eq!(fragmented.segments()[1].len(), 1);
}

#[test]
fn segment_ranges_record_ordinals_and_row_ranges() {
    let mut set = SegmentedRows::new(2);
    set.push(row(1, "b"));
    set.push(row(3, ""));
    set.push(row(2, "a"));
    let ranges = set.segment_ranges();
    assert_eq!(
        ranges,
        vec![
            SegmentRange { ordinal: 0, row_start: 0, row_count: 2 },
            SegmentRange { ordinal: 1, row_start: 2, row_count: 1 },
        ]
    );
}

#[test]
fn compaction_of_an_empty_layout_is_empty() {
    let mut set: SegmentedRows<(u64, String)> = SegmentedRows::new(3);
    set.compact();
    assert_eq!(set.segment_count(), 0);
    assert_eq!(set.rows(), 0);
}

#[test]
fn fields_read_a_record_in_order() {
    let items = vec![
        Value::Uint(2),
        Value::Text("name".to_string()),
        Value::Bytes(vec![1, 2]),
        Value::Array(vec![Value::Null]),
    ];
    let mut f = Fields::new(items);
    assert_eq!(f.uint().unwrap(), 2);
    assert_eq!(f.text().unwrap(), "name");
    assert!(f.end().is_err());
    assert_eq!(f.bytes().unwrap(), vec![1, 2]);
    assert_eq!(f.array().unwrap(), vec![Value::Null]);
    assert!(f.end().is_ok());
    let e = f.next_field().unwrap_err();
    assert_eq!(e.code, Code::CorruptObject);
    assert_eq!(e.message, "missing CBOR field");
}

#[test]
fn fields_report_wrong_shapes() {
    let mut f = Fields::new(vec![Value::Text("x".to_string()), Value::Uint(1)]);
    let e = f.uint().unwrap_err();
    assert_eq!(e.message, "expected CBOR unsigned integer");
    let e = f.text().unwrap_err();
    assert_eq!(e.message, "expected CBOR text");
    let e = Fields::new(vec![Value::Null]).end().unwrap_err();
    assert_eq!(e.code, Code::CorruptObject);
    assert_eq!(e.message, "trailing CBOR fields");
}

#[test]
fn shape_checks_name_the_expected_item() {
    assert_eq!(as_array(Value::Null).unwrap_err().message, "expected CBOR array");
    assert_eq!(as_bytes(Value::Null).unwrap_err().message, "expected CBOR bytes");
    assert_eq!(as_text(Value::Null).unwrap_err().message, "expected CBOR text");
    assert_eq!(as_uint(Value::Null).unwrap_err().message, "expected CBOR unsigned integer");
    assert_eq!(as_uint(Value::Uint(7)).unwrap(), 7);
}

#[test]
fn decode_array_reports_codec_failures_as_corrupt() {
    let bytes = encode(&Value::Array(vec![Value::Uint(1)])).unwrap();
    assert_eq!(decode_array(&bytes).unwrap(), vec![Value::Uint(1)]);
    let e = decode_array(&[0x82, 0x01]).unwrap_err();
    assert_eq!(e.code, Code::CorruptObject);
    assert_eq!(e.message, "CBOR decode failed: unexpected end of input");
    let e = decode_array(&[0x01]).unwrap_err();
    assert_eq!(e.message, "expected CBOR array");
}

#[test]
fn digests_are_thirty_two_byte_strings() {
    let digest = [7u8; 32];
    let value = digest_value(&digest);
    assert_eq!(value, Value::Bytes(vec![7u8; 32]));
    assert_eq!(digest_from_value(value).unwrap(), digest);
    let e = digest_from_value(Value::Bytes(vec![0; 31])).unwrap_err();
    assert_eq!(e.code, Code::CorruptObject);
    assert_eq!(e.message, "digest field is not 32 bytes");
    assert_eq!(digest_from_value(Value::Null).unwrap_err().message, "expected CBOR bytes");
}

#[test]
fn segment_digest_input_is_domain_then_bytes() {
    let input = segment_digest_input(&[1, 2, 3]);
    let mut expected = b"loom-columnar-segment-v1".to_vec();
    expected.extend_from_slice(&[1, 2, 3]);
    assert_eq!(input, expected);
}

/// Column types of the datasets below.
#[derive(Debug, Clone, Copy, PartialEq, Eq)]
enum ColumnType {
    Int,
    Text,
}

/// Cells of the datasets below.
#[derive(Debug, Clone, PartialEq, Eq)]
enum Cell {
    Null,
    Int(i64),
    Text(String),
}

impl Cell {
    fn matches(&self, ty: ColumnType) -> bool {
        matches!(
            (self, ty),
            (Cell::Null, _) | (Cell::Int(_), ColumnType::Int) | (Cell::Text(_), ColumnType::Text)
        )
    }
}

type Dataset = ColumnarSet<ColumnType, Cell>;

fn cols() -> Vec<(String, ColumnType)> {
    vec![("id".into(), ColumnType::Int), ("label".into(), ColumnType::Text)]
}

/// Append a row: the cell type says which cells fit their column's type and how a type is
/// named; the dataset checks arity, then the cells, and appends.
fn append_row(set: &mut Dataset, row: Vec<Cell>) -> Result<(), LoomError> {
    let columns = set.columns();
    let fits: Vec<bool> = (0..row.len())
        .map(|i| i >= columns.len() || row[i].matches(columns[i].1))
        .collect();
    let type_names: Vec<String> = columns.iter().map(|(_, ty)| format!("{ty:?}")).collect();
    set.append_row(row, &fits, &type_names)
}

fn dataset_scan(set: &Dataset) -> Vec<Vec<Cell>> {
    set.scan().into_iter().cloned().collect()
}

#[test]
fn append_rolls_segments_at_target_and_compacts() {
    let mut set = Dataset::new(cols(), 2).unwrap();
    for i in 0..5 {
        append_row(&mut set, vec![Cell::Int(i), Cell::Text(format!("n{i}"))]).unwrap();
    }
    assert_eq!(set.rows(), 5);
    assert_eq!(set.segment_count(), 3);
    assert_eq!(
        set.scan().into_iter().map(|row| row[0].clone()).collect::<Vec<_>>(),
        vec![Cell::Int(0), Cell::Int(1), Cell::Int(2), Cell::Int(3), Cell::Int(4)]
    );
    set.compact();
    assert_eq!(set.segment_count(), 3);
    assert_eq!(set.rows(), 5);
}

#[test]
fn type_and_arity_validation() {
    let mut set = Dataset::new(cols(), 0).unwrap();
    assert!(append_row(&mut set, vec![Cell::Int(1)]).is_err());
    assert!(append_row(&mut set, vec![Cell::Text("x".into()), Cell::Text("y".into())]).is_err());
    assert!(append_row(&mut set, vec![Cell::Int(1), Cell::Null]).is_ok());
    assert!(Dataset::new(vec![], 0).is_err());
}

#[test]
fn append_row_checks_arity_then_each_cell_in_order() {
    let mut set = Dataset::new(cols(), 2).unwrap();
    let e = append_row(&mut set, vec![Cell::Int(1)]).unwrap_err();
    assert_eq!(e.code, Code::InvalidArgument);
    assert_eq!(e.message, "row has 1 values, dataset has 2 columns");
    // Arity comes first, even when a cell would not fit.
    let e = append_row(&mut set, vec![Cell::Text("x".into())]).unwrap_err();
    assert_eq!(e.message, "row has 1 values, dataset has 2 columns");
    // The first cell that does not fit names its column and the column's type.
    let e = append_row(&mut set, vec![Cell::Text("x".into()), Cell::Int(2)]).unwrap_err();
    assert_eq!(e.code, Code::InvalidArgument);
    assert_eq!(e.message, "column \"id\" expects Int");
    let e = append_row(&mut set, vec![Cell::Int(1), Cell::Int(2)]).unwrap_err();
    assert_eq!(e.message, "column \"label\" expects Text");
    assert_eq!(set.rows(), 0);
    append_row(&mut set, vec![Cell::Null, Cell::Text("a".into())]).unwrap();
    assert_eq!(set.rows(), 1);
    assert_eq!(dataset_scan(&set), vec![vec![Cell::Null, Cell::Text("a".into())]]);
}

#[test]
fn dataset_needs_columns_and_counts_values() {
    let e = Dataset::new(vec![], 4).unwrap_err();
    assert_eq!(e.code, Code::InvalidArgument);
    assert_eq!(e.message, "columnar dataset has no columns");
    let set = Dataset::new(cols(), 0).unwrap();
    assert_eq!(set.target_segment_rows(), 8192);
    assert!(set.check_arity(2).is_ok());
    let e = set.check_arity(1).unwrap_err();
    assert_eq!(e.code, Code::InvalidArgument);
    assert_eq!(e.message, "row has 1 values, dataset has 2 columns");
    assert_eq!(set.check_arity(12).unwrap_err().message, "row has 12 values, dataset has 2 columns");
}

#[test]
fn columns_resolve_by_name() {
    let set = Dataset::new(cols(), 2).unwrap();
    assert_eq!(set.column_index("id").unwrap(), 0);
    assert_eq!(set.column_index("label").unwrap(), 1);
    let e = set.column_index("nope").unwrap_err();
    assert_eq!(e.code, Code::InvalidArgument);
    assert_eq!(e.message, "unknown column \"nope\"");
}

#[test]
fn select_resolves_projection_before_filter() {
    let set = Dataset::new(cols(), 2).unwrap();
    let (projection, filter) = set.select_indexes(&["label", "id", "label"], Some("id")).unwrap();
    assert_eq!(projection, vec![1, 0, 1]);
    assert_eq!(filter, Some(0));
    let (projection, filter) = set.select_indexes(&[], None).unwrap();
    assert!(projection.is_empty());
    assert_eq!(filter, None);
    let e = set.select_indexes(&["x"], Some("y")).unwrap_err();
    assert_eq!(e.message, "unknown column \"x\"");
    let e = set.select_indexes(&["id"], Some("y")).unwrap_err();
    assert_eq!(e.message, "unknown column \"y\"");
}

#[test]
fn aggregates_resolve_filter_then_columns_in_order() {
    let set = Dataset::new(cols(), 2).unwrap();
    let aggregates = vec![
        ColumnarAggregate { op: ColumnarAggregateOp::Count, column: None },
        ColumnarAggregate { op: ColumnarAggregateOp::Sum, column: Some("id".into()) },
        ColumnarAggregate { op: ColumnarAggregateOp::Max, column: Some("label".into()) },
    ];
    let (filter, indexes) = set.aggregate_indexes(&aggregates, Some("label")).unwrap();
    assert_eq!(filter, Some(1));
    assert_eq!(indexes, vec![None, Some(0), Some(1)]);
    let bad = vec![
        ColumnarAggregate { op: ColumnarAggregateOp::Min, column: None },
        ColumnarAggregate { op: ColumnarAggregateOp::Sum, column: Some("zz".into()) },
    ];
    let e = set.aggregate_indexes(&bad, Some("nope")).unwrap_err();
    assert_eq!(e.message, "unknown column \"nope\"");
    let e = set.aggregate_indexes(&bad, None).unwrap_err();
    assert_eq!(e.message, "columnar aggregate column is required");
}

#[test]
fn decimal_text_of_numbers() {
    assert_eq!(decimal(0), "0");
    assert_eq!(decimal(7), "7");
    assert_eq!(decimal(10), "10");
    assert_eq!(decimal(8192), "8192");
    assert_eq!(decimal(u64::MAX), u64::MAX.to_string());
}

#[test]
fn dataset_layout_follows_appends() {
    let mut set = Dataset::new(cols(), 2).unwrap();
    append_row(&mut set, vec![Cell::Int(1), Cell::Text("b".into())]).unwrap();
    append_row(&mut set, vec![Cell::Int(3), Cell::Null]).unwrap();
    append_row(&mut set, vec![Cell::Int(2), Cell::Text("a".into())]).unwrap();
    assert_eq!(
        set.segment_ranges(),
        vec![
            SegmentRange { ordinal: 0, row_start: 0, row_count: 2 },
            SegmentRange { ordinal: 1, row_start: 2, row_count: 1 },
        ]
    );
    assert!(!set.is_empty());
    assert_eq!(set.columns(), &cols());
    assert_eq!(
        dataset_scan(&set),
        vec![
            vec![Cell::Int(1), Cell::Text("b".into())],
            vec![Cell::Int(3), Cell::Null],
            vec![Cell::Int(2), Cell::Text("a".into())],
        ]
    );
}

fn uint(n: u64) -> Value {
    Value::Uint(n)
}

fn header(version: u64, target: u64, statistics: u64, compression: u64) -> Vec<u8> {
    encode(&Value::Array(vec![
        uint(version),
        Value::Array(vec![Value::Array(vec![Value::Text("id".into()), uint(3)])]),
        uint(target),
        uint(statistics),
        uint(compression),
        Value::Array(Vec::new()),
    ]))
    .unwrap()
}

#[test]
fn dataset_header_reads_its_fields() {
    let h = decode_dataset_header(&header(2, 16, 1, 0)).unwrap();
    assert_eq!(h.target_segment_rows, 16);
    assert_eq!(h.columns.len(), 1);
    assert!(h.segments.is_empty());
    assert_eq!(
        decode_column_entry(h.columns[0].clone()).unwrap(),
        ("id".to_string(), 3u8)
    );
}

#[test]
fn dataset_header_rejects_unknown_codes() {
    let e = decode_dataset_header(&header(3, 16, 1, 0)).unwrap_err();
    assert_eq!(e.code, Code::CorruptObject);
    assert_eq!(e.message, "unknown columnar format version 3");
    let e = decode_dataset_header(&header(2, 16, 7, 0)).unwrap_err();
    assert_eq!(e.message, "unknown columnar statistics policy 7");
    let e = decode_dataset_header(&header(2, 16, 1, 12)).unwrap_err();
    assert_eq!(e.message, "unknown columnar compression policy 12");
    let short = encode(&Value::Array(vec![uint(2)])).unwrap();
    assert_eq!(decode_dataset_header(&short).unwrap_err().message, "missing CBOR field");
    let mut long = vec![uint(2), Value::Array(vec![]), uint(1), uint(1), uint(0), Value::Array(vec![])];
    long.push(Value::Null);
    let long = encode(&Value::Array(long)).unwrap();
    assert_eq!(decode_dataset_header(&long).unwrap_err().message, "trailing CBOR fields");
}

#[test]
fn column_entries_hold_a_name_and_a_byte_tag() {
    let entry = Value::Array(vec![Value::Text("x".into()), uint(256)]);
    assert_eq!(decode_column_entry(entry).unwrap_err().message, "column type tag out of range");
    let entry = Value::Array(vec![uint(1), uint(1)]);
    assert_eq!(decode_column_entry(entry).unwrap_err().message, "expected CBOR text");
    assert_eq!(decode_column_entry(Value::Null).unwrap_err().message, "expected CBOR array");
}

fn segment_record(ordinal: u64, row_start: u64, encoding: u64, digest: Vec<u8>) -> Value {
    Value::Array(vec![
        uint(ordinal),
        uint(row_start),
        uint(2),
        uint(encoding),
        Value::Bytes(digest),
        Value::Bytes(vec![0x80]),
        Value::Array(Vec::new()),
    ])
}

#[test]
fn segment_heads_check_position_and_encoding() {
    let head = decode_segment_head(segment_record(1, 4, 1, vec![5; 32]), 1, 4).unwrap();
    assert_eq!(head.row_count, 2);
    assert_eq!(head.digest, [5u8; 32]);
    assert_eq!(head.bytes, vec![0x80]);
    let mut rest = head.rest;
    assert_eq!(rest.array().unwrap(), Vec::<Value>::new());
    assert!(rest.end().is_ok());

    let e = decode_segment_head(segment_record(0, 4, 1, vec![5; 32]), 1, 4).unwrap_err();
    assert_eq!(e.message, "columnar segment ordinal mismatch");
    let e = decode_segment_head(segment_record(1, 3, 1, vec![5; 32]), 1, 4).unwrap_err();
    assert_eq!(e.message, "columnar segment row range mismatch");
    let e = decode_segment_head(segment_record(1, 4, 9, vec![5; 32]), 1, 4).unwrap_err();
    assert_eq!(e.message, "unknown columnar segment encoding 9");
    let e = decode_segment_head(segment_record(1, 4, 1, vec![5; 31]), 1, 4).unwrap_err();
    assert_eq!(e.code, Code::CorruptObject);
    assert_eq!(e.message, "digest field is not 32 bytes");
}

#[test]
fn manifest_records_decode_with_named_policies() {
    let h = decode_manifest_header(&header(2, 16, 1, 0)).unwrap();
    assert_eq!(h.version, 2);
    assert_eq!(h.statistics_policy, ColumnarStatisticsPolicy::Basic);
    assert_eq!(h.compression_policy, ColumnarCompressionPolicy::Uncompressed);
    // The manifest records any version; the dataset bytes accept only the current one.
    assert_eq!(decode_manifest_header(&header(9, 16, 1, 0)).unwrap().version, 9);
    let e = decode_manifest_header(&header(2, 16, 7, 0)).unwrap_err();
    assert_eq!(e.message, "unknown columnar statistics policy");
    let head = decode_manifest_segment_head(segment_record(3, 6, 1, vec![1; 32])).unwrap();
    assert_eq!((head.ordinal, head.row_start, head.row_count), (3, 6, 2));
    assert_eq!(head.encoding, ColumnarSegmentEncoding::NativeCborRows);
    let e = decode_manifest_segment_head(segment_record(3, 6, 2, vec![1; 32])).unwrap_err();
    assert_eq!(e.message, "unknown columnar segment encoding");
}

#[test]
fn statistics_have_one_entry_per_column() {
    let stats = Value::Array(vec![
        Value::Array(vec![uint(1), Value::Null, Value::Null]),
        Value::Array(vec![uint(0), uint(3), uint(9)]),
    ]);
    let entries = decode_statistics_entries(stats.clone(), 2).unwrap();
    assert_eq!(entries.len(), 2);
    let e = decode_statistics_entries(stats, 3).unwrap_err();
    assert_eq!(e.code, Code::CorruptObject);
    assert_eq!(e.message, "columnar segment statistics arity mismatch");
    let (nulls, mut rest) = decode_statistics_null_count(entries[1].clone()).unwrap();
    assert_eq!(nulls, 0);
    assert_eq!(rest.uint().unwrap(), 3);
    assert_eq!(rest.uint().unwrap(), 9);
    assert!(rest.end().is_ok());
    let e = decode_statistics_null_count(Value::Array(vec![Value::Null])).unwrap_err();
    assert_eq!(e.message, "expected CBOR unsigned integer");
}

#[test]
fn manifests_are_checked_before_their_segments() {
    assert!(check_manifest_header(2, 3, 3).is_ok());
    let e = check_manifest_header(1, 3, 3).unwrap_err();
    assert_eq!(e.code, Code::CorruptObject);
    assert_eq!(e.message, "unknown columnar format version 1");
    let e = check_manifest_header(2, 3, 2).unwrap_err();
    assert_eq!(e.message, "columnar segment manifest arity mismatch");
}

fn payload(rows: usize, fill: u8) -> SegmentPayload {
    SegmentPayload {
        row_count: rows,
        digest: [fill; 32],
        bytes: vec![0x80 + rows as u8],
        statistics: Value::Array(vec![Value::Array(vec![uint(0), Value::Null, Value::Null])]),
    }
}

#[test]
fn written_datasets_read_back() {
    let columns = vec![("id".to_string(), 1u8), ("label".to_string(), 4u8)];
    let segments = vec![payload(2, 1), payload(1, 2)];
    let bytes = encode_dataset(&columns, 2, &segments);
    let h = decode_dataset_header(&bytes).unwrap();
    assert_eq!(h.target_segment_rows, 2);
    assert_eq!(
        h.columns.into_iter().map(|c| decode_column_entry(c).unwrap()).collect::<Vec<_>>(),
        columns
    );
    let mut row_start = 0;
    for (ordinal, record) in h.segments.into_iter().enumerate() {
        let head = decode_segment_head(record, ordinal, row_start).unwrap();
        assert_eq!(head.row_count, segments[ordinal].row_count);
        assert_eq!(head.digest, segments[ordinal].digest);
        assert_eq!(head.bytes, segments[ordinal].bytes);
        let mut rest = head.rest;
        assert_eq!(rest.next_field().unwrap(), segments[ordinal].statistics);
        assert!(rest.end().is_ok());
        row_start += head.row_count;
    }
    assert_eq!(row_start, 3);
}

#[test]
fn segment_records_out_of_place_are_rejected() {
    let bytes = encode_dataset(&[("id".to_string(), 1u8)], 2, &[payload(2, 1), payload(1, 2)]);
    let h = decode_dataset_header(&bytes).unwrap();
    let e = decode_segment_head(h.segments[1].clone(), 0, 0).unwrap_err();
    assert_eq!(e.code, Code::CorruptObject);
    assert_eq!(e.message, "columnar segment ordinal mismatch");
    let e = decode_segment_head(h.segments[1].clone(), 1, 1).unwrap_err();
    assert_eq!(e.message, "columnar segment row range mismatch");
}

#[test]
fn written_manifests_read_back() {
    let columns = vec![("id".to_string(), 1u8)];
    let segments = vec![
        ManifestSegment {
            ordinal: 0,
            row_start: 0,
            row_count: 2,
            encoding: ColumnarSegmentEncoding::NativeCborRows,
            digest: [3; 32],
            statistics: Value::Array(vec![]),
        },
        ManifestSegment {
            ordinal: 1,
            row_start: 2,
            row_count: 1,
            encoding: ColumnarSegmentEncoding::NativeCborRows,
            digest: [4; 32],
            statistics: Value::Array(vec![]),
        },
    ];
    let bytes = encode_manifest(
        COLUMNAR_FORMAT_VERSION,
        &columns,
        2,
        ColumnarStatisticsPolicy::Basic,
        ColumnarCompressionPolicy::Uncompressed,
        &segments,
    );
    let h = decode_manifest_header(&bytes).unwrap();
    assert_eq!(h.version, COLUMNAR_FORMAT_VERSION);
    assert_eq!(h.target_segment_rows, 2);
    assert_eq!(decode_column_entry(h.columns[0].clone()).unwrap(), columns[0]);
    for (record, expected) in h.segments.into_iter().zip(&segments) {
        let head = decode_manifest_segment_head(record).unwrap();
        assert_eq!(head.ordinal, expected.ordinal);
        assert_eq!(head.row_start, expected.row_start);
        assert_eq!(head.row_count, expected.row_count);
        assert_eq!(head.digest, expected.digest);
        let mut rest = head.rest;
        assert_eq!(rest.next_field().unwrap(), expected.statistics);
        assert!(rest.end().is_ok());
    }
}

#[test]
fn comparisons_follow_the_order_of_cell_and_operand() {
    let table = [
        (CmpOp::Eq, [false, true, false]),
        (CmpOp::Ne, [true, false, true]),
        (CmpOp::Lt, [true, false, false]),
        (CmpOp::Le, [true, true, false]),
        (CmpOp::Gt, [false, false, true]),
        (CmpOp::Ge, [false, true, true]),
    ];
    for (op, expected) in table {
        assert_eq!([cmp_matches(op, Ordering::Less), cmp_matches(op, Ordering::Equal), cmp_matches(op, Ordering::Greater)], expected);
    }
}

#[test]
fn try_push_row_checks_arity_and_leaves_the_dataset_alone() {
    let mut set = Dataset::new(cols(), 2).unwrap();
    let e = set.try_push_row(vec![Cell::Int(1)]).unwrap_err();
    assert_eq!(e.code, Code::InvalidArgument);
    assert_eq!(e.message, "row has 1 values, dataset has 2 columns");
    assert_eq!(set.rows(), 0);
    set.try_push_row(vec![Cell::Int(1), Cell::Null]).unwrap();
    assert_eq!(set.rows(), 1);
}

#[test]
fn compaction_layout_counts_full_segments() {
    let mut set = SegmentedRows::from_segments(vec![vec![1u64], vec![2, 3, 4], vec![5, 6], vec![7]], 3);
    set.compact();
    assert_eq!(set.segment_count(), 3);
    assert_eq!(set.segments(), &vec![vec![1, 2, 3], vec![4, 5, 6], vec![7]]);
    set.compact();
    assert_eq!(set.segments(), &vec![vec![1, 2, 3], vec![4, 5, 6], vec![7]]);
}

#[test]
fn manifest_segments_check_position_and_count() {
    assert!(check_segment_position(2, 10, 2, 10).is_ok());
    let e = check_segment_position(1, 9, 2, 10).unwrap_err();
    assert_eq!(e.code, Code::CorruptObject);
    assert_eq!(e.message, "columnar segment ordinal mismatch");
    let e = check_segment_position(2, 9, 2, 10).unwrap_err();
    assert_eq!(e.message, "columnar segment row range mismatch");
    assert!(check_segment_row_count(4, 4).is_ok());
    let e = check_segment_row_count(3, 4).unwrap_err();
    assert_eq!(e.message, "columnar segment row count mismatch");
}

#[test]
fn add_numeric_sums_one_width_exactly() {
    assert_eq!(add_numeric(NumericCell::Int(40), &NumericCell::Int(2)).unwrap(), NumericCell::Int(42));
    assert_eq!(add_numeric(NumericCell::I8(-100), &NumericCell::I8(-28)).unwrap(), NumericCell::I8(-128));
    assert_eq!(add_numeric(NumericCell::U8(200), &NumericCell::U8(55)).unwrap(), NumericCell::U8(255));
    assert_eq!(
        add_numeric(NumericCell::U128(u128::MAX - 1), &NumericCell::U128(1)).unwrap(),
        NumericCell::U128(u128::MAX)
    );
    assert_eq!(
        add_numeric(NumericCell::I128(i128::MIN), &NumericCell::I128(i128::MAX)).unwrap(),
        NumericCell::I128(-1)
    );
    let e = add_numeric(NumericCell::U8(200), &NumericCell::U8(56)).unwrap_err();
    assert_eq!(e.code, Code::InvalidArgument);
    assert_eq!(e.message, "columnar sum overflow");
    let e = add_numeric(NumericCell::I16(i16::MIN), &NumericCell::I16(-1)).unwrap_err();
    assert_eq!(e.message, "columnar sum overflow");
    let e = add_numeric(NumericCell::Int(i64::MAX), &NumericCell::Int(1)).unwrap_err();
    assert_eq!(e.message, "columnar sum overflow");
    let e = add_numeric(NumericCell::Int(1), &NumericCell::I32(1)).unwrap_err();
    assert_eq!(e.code, Code::InvalidArgument);
    assert_eq!(e.message, "columnar sum type mismatch");
    let e = add_numeric(NumericCell::U64(1), &NumericCell::U32(1)).unwrap_err();
    assert_eq!(e.message, "columnar sum type mismatch");
}

#[test]
fn sum_values_skips_nulls_and_keeps_the_width() {
    assert_eq!(sum_values(&vec![]).unwrap(), None);
    assert_eq!(sum_values(&vec![SumCell::Null, SumCell::Null]).unwrap(), None);
    let cells = vec![
        SumCell::Numeric(NumericCell::Int(1)),
        SumCell::Null,
        SumCell::Numeric(NumericCell::Int(2)),
        SumCell::Numeric(NumericCell::Int(3)),
    ];
    assert_eq!(sum_values(&cells).unwrap(), Some(NumericCell::Int(6)));
    // Running totals that stay within `i64` give the exact total.
    let cells = vec![
        SumCell::Numeric(NumericCell::Int(i64::MAX)),
        SumCell::Numeric(NumericCell::Int(-1)),
        SumCell::Null,
        SumCell::Numeric(NumericCell::Int(1)),
    ];
    assert_eq!(sum_values(&cells).unwrap(), Some(NumericCell::Int(i64::MAX)));
    assert_eq!(
        sum_values(&vec![SumCell::Null, SumCell::Numeric(NumericCell::U16(7))]).unwrap(),
        Some(NumericCell::U16(7))
    );
    let e = sum_values(&vec![SumCell::Null, SumCell::Other]).unwrap_err();
    assert_eq!(e.code, Code::InvalidArgument);
    assert_eq!(e.message, "columnar sum requires a numeric column");
    let e = sum_values(&vec![SumCell::Numeric(NumericCell::Int(1)), SumCell::Other]).unwrap_err();
    assert_eq!(e.message, "columnar sum type mismatch");
    let e = sum_values(&vec![
        SumCell::Numeric(NumericCell::Int(1)),
        SumCell::Numeric(NumericCell::U8(1)),
    ])
    .unwrap_err();
    assert_eq!(e.message, "columnar sum type mismatch");
    let e = sum_values(&vec![
        SumCell::Numeric(NumericCell::I8(100)),
        SumCell::Numeric(NumericCell::I8(27)),
        SumCell::Numeric(NumericCell::I8(1)),
    ])
    .unwrap_err();
    assert_eq!(e.message, "columnar sum overflow");
    // A failure stops the sum: what follows is not read.
    let e = sum_values(&vec![SumCell::Other, SumCell::Numeric(NumericCell::Int(1))]).unwrap_err();
    assert_eq!(e.message, "columnar sum requires a numeric column");
}

fn walk_record(ordinal: u64, row_start: u64, row_count: u64) -> Value {
    Value::Array(vec![
        Value::Uint(ordinal),
        Value::Uint(row_start),
        Value::Uint(row_count),
        Value::Uint(COLUMNAR_SEGMENT_ENCODING_NATIVE_CBOR),
        Value::Bytes(vec![7u8; 32]),
        Value::Bytes(vec![1, 2, 3]),
        Value::Array(vec![]),
    ])
}

#[test]
fn segment_walk_expects_each_ordinal_and_first_row() {
    let mut walk = SegmentWalk::new();
    assert_eq!((walk.ordinal(), walk.row_start()), (0, 0));
    let head = walk.head(walk_record(0, 0, 3)).unwrap();
    assert_eq!(head.row_count, 3);
    assert_eq!(head.bytes, vec![1, 2, 3]);
    walk.advance(head.row_count);
    assert_eq!((walk.ordinal(), walk.row_start()), (1, 3));
    let e = walk.head(walk_record(2, 3, 1)).unwrap_err();
    assert_eq!(e.code, Code::CorruptObject);
    assert_eq!(e.message, "columnar segment ordinal mismatch");
    let e = walk.head(walk_record(1, 0, 1)).unwrap_err();
    assert_eq!(e.message, "columnar segment row range mismatch");
    let head = walk.head(walk_record(1, 3, 2)).unwrap();
    walk.advance(head.row_count);
    assert_eq!((walk.ordinal(), walk.row_start()), (2, 5));
    assert!(walk.check(2, 5).is_ok());
    assert_eq!(walk.check(1, 5).unwrap_err().message, "columnar segment ordinal mismatch");
    assert_eq!(walk.check(2, 4).unwrap_err().message, "columnar segment row range mismatch");
}

/// The Sum aggregate's view of a test cell.
fn sum_cell(cell: &Cell) -> SumCell {
    match cell {
        Cell::Null => SumCell::Null,
        Cell::Int(i) => SumCell::Numeric(NumericCell::Int(*i)),
        Cell::Text(_) => SumCell::Other,
    }
}

/// How a test cell compares with another of its type.
fn cell_order(a: &Cell, b: &Cell) -> Ordering {
    match (a, b) {
        (Cell::Int(x), Cell::Int(y)) => x.cmp(y),
        (Cell::Text(x), Cell::Text(y)) => x.cmp(y),
        (Cell::Null, Cell::Null) => Ordering::Equal,
        (Cell::Null, _) => Ordering::Less,
        _ => Ordering::Greater,
    }
}

#[test]
fn select_and_aggregate_use_portable_semantics() {
    let mut set = Dataset::new(cols(), 2).unwrap();
    for (i, label) in [(1, "a"), (2, "b"), (3, "c")] {
        append_row(&mut set, vec![Cell::Int(i), Cell::Text(label.into())]).unwrap();
    }
    let (projection, filter) = set.select_indexes(&["label"], Some("id")).unwrap();
    let filter = filter.unwrap();
    let selected: Vec<Vec<Cell>> = set
        .scan()
        .into_iter()
        .filter(|row| cmp_matches(CmpOp::Gt, cell_order(&row[filter], &Cell::Int(1))))
        .map(|row| projection.iter().map(|&i| row[i].clone()).collect())
        .collect();
    assert_eq!(selected, vec![vec![Cell::Text("b".into())], vec![Cell::Text("c".into())]]);
    let aggregates =
        vec![ColumnarAggregate { op: ColumnarAggregateOp::Sum, column: Some("id".into()) }];
    let (filter, indexes) = set.aggregate_indexes(&aggregates, None).unwrap();
    assert_eq!(filter, None);
    let index = indexes[0].unwrap();
    let cells: Vec<SumCell> = set.scan().into_iter().map(|row| sum_cell(&row[index])).collect();
    assert_eq!(sum_values(&cells).unwrap(), Some(NumericCell::Int(6)));
}
