use loom::client::{
    capabilities_cbor, chunk_bytes, daemon_unavailable, kek_bytes, lane_ticket_placement,
    make_result_view, parse_ticket_field_cardinality_arg, random_bytes, result_view_id,
    row_cells, str_equals, HandleId, LaneAnchoredPlacement, LaneTicketPlacement, ResultView,
    TicketFieldCardinality, KEY_LEN, TRANSFER_EXPORT_CHUNK_BYTES,
};
use loom::error::Code;
use loom::{decode, encode, Value};

#[test]
fn chunks_are_bounded_and_concatenate_to_the_input() {
    let bytes: Vec<u8> = (0..10u8).collect();
    let chunks = chunk_bytes(&bytes, 4);
    assert_eq!(chunks, vec![vec![0, 1, 2, 3], vec![4, 5, 6, 7], vec![8, 9]]);
    assert_eq!(chunks.concat(), bytes);
}

#[test]
fn chunking_edge_cases() {
    assert!(chunk_bytes(&[], 4).is_empty());
    assert_eq!(chunk_bytes(&[1, 2], 0), vec![vec![1], vec![2]]);
    assert_eq!(chunk_bytes(&[1, 2, 3, 4], 4), vec![vec![1, 2, 3, 4]]);
    assert_eq!(TRANSFER_EXPORT_CHUNK_BYTES, 1024 * 1024);
}

#[test]
fn result_view_handles_round_trip() {
    let view = make_result_view(0x0102_0304_0506_0708);
    assert_eq!(view.0.kind, "result_view");
    assert_eq!(view.0.id, vec![1, 2, 3, 4, 5, 6, 7, 8]);
    assert_eq!(view.0.generation, 1);
    assert!(view.0.owner_session.is_empty());
    assert_eq!(result_view_id(&view).unwrap(), 0x0102_0304_0506_0708);
    assert_eq!(result_view_id(&make_result_view(u64::MAX)).unwrap(), u64::MAX);
}

#[test]
fn malformed_result_view_ids_are_rejected() {
    let view = ResultView(HandleId {
        kind: "result_view".to_string(),
        id: vec![1, 2, 3],
        generation: 1,
        owner_session: Vec::new(),
    });
    let e = result_view_id(&view).unwrap_err();
    assert_eq!(e.code, Code::InvalidArgument);
    assert_eq!(e.message, "malformed result view handle id");
}

#[test]
fn kek_must_be_thirty_two_bytes() {
    assert_eq!(KEY_LEN, 32);
    assert_eq!(kek_bytes(vec![9; 32]).unwrap(), [9u8; 32]);
    let e = kek_bytes(vec![9; 31]).unwrap_err();
    assert_eq!(e.code, Code::InvalidArgument);
    assert_eq!(e.message, "kek must be 32 bytes");
    assert!(kek_bytes(vec![9; 33]).is_err());
}

#[test]
fn random_bytes_fill_the_buffer() {
    let mut a = [0u8; 32];
    let mut b = [0u8; 32];
    random_bytes(&mut a).unwrap();
    random_bytes(&mut b).unwrap();
    assert_ne!(a, b);
}

#[test]
fn daemon_operations_are_unsupported_in_process() {
    let e = daemon_unavailable("daemon_start");
    assert_eq!(e.code, Code::Unsupported);
    assert_eq!(
        e.message,
        "daemon_start is host process control and is not available on the in-process client"
    );
}

#[test]
fn lane_placement_checks_anchors() {
    assert_eq!(
        lane_ticket_placement(LaneTicketPlacement::First, None).unwrap(),
        LaneAnchoredPlacement::First
    );
    assert_eq!(
        lane_ticket_placement(LaneTicketPlacement::Last, Some("")).unwrap(),
        LaneAnchoredPlacement::Last
    );
    assert_eq!(
        lane_ticket_placement(LaneTicketPlacement::Before, Some("t1")).unwrap(),
        LaneAnchoredPlacement::Before("t1")
    );
    assert_eq!(
        lane_ticket_placement(LaneTicketPlacement::After, Some("t2")).unwrap(),
        LaneAnchoredPlacement::After("t2")
    );
    let e = lane_ticket_placement(LaneTicketPlacement::First, Some("t1")).unwrap_err();
    assert_eq!(e.code, Code::InvalidArgument);
    assert_eq!(e.message, "placement 'FIRST' rejects an anchor ticket id");
    let e = lane_ticket_placement(LaneTicketPlacement::Last, Some("t1")).unwrap_err();
    assert_eq!(e.message, "placement 'LAST' rejects an anchor ticket id");
    let e = lane_ticket_placement(LaneTicketPlacement::Before, Some("")).unwrap_err();
    assert_eq!(e.message, "placement 'BEFORE' requires an anchor ticket id");
    let e = lane_ticket_placement(LaneTicketPlacement::After, None).unwrap_err();
    assert_eq!(e.message, "placement 'AFTER' requires an anchor ticket id");
}

#[test]
fn field_cardinality_names() {
    assert_eq!(
        parse_ticket_field_cardinality_arg("single").unwrap(),
        TicketFieldCardinality::Single
    );
    assert_eq!(
        parse_ticket_field_cardinality_arg("optional").unwrap(),
        TicketFieldCardinality::Optional
    );
    assert_eq!(
        parse_ticket_field_cardinality_arg("list").unwrap(),
        TicketFieldCardinality::List { min_items: 0, max_items: None }
    );
    let e = parse_ticket_field_cardinality_arg("many").unwrap_err();
    assert_eq!(e.code, Code::InvalidArgument);
    assert_eq!(e.message, "ticket field cardinality must be single, optional, or list");
    assert!(parse_ticket_field_cardinality_arg("Single").is_err());
}

#[test]
fn string_equality() {
    assert!(str_equals("abc", "abc"));
    assert!(!str_equals("abc", "abd"));
    assert!(!str_equals("abc", "ab"));
}

#[test]
fn rows_are_cell_arrays() {
    let row = encode(&Value::Array(vec![Value::Uint(1), Value::Null])).unwrap();
    assert_eq!(row_cells(&row).unwrap(), vec![Value::Uint(1), Value::Null]);
    let e = row_cells(&encode(&Value::Uint(1)).unwrap()).unwrap_err();
    assert_eq!(e.code, Code::CorruptObject);
    assert_eq!(e.message, "row is not a cell array");
    let e = row_cells(&[0x01, 0x02]).unwrap_err();
    assert_eq!(e.code, Code::CorruptObject);
    assert_eq!(e.message, "row cbor: trailing bytes after the top-level item");
}

#[test]
fn capabilities_encode_as_a_text_array() {
    let bytes = capabilities_cbor(vec!["sql".to_string(), "vector".to_string()]).unwrap();
    assert_eq!(
        decode(&bytes).unwrap(),
        Value::Array(vec![Value::Text("sql".to_string()), Value::Text("vector".to_string())])
    );
    assert_eq!(capabilities_cbor(Vec::new()).unwrap(), vec![0x80]);
}

#[test]
fn an_empty_buffer_needs_no_randomness() {
    let mut empty: [u8; 0] = [];
    assert!(random_bytes(&mut empty).is_ok());
}
