use loom::cbor;
use loom::{decode, decode_object, encode, encode_object, put_head, CodecError, Reader, Value, EPOCH};

fn text(s: &str) -> Value {
    Value::Text(s.to_string())
}

#[test]
fn encode_fails_only_on_non_finite_floats() {
    assert_eq!(encode(&Value::Float(f64::NAN.to_bits())), Err(CodecError::NonCanonicalFloat));
    assert_eq!(
        encode(&Value::Float(f64::NEG_INFINITY.to_bits())),
        Err(CodecError::NonCanonicalFloat)
    );
    // Keys that encode alike are written, both entries in key order, in their given order; the
    // strict reader refuses those bytes.
    let dup = Value::Mapping(vec![(Value::Uint(1), Value::Uint(1)), (Value::Uint(1), Value::Uint(2))]);
    let bytes = encode(&dup).unwrap();
    assert_eq!(bytes, hex::decode("a201010102").unwrap());
    assert_eq!(decode(&bytes), Err(CodecError::DuplicateMapKey));
    let swapped = Value::Mapping(vec![
        (Value::Uint(2), Value::Null),
        (Value::Uint(1), Value::Uint(2)),
        (Value::Uint(1), Value::Uint(1)),
    ]);
    assert_eq!(encode(&swapped).unwrap(), hex::decode("a30102010102f6").unwrap());
    // A non-finite float nested inside an array fails the whole encoding.
    let nested = Value::Array(vec![Value::Null, Value::Float(f64::INFINITY.to_bits())]);
    assert_eq!(encode(&nested), Err(CodecError::NonCanonicalFloat));
}

#[test]
fn decoded_bytes_re_encode_to_themselves() {
    let inputs = ["a2016161026162", "83f4f5f6", "fb3ff8000000000000", "3903e7"];
    for hex in inputs {
        let bytes = hex::decode(hex).unwrap();
        let v = decode(&bytes).unwrap();
        assert_eq!(encode(&v).unwrap(), bytes, "input {hex}");
        assert_eq!(decode(&encode(&v).unwrap()).unwrap(), v);
    }
}

#[test]
fn nesting_at_the_limit_decodes_and_one_more_fails() {
    let mut ok = vec![0x81u8; loom::MAX_DEPTH];
    ok.push(0x00);
    assert!(decode(&ok).is_ok());
    let mut deep = vec![0x81u8; loom::MAX_DEPTH + 1];
    deep.push(0x00);
    assert_eq!(decode(&deep), Err(CodecError::DepthExceeded));
}

#[test]
fn object_framing_keeps_type_code_and_fields() {
    let fields = vec![Value::Mapping(vec![(text("b"), Value::Null), (text("a"), Value::Bool(true))])];
    let bytes = encode_object(65535, &fields).unwrap();
    let (t, decoded) = decode_object(&bytes).unwrap();
    assert_eq!(t, 65535);
    assert_eq!(decoded.len(), 1);
    assert_eq!(encode(&decoded[0]).unwrap(), encode(&fields[0]).unwrap());
    assert_eq!(EPOCH, 1);
}

#[test]
fn object_framing_rejects_short_arrays_and_large_type_codes() {
    let one = encode(&Value::Array(vec![Value::Uint(1)])).unwrap();
    assert_eq!(decode_object(&one), Err(CodecError::NotAnObject));
    let big = encode(&Value::Array(vec![Value::Uint(1), Value::Uint(65536)])).unwrap();
    assert_eq!(decode_object(&big), Err(CodecError::NotAnObject));
    let texty = encode(&Value::Array(vec![text("1"), Value::Uint(3)])).unwrap();
    assert_eq!(decode_object(&texty), Err(CodecError::NotAnObject));
}

#[test]
fn error_messages_describe_each_failure() {
    let cases = [
        (CodecError::UnexpectedEof, "unexpected end of input"),
        (CodecError::TrailingBytes, "trailing bytes after the top-level item"),
        (CodecError::IndefiniteLength, "indefinite-length item"),
        (CodecError::NonMinimalInt, "non-minimal integer/length encoding"),
        (CodecError::ReservedAdditionalInfo, "reserved additional-info value (28-30)"),
        (CodecError::InvalidUtf8, "invalid UTF-8 in a text string"),
        (CodecError::UnsortedMapKeys, "map keys not in ascending canonical order"),
        (CodecError::DuplicateMapKey, "duplicate map key"),
        (CodecError::Tag, "CBOR tags are not part of the profile"),
        (
            CodecError::NonCanonicalFloat,
            "non-canonical float (NaN, infinity, -0.0, or non-64-bit width)",
        ),
        (CodecError::UnsupportedSimpleValue, "unsupported simple value"),
        (CodecError::DepthExceeded, "nesting deeper than MAX_DEPTH"),
        (CodecError::NotAnObject, "not a Loom object array"),
        (CodecError::WrongEpoch, "wrong schema epoch"),
    ];
    for (e, m) in cases {
        assert_eq!(e.message(), m);
    }
}

#[test]
fn integers_take_the_matching_major_type() {
    assert_eq!(Value::integer(0), Value::Uint(0));
    assert_eq!(Value::integer(i64::MAX), Value::Uint(i64::MAX as u64));
    assert_eq!(Value::integer(-1), Value::Nint(0));
    assert_eq!(Value::integer(i64::MIN), Value::Nint(i64::MAX as u64));
}

#[test]
fn values_clone_deeply() {
    let v = Value::Mapping(vec![(text("k"), Value::Array(vec![Value::Bytes(vec![1, 2]), Value::Null]))]);
    let c = v.clone();
    assert_eq!(c, v);
    assert_eq!(encode(&c).unwrap(), encode(&v).unwrap());
}

#[test]
fn heads_use_the_shortest_argument() {
    let mut out = Vec::new();
    put_head(&mut out, 0, 23);
    put_head(&mut out, 0, 24);
    put_head(&mut out, 2, 256);
    put_head(&mut out, 4, 70000);
    put_head(&mut out, 1, u64::MAX);
    assert_eq!(
        hex::encode(out),
        "171818590100 9a00011170 3bffffffffffffffff".replace(' ', "")
    );
}

#[test]
fn reader_reads_bytes_and_arguments() {
    let buf = [0x19u8, 0x01, 0x00, 0xaa, 0xbb];
    let mut r = Reader::new(&buf);
    assert_eq!(r.byte().unwrap(), 0x19);
    assert_eq!(r.arg(25).unwrap(), 256);
    assert_eq!(r.pos(), 3);
    assert_eq!(r.take(2).unwrap(), &[0xaa, 0xbb]);
    assert_eq!(r.take(1), Err(CodecError::UnexpectedEof));
    assert_eq!(r.byte(), Err(CodecError::UnexpectedEof));
}

#[test]
fn columnar_decode_wraps_codec_failures() {
    let e = cbor::decode(&[0xc0, 0x00]).unwrap_err();
    assert_eq!(e.message, "CBOR decode failed: CBOR tags are not part of the profile");
    assert_eq!(cbor::encode(&Value::Uint(24)), vec![0x18, 0x18]);
}

#[test]
fn canonical_values_round_trip_exactly() {
    let v = Value::Array(vec![
        Value::Mapping(vec![(Value::Uint(1), text("a")), (Value::Uint(256), Value::Null)]),
        Value::Float(1.5f64.to_bits()),
        Value::Nint(7),
        Value::Bytes(vec![0xff; 3]),
    ]);
    assert_eq!(decode(&encode(&v).unwrap()).unwrap(), v);
}

#[test]
fn non_canonical_values_come_back_normalized() {
    let unsorted = Value::Mapping(vec![(Value::Uint(256), Value::Null), (Value::Uint(1), text("a"))]);
    let back = decode(&encode(&unsorted).unwrap()).unwrap();
    assert_ne!(back, unsorted);
    assert_eq!(
        back,
        Value::Mapping(vec![(Value::Uint(1), text("a")), (Value::Uint(256), Value::Null)])
    );
    let negative_zero = Value::Float((-0.0f64).to_bits());
    assert_eq!(decode(&encode(&negative_zero).unwrap()).unwrap(), Value::Float(0));
}

#[test]
fn bytes_after_an_item_are_trailing() {
    for hex in ["00", "8201f6", "a10102", "fb3ff8000000000000"] {
        let mut bytes = hex::decode(hex).unwrap();
        assert!(decode(&bytes).is_ok());
        bytes.push(0x00);
        assert_eq!(decode(&bytes), Err(CodecError::TrailingBytes), "input {hex}+00");
    }
}

#[test]
fn every_proper_prefix_is_truncated() {
    let v = Value::Array(vec![
        Value::Mapping(vec![(text("a"), Value::Uint(300))]),
        Value::Bytes(vec![1, 2, 3]),
        Value::Float(2.5f64.to_bits()),
    ]);
    let bytes = encode(&v).unwrap();
    for k in 0..bytes.len() {
        assert_eq!(decode(&bytes[..k]), Err(CodecError::UnexpectedEof), "prefix {k}");
    }
}

#[test]
fn values_round_trip_up_to_the_sign_of_zero() {
    let v = Value::Array(vec![
        Value::Uint(u64::MAX),
        Value::Nint(u64::MAX),
        Value::Float((-0.0f64).to_bits()),
        text("unicode \u{1f9f5}"),
    ]);
    let back = decode(&encode(&v).unwrap()).unwrap();
    assert_eq!(
        back,
        Value::Array(vec![Value::Uint(u64::MAX), Value::Nint(u64::MAX), Value::Float(0), text("unicode \u{1f9f5}")])
    );
}

#[test]
fn failed_arguments_leave_the_cursor_where_the_original_does() {
    let buf = [0x05u8, 0x00];
    let mut r = Reader::new(&buf);
    assert_eq!(r.arg(28), Err(CodecError::ReservedAdditionalInfo));
    assert_eq!(r.pos(), 0);
    assert_eq!(r.arg(31), Err(CodecError::IndefiniteLength));
    assert_eq!(r.pos(), 0);
    assert_eq!(r.arg(26), Err(CodecError::UnexpectedEof));
    assert_eq!(r.pos(), 0);
    assert_eq!(r.arg(24), Err(CodecError::NonMinimalInt));
    assert_eq!(r.pos(), 1);
}
