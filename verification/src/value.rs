//! The Loom Canonical CBOR value model: the executable `Value` and its mathematical view
//! `CborValue`, the codec's error type, and the profile constants.

use vstd::prelude::*;

verus! {

/// The Loom Canonical CBOR schema epoch. Bumped only when the framing or value model changes
/// incompatibly; `decode_object` rejects any other epoch.
pub const EPOCH: u64 = 1;

/// Maximum nesting depth accepted by `decode`. Deeper input is rejected rather than recursing
/// without bound on untrusted data.
pub const MAX_DEPTH: usize = 128;

/// The bit pattern of the IEEE-754 binary64 value `-0.0`.
pub const NEGATIVE_ZERO_BITS: u64 = 0x8000_0000_0000_0000;

/// The exponent field of an IEEE-754 binary64 bit pattern; all ones means NaN or infinity.
pub const FLOAT_EXPONENT_MASK: u64 = 0x7ff0_0000_0000_0000;

/// The mathematical model of a profile value. `Text` holds the characters of the string;
/// `Float` holds the IEEE-754 binary64 bit pattern of the number.
pub enum CborValue {
    Uint(u64),
    Nint(u64),
    Bytes(Seq<u8>),
    Text(Seq<char>),
    Array(Seq<CborValue>),
    Mapping(Seq<(CborValue, CborValue)>),
    Float(u64),
    Bool(bool),
    Null,
}

/// The CBOR data items the profile admits. `Uint`/`Nint` mirror CBOR major types 0/1 (a negative
/// integer with argument `n` is the value `-1 - n`), so decode round trips the wire form exactly
/// rather than collapsing signedness. `Float` carries the IEEE-754 binary64 bit pattern of a
/// 64-bit float (`f64::to_bits`); `Mapping` is a CBOR map given as its ordered key/value pairs.
#[derive(Debug, PartialEq)]
pub enum Value {
    Uint(u64),
    Nint(u64),
    Bytes(Vec<u8>),
    Text(String),
    Array(Vec<Value>),
    Mapping(Vec<(Value, Value)>),
    Float(u64),
    Bool(bool),
    Null,
}

impl Value {
    /// The model of a value; `@` denotes it.
    pub open spec fn model(&self) -> CborValue
        decreases self,
    {
        match self {
            Value::Uint(n) => CborValue::Uint(*n),
            Value::Nint(n) => CborValue::Nint(*n),
            Value::Bytes(b) => CborValue::Bytes(b@),
            Value::Text(t) => CborValue::Text(t@),
            Value::Array(items) => CborValue::Array(
                Seq::new(
                    items@.len(),
                    |i: int|
                        if 0 <= i < items@.len() {
                            items@[i].model()
                        } else {
                            CborValue::Null
                        },
                ),
            ),
            Value::Mapping(pairs) => CborValue::Mapping(
                Seq::new(
                    pairs@.len(),
                    |i: int|
                        if 0 <= i < pairs@.len() {
                            (pairs@[i].0.model(), pairs@[i].1.model())
                        } else {
                            (CborValue::Null, CborValue::Null)
                        },
                ),
            ),
            Value::Float(bits) => CborValue::Float(*bits),
            Value::Bool(b) => CborValue::Bool(*b),
            Value::Null => CborValue::Null,
        }
    }
}

impl View for Value {
    type V = CborValue;

    open spec fn view(&self) -> CborValue {
        self.model()
    }
}

/// The models of a sequence of values, element by element.
pub open spec fn views(s: Seq<Value>) -> Seq<CborValue> {
    Seq::new(s.len(), |i: int| s[i]@)
}

/// The models of a sequence of key/value pairs, element by element.
pub open spec fn pair_views(s: Seq<(Value, Value)>) -> Seq<(CborValue, CborValue)> {
    Seq::new(s.len(), |i: int| (s[i].0@, s[i].1@))
}

/// The integer a CBOR integer item denotes: `n` for `Uint(n)`, `-1 - n` for `Nint(n)`.
pub open spec fn integer_of(v: CborValue) -> int {
    match v {
        CborValue::Uint(n) => n as int,
        CborValue::Nint(n) => -1 - n,
        _ => 0,
    }
}

impl Value {
    /// A signed integer as the matching canonical CBOR major type (0 for `>= 0`, 1 for negatives).
    pub fn integer(v: i64) -> (r: Value)
        ensures
            v >= 0 ==> r@ == CborValue::Uint(v as u64),
            v < 0 ==> r@ == CborValue::Nint((-1 - v) as u64),
            integer_of(r@) == v,
    {
        if v >= 0 {
            Value::Uint(v as u64)
        } else {
            Value::Nint((-1 - v) as u64)
        }
    }
}

/// Copies a byte vector element by element.
fn copy_bytes(b: &Vec<u8>) -> (r: Vec<u8>)
    ensures
        r@ == b@,
{
    let mut out: Vec<u8> = Vec::new();
    let mut i: usize = 0;
    while i < b.len()
        invariant
            i <= b@.len(),
            out@ == b@.take(i as int),
        decreases b@.len() - i,
    {
        out.push(b[i]);
        i = i + 1;
        assert(out@ =~= b@.take(i as int));
    }
    assert(b@.take(i as int) =~= b@);
    out
}

/// Pushing a value pushes its model.
pub proof fn lemma_views_push(s: Seq<Value>, v: Value)
    ensures
        views(s.push(v)) == views(s).push(v@),
{
    assert(views(s.push(v)) =~= views(s).push(v@));
}

/// Pushing a pair pushes the models of its halves.
proof fn lemma_pair_views_push(s: Seq<(Value, Value)>, p: (Value, Value))
    ensures
        pair_views(s.push(p)) == pair_views(s).push((p.0@, p.1@)),
{
    assert(pair_views(s.push(p)) =~= pair_views(s).push((p.0@, p.1@)));
}

/// A deep copy of a value, with the same model.
fn copy_value(value: &Value) -> (r: Value)
    ensures
        r@ == value@,
    decreases value,
{
    match value {
        Value::Uint(n) => Value::Uint(*n),
        Value::Nint(n) => Value::Nint(*n),
        Value::Bytes(b) => Value::Bytes(copy_bytes(b)),
        Value::Text(t) => Value::Text(t.clone()),
        Value::Array(items) => {
            let mut out: Vec<Value> = Vec::new();
            let mut i: usize = 0;
            while i < items.len()
                invariant
                    i <= items@.len(),
                    views(out@) == views(items@.take(i as int)),
                    *value == Value::Array(*items),
                decreases items@.len() - i,
            {
                proof {
                    vstd::std_specs::vec::axiom_vec_index_decreases(*items, i as int);
                    assert(decreases_to!(*value => value->Array_0));
                }
                let c = copy_value(&items[i]);
                proof {
                    lemma_views_push(out@, c);
                    assert(items@.take(i + 1) =~= items@.take(i as int).push(items@[i as int]));
                    lemma_views_push(items@.take(i as int), items@[i as int]);
                }
                out.push(c);
                i = i + 1;
            }
            assert(items@.take(i as int) =~= items@);
            proof {
                lemma_array_view(out);
                lemma_array_view(*items);
            }
            Value::Array(out)
        },
        Value::Mapping(pairs) => {
            let mut out: Vec<(Value, Value)> = Vec::new();
            let mut i: usize = 0;
            while i < pairs.len()
                invariant
                    i <= pairs@.len(),
                    pair_views(out@) == pair_views(pairs@.take(i as int)),
                    *value == Value::Mapping(*pairs),
                decreases pairs@.len() - i,
            {
                proof {
                    vstd::std_specs::vec::axiom_vec_index_decreases(*pairs, i as int);
                    assert(decreases_to!(*value => value->Mapping_0));
                    assert(decreases_to!(pairs@[i as int] => pairs@[i as int].0));
                    assert(decreases_to!(pairs@[i as int] => pairs@[i as int].1));
                }
                let k = copy_value(&pairs[i].0);
                let v = copy_value(&pairs[i].1);
                proof {
                    lemma_pair_views_push(out@, (k, v));
                    assert(pairs@.take(i + 1) =~= pairs@.take(i as int).push(pairs@[i as int]));
                    lemma_pair_views_push(pairs@.take(i as int), pairs@[i as int]);
                }
                out.push((k, v));
                i = i + 1;
            }
            assert(pairs@.take(i as int) =~= pairs@);
            proof {
                lemma_mapping_view(out);
                lemma_mapping_view(*pairs);
            }
            Value::Mapping(out)
        },
        Value::Float(bits) => Value::Float(*bits),
        Value::Bool(b) => Value::Bool(*b),
        Value::Null => Value::Null,
    }
}

impl Clone for Value {
    /// A deep copy with the same model.
    fn clone(&self) -> (r: Value)
        ensures
            r@ == self@,
    {
        copy_value(self)
    }
}

/// A strict-decode or encode failure. Every variant names a specific non-canonical condition the
/// profile forbids.
#[derive(Debug, Clone, Copy, PartialEq, Eq, Structural)]
pub enum CodecError {
    UnexpectedEof,
    TrailingBytes,
    IndefiniteLength,
    NonMinimalInt,
    ReservedAdditionalInfo,
    InvalidUtf8,
    UnsortedMapKeys,
    DuplicateMapKey,
    Tag,
    NonCanonicalFloat,
    UnsupportedSimpleValue,
    DepthExceeded,
    NotAnObject,
    WrongEpoch,
}

/// The human-readable description of a codec failure.
pub open spec fn codec_error_text(e: CodecError) -> Seq<char> {
    match e {
        CodecError::UnexpectedEof => "unexpected end of input"@,
        CodecError::TrailingBytes => "trailing bytes after the top-level item"@,
        CodecError::IndefiniteLength => "indefinite-length item"@,
        CodecError::NonMinimalInt => "non-minimal integer/length encoding"@,
        CodecError::ReservedAdditionalInfo => "reserved additional-info value (28-30)"@,
        CodecError::InvalidUtf8 => "invalid UTF-8 in a text string"@,
        CodecError::UnsortedMapKeys => "map keys not in ascending canonical order"@,
        CodecError::DuplicateMapKey => "duplicate map key"@,
        CodecError::Tag => "CBOR tags are not part of the profile"@,
        CodecError::NonCanonicalFloat => "non-canonical float (NaN, infinity, -0.0, or non-64-bit width)"@,
        CodecError::UnsupportedSimpleValue => "unsupported simple value"@,
        CodecError::DepthExceeded => "nesting deeper than MAX_DEPTH"@,
        CodecError::NotAnObject => "not a Loom object array"@,
        CodecError::WrongEpoch => "wrong schema epoch"@,
    }
}

impl CodecError {
    /// The human-readable description of the failure.
    pub fn message(&self) -> (r: &'static str)
        ensures
            r@ == codec_error_text(*self),
    {
        match self {
            CodecError::UnexpectedEof => "unexpected end of input",
            CodecError::TrailingBytes => "trailing bytes after the top-level item",
            CodecError::IndefiniteLength => "indefinite-length item",
            CodecError::NonMinimalInt => "non-minimal integer/length encoding",
            CodecError::ReservedAdditionalInfo => "reserved additional-info value (28-30)",
            CodecError::InvalidUtf8 => "invalid UTF-8 in a text string",
            CodecError::UnsortedMapKeys => "map keys not in ascending canonical order",
            CodecError::DuplicateMapKey => "duplicate map key",
            CodecError::Tag => "CBOR tags are not part of the profile",
            CodecError::NonCanonicalFloat => "non-canonical float (NaN, infinity, -0.0, or non-64-bit width)",
            CodecError::UnsupportedSimpleValue => "unsupported simple value",
            CodecError::DepthExceeded => "nesting deeper than MAX_DEPTH",
            CodecError::NotAnObject => "not a Loom object array",
            CodecError::WrongEpoch => "wrong schema epoch",
        }
    }
}

/// The model of a `Value::Array` is the array of the models of its items.
pub proof fn lemma_array_view(items: Vec<Value>)
    ensures
        Value::Array(items)@ == CborValue::Array(views(items@)),
{
    let v = Value::Array(items);
    assert(v@ is Array);
    assert(views(items@) =~= v@->Array_0);
}

/// The model of a `Value::Mapping` is the sequence of the models of its pairs.
pub proof fn lemma_mapping_view(pairs: Vec<(Value, Value)>)
    ensures
        Value::Mapping(pairs)@ == CborValue::Mapping(pair_views(pairs@)),
{
    let v = Value::Mapping(pairs);
    assert(v@ is Mapping);
    assert(pair_views(pairs@) =~= v@->Mapping_0);
}

} // verus!
