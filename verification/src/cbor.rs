//! The columnar facet's CBOR helpers: canonical encode and strict decode with failures reported as
//! corrupt objects, shape checks on decoded items, and a cursor that reads the fields of a record
//! array one by one.

use vstd::prelude::*;
use crate::error::{Code, LoomError};
use crate::spec::{decode_bytes, encode_value};
use crate::value::{codec_error_text, views, CborValue, Value};

verus! {

broadcast use {
    vstd::seq::group_seq_axioms,
    vstd::seq_lib::group_seq_properties,
    vstd::std_specs::vec::group_vec_axioms,
};

/// A failure of class `CorruptObject` with message `m`.
pub open spec fn is_corrupt(e: LoomError, m: Seq<char>) -> bool {
    e.code == Code::CorruptObject && e.message@ == m
}

/// The canonical bytes of a value the profile can encode.
pub fn encode(value: &Value) -> (r: Vec<u8>)
    requires
        encode_value(value@) is Ok,
    ensures
        r@ == encode_value(value@)->Ok_0,
{
    match crate::encode::encode(value) {
        Ok(bytes) => bytes,
        Err(_) => {
            proof {
                assert(false);
            }
            Vec::new()
        },
    }
}

/// Strict decode; a codec failure becomes a `CorruptObject` naming it.
pub fn decode(bytes: &[u8]) -> (r: Result<Value, LoomError>)
    ensures
        match decode_bytes(bytes@) {
            Ok(v) => r matches Ok(w) && w@ == v,
            Err(e) => r matches Err(err) && is_corrupt(err, "CBOR decode failed: "@ + codec_error_text(e)),
        },
{
    match crate::decode::decode(bytes) {
        Ok(v) => Ok(v),
        Err(e) => {
            let message = String::from_str("CBOR decode failed: ").concat(e.message());
            Err(LoomError::new(Code::CorruptObject, message))
        },
    }
}

/// Strict decode of an array, returning its items.
pub fn decode_array(bytes: &[u8]) -> (r: Result<Vec<Value>, LoomError>)
    ensures
        match decode_bytes(bytes@) {
            Ok(CborValue::Array(items)) => r matches Ok(w) && views(w@) == items,
            Ok(_) => r matches Err(err) && is_corrupt(err, "expected CBOR array"@),
            Err(e) => r matches Err(err) && is_corrupt(err, "CBOR decode failed: "@ + codec_error_text(e)),
        },
{
    let value = decode(bytes)?;
    as_array(value)
}

/// The byte-string item carrying a digest.
pub fn digest_value(digest: &[u8; 32]) -> (r: Value)
    ensures
        r@ == CborValue::Bytes(digest@),
{
    let mut out: Vec<u8> = Vec::new();
    let mut i: usize = 0;
    while i < 32
        invariant
            i <= 32,
            digest@.len() == 32,
            out@ == digest@.take(i as int),
        decreases 32 - i,
    {
        out.push(digest[i]);
        i = i + 1;
        assert(out@ =~= digest@.take(i as int));
    }
    assert(digest@.take(32) =~= digest@);
    Value::Bytes(out)
}

/// The items of an array item; `CorruptObject` for any other item.
pub fn as_array(value: Value) -> (r: Result<Vec<Value>, LoomError>)
    ensures
        match value@ {
            CborValue::Array(items) => r matches Ok(w) && views(w@) == items,
            _ => r matches Err(err) && is_corrupt(err, "expected CBOR array"@),
        },
{
    match value {
        Value::Array(items) => {
            proof {
                crate::value::lemma_array_view(items);
            }
            Ok(items)
        },
        _ => Err(LoomError::corrupt("expected CBOR array")),
    }
}

/// The bytes of a byte-string item; `CorruptObject` for any other item.
pub fn as_bytes(value: Value) -> (r: Result<Vec<u8>, LoomError>)
    ensures
        match value@ {
            CborValue::Bytes(b) => r matches Ok(w) && w@ == b,
            _ => r matches Err(err) && is_corrupt(err, "expected CBOR bytes"@),
        },
{
    match value {
        Value::Bytes(bytes) => Ok(bytes),
        _ => Err(LoomError::corrupt("expected CBOR bytes")),
    }
}

/// The text of a text item; `CorruptObject` for any other item.
pub fn as_text(value: Value) -> (r: Result<String, LoomError>)
    ensures
        match value@ {
            CborValue::Text(t) => r matches Ok(w) && w@ == t,
            _ => r matches Err(err) && is_corrupt(err, "expected CBOR text"@),
        },
{
    match value {
        Value::Text(text) => Ok(text),
        _ => Err(LoomError::corrupt("expected CBOR text")),
    }
}

/// The number of an unsigned integer item; `CorruptObject` for any other item.
pub fn as_uint(value: Value) -> (r: Result<u64, LoomError>)
    ensures
        match value@ {
            CborValue::Uint(n) => r == Ok::<u64, LoomError>(n),
            _ => r matches Err(err) && is_corrupt(err, "expected CBOR unsigned integer"@),
        },
{
    match value {
        Value::Uint(n) => Ok(n),
        _ => Err(LoomError::corrupt("expected CBOR unsigned integer")),
    }
}

/// A cursor over the fields of a record array, read in order.
#[derive(Debug)]
pub struct Fields {
    items: Vec<Value>,
    index: usize,
}

impl Fields {
    /// The cursor never passes the end of the record.
    #[verifier::type_invariant]
    spec fn within(&self) -> bool {
        self.index <= self.items.len()
    }

    /// The models of the record's fields.
    pub closed spec fn fields(&self) -> Seq<CborValue> {
        views(self.items@)
    }

    /// The number of fields read so far.
    pub closed spec fn read(&self) -> nat {
        self.index as nat
    }

    /// The field the cursor stands at, when one is left.
    pub open spec fn current(&self) -> CborValue {
        self.fields()[self.read() as int]
    }

    /// Whether a field is left to read.
    pub open spec fn has_next(&self) -> bool {
        self.read() < self.fields().len()
    }

    /// The cursor's state after reading one more field.
    pub open spec fn advanced(&self, next: &Fields) -> bool {
        next.fields() == self.fields() && next.read() == self.read() + 1
    }

    /// A cursor at the first of `items`.
    pub fn new(items: Vec<Value>) -> (r: Fields)
        ensures
            r.fields() == views(items@),
            r.read() == 0,
    {
        Fields { items, index: 0 }
    }

    /// The next field; `CorruptObject` ("missing CBOR field"), with the cursor unmoved, when none
    /// is left.
    pub fn next_field(&mut self) -> (r: Result<Value, LoomError>)
        ensures
            old(self).has_next() ==> (r matches Ok(v) && v@ == old(self).current()
                && old(self).advanced(final(self))),
            !old(self).has_next() ==> (r matches Err(e) && is_corrupt(e, "missing CBOR field"@)
                && *final(self) == *old(self)),
    {
        proof {
            use_type_invariant(&*self);
        }
        if self.index < self.items.len() {
            let value = self.items[self.index].clone();
            self.index = self.index + 1;
            Ok(value)
        } else {
            Err(LoomError::corrupt("missing CBOR field"))
        }
    }

    /// The next field as an unsigned integer.
    pub fn uint(&mut self) -> (r: Result<u64, LoomError>)
        ensures
            old(self).has_next() ==> old(self).advanced(final(self)) && match old(self).current() {
                CborValue::Uint(n) => r == Ok::<u64, LoomError>(n),
                _ => r matches Err(e) && is_corrupt(e, "expected CBOR unsigned integer"@),
            },
            !old(self).has_next() ==> (r matches Err(e) && is_corrupt(e, "missing CBOR field"@)
                && *final(self) == *old(self)),
    {
        let value = self.next_field()?;
        as_uint(value)
    }

    /// The next field as a byte string.
    pub fn bytes(&mut self) -> (r: Result<Vec<u8>, LoomError>)
        ensures
            old(self).has_next() ==> old(self).advanced(final(self)) && match old(self).current() {
                CborValue::Bytes(b) => r matches Ok(w) && w@ == b,
                _ => r matches Err(e) && is_corrupt(e, "expected CBOR bytes"@),
            },
            !old(self).has_next() ==> (r matches Err(e) && is_corrupt(e, "missing CBOR field"@)
                && *final(self) == *old(self)),
    {
        let value = self.next_field()?;
        as_bytes(value)
    }

    /// The next field as text.
    pub fn text(&mut self) -> (r: Result<String, LoomError>)
        ensures
            old(self).has_next() ==> old(self).advanced(final(self)) && match old(self).current() {
                CborValue::Text(t) => r matches Ok(w) && w@ == t,
                _ => r matches Err(e) && is_corrupt(e, "expected CBOR text"@),
            },
            !old(self).has_next() ==> (r matches Err(e) && is_corrupt(e, "missing CBOR field"@)
                && *final(self) == *old(self)),
    {
        let value = self.next_field()?;
        as_text(value)
    }

    /// The next field as an array, returning its items.
    pub fn array(&mut self) -> (r: Result<Vec<Value>, LoomError>)
        ensures
            old(self).has_next() ==> old(self).advanced(final(self)) && match old(self).current() {
                CborValue::Array(items) => r matches Ok(w) && views(w@) == items,
                _ => r matches Err(e) && is_corrupt(e, "expected CBOR array"@),
            },
            !old(self).has_next() ==> (r matches Err(e) && is_corrupt(e, "missing CBOR field"@)
                && *final(self) == *old(self)),
    {
        let value = self.next_field()?;
        as_array(value)
    }

    /// `Ok` when every field has been read; `CorruptObject` ("trailing CBOR fields") otherwise.
    pub fn end(&self) -> (r: Result<(), LoomError>)
        ensures
            self.read() == self.fields().len() ==> r is Ok,
            self.read() != self.fields().len() ==> (r matches Err(e) && is_corrupt(e, "trailing CBOR fields"@)),
    {
        if self.index == self.items.len() {
            Ok(())
        } else {
            Err(LoomError::corrupt("trailing CBOR fields"))
        }
    }
}

} // verus!
