//! The laws of the profile: one canonical form per value, in both directions.

use vstd::prelude::*;
use crate::canonical::{
    lemma_parse_value_canonical, lemma_parse_value_is_canonical, lemma_parse_value_well_formed,
};
use crate::identity::{canonical, lemma_canonical_reads_back, lemma_reads_back_whole};
use crate::normalize::{lemma_zero_normalized, maps_sorted, zero_normalized};
use crate::truncation::{lemma_parse_value_agrees, lemma_parse_value_prefix};
use crate::lemmas::{
    keys_ascending, lemma_head_parses, lemma_parse_value_array, lemma_parse_value_int,
    lemma_sort_ascending,
};
use crate::roundtrip::{lemma_encoded_parses, lemma_parses_exactly_at, well_formed};
use crate::spec::{
    bytes_lt, concat_pairs, decode_bytes, decode_object_bytes, encode_items, encode_pairs,
    encode_value, floats_finite, floats_finite_items, floats_finite_pairs, head, insert_by_key,
    object_array, parse_items, parse_value,
    sort_by_key, EncodedPair,
};
use crate::value::{CborValue, CodecError, EPOCH, MAX_DEPTH, NEGATIVE_ZERO_BITS};

verus! {

broadcast use {vstd::seq::group_seq_axioms, vstd::seq_lib::group_seq_properties};

/// Decoding accepts only canonical bytes: whatever `decode` yields, encoding it gives back
/// exactly the bytes it was decoded from.
pub proof fn law_decode_accepts_only_canonical_bytes(b: Seq<u8>)
    ensures
        decode_bytes(b) matches Ok(v) ==> encode_value(v) == Ok::<Seq<u8>, CodecError>(b),
{
    lemma_parse_value_canonical(b, 0);
    if let Ok((v, k)) = parse_value(b, 0) {
        if k == b.len() {
            assert(b.take(k as int) =~= b);
        }
    }
}

/// Encoded bytes decode: a value within the profile's limits (nesting depth at most
/// `MAX_DEPTH`, every length a 64-bit argument, no two map keys that encode alike) whose floats
/// are all finite encodes, its encoding decodes, and the decoded value encodes to the same
/// bytes.
pub proof fn law_encoded_bytes_decode(v: CborValue)
    requires
        well_formed(v, 0),
        floats_finite(v),
    ensures
        encode_value(v) is Ok,
        decode_bytes(encode_value(v)->Ok_0) is Ok,
        encode_value(decode_bytes(encode_value(v)->Ok_0)->Ok_0) == encode_value(v),
{
    law_encode_fails_only_on_non_finite_floats(v);
    let b = encode_value(v)->Ok_0;
    lemma_encoded_parses(v, 0);
    lemma_parses_exactly_at(b, 0, Seq::empty());
    assert(b + Seq::<u8>::empty() =~= b);
    law_decode_accepts_only_canonical_bytes(b);
}

/// Decoded values round trip: re-encoding a decoded value and decoding the result gives the
/// same value.
pub proof fn law_decoded_values_round_trip(b: Seq<u8>)
    ensures
        decode_bytes(b) matches Ok(v) ==> encode_value(v) is Ok && decode_bytes(encode_value(v)->Ok_0)
            == Ok::<CborValue, CodecError>(v),
{
    law_decode_accepts_only_canonical_bytes(b);
}

/// `-0.0` encodes as `+0.0`.
pub proof fn law_negative_zero_encodes_as_positive_zero()
    ensures
        encode_value(CborValue::Float(NEGATIVE_ZERO_BITS)) == encode_value(CborValue::Float(0)),
{
    assert(NEGATIVE_ZERO_BITS & crate::value::FLOAT_EXPONENT_MASK != crate::value::FLOAT_EXPONENT_MASK)
        by (bit_vector);
    assert(0u64 & crate::value::FLOAT_EXPONENT_MASK != crate::value::FLOAT_EXPONENT_MASK) by (bit_vector);
}

proof fn lemma_insert_to_multiset(sorted: Seq<EncodedPair>, p: EncodedPair)
    ensures
        insert_by_key(sorted, p).to_multiset() == sorted.to_multiset().insert(p),
    decreases sorted.len(),
{
    broadcast use vstd::seq_lib::to_multiset_build, vstd::multiset::group_multiset_axioms;

    if sorted.len() > 0 && bytes_lt(p.0, sorted.last().0) {
        let t = sorted.drop_last();
        lemma_insert_to_multiset(t, p);
        assert(t.push(sorted.last()) =~= sorted);
        assert(insert_by_key(sorted, p).to_multiset() =~= sorted.to_multiset().insert(p));
    }
}

proof fn lemma_sort_to_multiset(s: Seq<EncodedPair>)
    ensures
        sort_by_key(s).to_multiset() == s.to_multiset(),
    decreases s.len(),
{
    broadcast use vstd::seq_lib::to_multiset_build, vstd::multiset::group_multiset_axioms;

    if s.len() > 0 {
        lemma_sort_to_multiset(s.drop_last());
        lemma_insert_to_multiset(sort_by_key(s.drop_last()), s.last());
        assert(s.drop_last().push(s.last()) =~= s);
    }
}

/// A map encodes its entries in ascending canonical key order: when encoding succeeds, the
/// entries it writes are exactly the encoded entries, rearranged, with key bytes that never
/// descend from one entry to the next.
pub proof fn law_map_entries_written_in_ascending_key_order(pairs: Seq<(CborValue, CborValue)>)
    requires
        encode_value(CborValue::Mapping(pairs)) is Ok,
    ensures
        ({
            let entries = encode_pairs(pairs)->Ok_0;
            let written = sort_by_key(entries);
            &&& encode_value(CborValue::Mapping(pairs))->Ok_0 == head(5, pairs.len() as u64)
                + concat_pairs(written)
            &&& written.to_multiset() == entries.to_multiset()
            &&& keys_ascending(written)
        }),
{
    let entries = encode_pairs(pairs)->Ok_0;
    lemma_sort_to_multiset(entries);
    lemma_sort_ascending(entries);
}

/// Reading an unsigned integer item from the front of `head(0, n) + rest` gives `n` and spans
/// the head.
proof fn lemma_uint_item(n: u64, rest: Seq<u8>, depth: int)
    requires
        depth <= MAX_DEPTH,
    ensures
        parse_value(head(0, n) + rest, depth) == Ok::<(CborValue, nat), CodecError>(
            (CborValue::Uint(n), head(0, n).len() as nat),
        ),
{
    let h = head(0, n);
    let s = h + rest;
    lemma_head_parses(0, n, rest);
    assert(s.drop_first() =~= h.drop_first() + rest);
    assert(s[0] == h[0]);
    lemma_parse_value_int(s, depth);
}

/// A successful read of `n` items yields `n` items.
proof fn lemma_parse_items_len(s: Seq<u8>, depth: int, n: nat)
    requires
        parse_items(s, depth, n) is Ok,
    ensures
        parse_items(s, depth, n)->Ok_0.0.len() == n,
    decreases n,
{
    if n > 0 {
        let (v, k) = parse_value(s, depth)->Ok_0;
        lemma_parse_items_len(s.skip(k as int), depth, (n - 1) as nat);
    }
}

/// The bytes of an object: the array head, the epoch, the type code, then the fields.
proof fn lemma_object_encoding(type_code: u16, fields: Seq<CborValue>)
    requires
        encode_value(object_array(type_code, fields)) is Ok,
    ensures
        encode_items(fields) is Ok,
        encode_value(object_array(type_code, fields)) == Ok::<Seq<u8>, CodecError>(
            head(4, (fields.len() + 2) as u64) + (head(0, EPOCH) + (head(0, type_code as u64)
                + encode_items(fields)->Ok_0)),
        ),
{
    let items = seq![CborValue::Uint(EPOCH), CborValue::Uint(type_code as u64)] + fields;
    assert(items.drop_first() =~= seq![CborValue::Uint(type_code as u64)] + fields);
    assert(items.drop_first().drop_first() =~= fields);
    let h1 = head(0, EPOCH);
    let h2 = head(0, type_code as u64);
    assert(encode_items(items) is Ok);
    assert(items[0] == CborValue::Uint(EPOCH));
    let d = items.drop_first();
    assert(d[0] == CborValue::Uint(type_code as u64));
    assert(encode_items(d) is Ok);
    assert(encode_items(d.drop_first()) is Ok);
    assert(d.drop_first() == fields);
    let fb = encode_items(fields)->Ok_0;
    assert(encode_value(d[0]) == Ok::<Seq<u8>, CodecError>(h2));
    assert(encode_items(d.drop_first()) == Ok::<Seq<u8>, CodecError>(fb));
    assert(encode_value(items[0]) == Ok::<Seq<u8>, CodecError>(h1));
    assert(encode_items(d) == Ok::<Seq<u8>, CodecError>(h2 + fb));
    assert(encode_items(items) == Ok::<Seq<u8>, CodecError>(h1 + (h2 + fb)));
}

/// Reading an array head followed by its items reads the items.
proof fn lemma_array_bytes(n: u64, body: Seq<u8>)
    requires
        parse_value(head(4, n) + body, 0) is Ok,
    ensures
        parse_items(body, 1, n as nat) is Ok,
        parse_value(head(4, n) + body, 0)->Ok_0.0 == CborValue::Array(parse_items(body, 1, n as nat)->Ok_0.0),
{
    let hd = head(4, n);
    let b = hd + body;
    lemma_head_parses(4, n, body);
    assert(b[0] == hd[0]);
    assert(b.drop_first() =~= hd.drop_first() + body);
    lemma_parse_value_array(b, 0);
    let k = (hd.len() - 1) as nat;
    assert(b.skip((1 + k) as int) =~= body);
}

/// Reading an object's items: the epoch, the type code, then what the field bytes read as.
proof fn lemma_object_items(type_code: u16, n: nat, fb: Seq<u8>)
    requires
        parse_items(head(0, EPOCH) + (head(0, type_code as u64) + fb), 1, n + 2) is Ok,
    ensures
        parse_items(fb, 1, n) is Ok,
        parse_items(head(0, EPOCH) + (head(0, type_code as u64) + fb), 1, n + 2)->Ok_0.0 == seq![
            CborValue::Uint(EPOCH),
            CborValue::Uint(type_code as u64),
        ] + parse_items(fb, 1, n)->Ok_0.0,
{
    let h1 = head(0, EPOCH);
    let h2 = head(0, type_code as u64);
    let body = h1 + (h2 + fb);
    lemma_uint_item(EPOCH, h2 + fb, 1);
    assert(body.skip(h1.len() as int) =~= h2 + fb);
    lemma_uint_item(type_code as u64, fb, 1);
    assert((h2 + fb).skip(h2.len() as int) =~= fb);
    assert(parse_items(h2 + fb, 1, n + 1) is Ok);
    let rest_items = parse_items(fb, 1, n)->Ok_0.0;
    assert(parse_items(h2 + fb, 1, n + 1)->Ok_0.0 == seq![CborValue::Uint(type_code as u64)] + rest_items);
    assert(seq![CborValue::Uint(EPOCH)] + (seq![CborValue::Uint(type_code as u64)] + rest_items)
        =~= seq![CborValue::Uint(EPOCH), CborValue::Uint(type_code as u64)] + rest_items);
}

/// Object framing round trips: for a type code and fields within the profile's limits whose
/// floats are all finite, `encode_object` writes bytes, and they decode as an object of that
/// type code, with as many fields, which encode as the given fields did.
pub proof fn law_object_framing_round_trips(type_code: u16, fields: Seq<CborValue>)
    requires
        well_formed(object_array(type_code, fields), 0),
        floats_finite(object_array(type_code, fields)),
    ensures
        encode_value(object_array(type_code, fields)) is Ok,
        ({
            let b = encode_value(object_array(type_code, fields))->Ok_0;
            decode_object_bytes(b) matches Ok((t, fs)) && t == type_code && fs.len() == fields.len()
                && encode_value(object_array(type_code, fs)) == encode_value(object_array(type_code, fields))
        }),
{
    let v = object_array(type_code, fields);
    law_encoded_bytes_decode(v);
    let b = encode_value(v)->Ok_0;
    law_decode_accepts_only_canonical_bytes(b);
    lemma_object_encoding(type_code, fields);
    let fb = encode_items(fields)->Ok_0;
    let n = fields.len();
    lemma_array_bytes((n + 2) as u64, head(0, EPOCH) + (head(0, type_code as u64) + fb));
    lemma_object_items(type_code, n, fb);
    let rest_items = parse_items(fb, 1, fields.len())->Ok_0.0;
    lemma_parse_items_len(fb, 1, fields.len());
    let dv = parse_value(b, 0)->Ok_0.0;
    assert(dv == object_array(type_code, rest_items));
    assert(decode_bytes(b) == Ok::<CborValue, CodecError>(dv));
    let its = seq![CborValue::Uint(EPOCH), CborValue::Uint(type_code as u64)] + rest_items;
    assert(its.skip(2) =~= rest_items);
    assert(its[0] == CborValue::Uint(EPOCH));
    assert(its[1] == CborValue::Uint(type_code as u64));
    assert((type_code as u64) as u16 == type_code);
}

proof fn lemma_items_failures(items: Seq<CborValue>)
    ensures
        encode_items(items) is Ok <==> floats_finite_items(items),
        encode_items(items) matches Err(e) ==> e == CodecError::NonCanonicalFloat,
    decreases items,
{
    if items.len() > 0 {
        vstd::seq::axiom_seq_index_decreases(items, 0);
        vstd::seq::axiom_seq_subrange_decreases(items, 1, items.len() as int);
        law_encode_fails_only_on_non_finite_floats(items[0]);
        lemma_items_failures(items.drop_first());
    }
}

proof fn lemma_pairs_failures(pairs: Seq<(CborValue, CborValue)>)
    ensures
        encode_pairs(pairs) is Ok <==> floats_finite_pairs(pairs),
        encode_pairs(pairs) matches Err(e) ==> e == CodecError::NonCanonicalFloat,
    decreases pairs,
{
    if pairs.len() > 0 {
        vstd::seq::axiom_seq_index_decreases(pairs, 0);
        vstd::seq::axiom_seq_subrange_decreases(pairs, 1, pairs.len() as int);
        law_encode_fails_only_on_non_finite_floats(pairs[0].0);
        law_encode_fails_only_on_non_finite_floats(pairs[0].1);
        lemma_pairs_failures(pairs.drop_first());
    }
}

/// Encoding fails only on a non-finite float (NaN or an infinity): a value encodes exactly when
/// every float inside it, at any depth, is finite, and the failure is then `NonCanonicalFloat`.
/// Maps whose keys encode alike are written too.
pub proof fn law_encode_fails_only_on_non_finite_floats(v: CborValue)
    ensures
        encode_value(v) is Ok <==> floats_finite(v),
        encode_value(v) matches Err(e) ==> e == CodecError::NonCanonicalFloat,
    decreases v,
{
    match v {
        CborValue::Array(items) => lemma_items_failures(items),
        CborValue::Mapping(pairs) => lemma_pairs_failures(pairs),
        _ => {},
    }
}

/// Decoded values lie within the profile's limits: nesting no deeper than `MAX_DEPTH`, every
/// length a 64-bit argument, and no map with two keys that encode alike. Deeper input and
/// repeated keys are rejected, so decoding and encoding are inverse on exactly the values within
/// those limits.
pub proof fn law_decoded_values_are_well_formed(b: Seq<u8>)
    ensures
        decode_bytes(b) matches Ok(v) ==> well_formed(v, 0),
{
    lemma_parse_value_well_formed(b, 0);
}

/// Canonical values round trip exactly: a value in canonical form (no `-0.0`, map entries in
/// strictly ascending encoded-key order) within the profile's limits, whose floats are all
/// finite, encodes and decodes from its encoding to exactly itself.
pub proof fn law_canonical_values_round_trip(v: CborValue)
    requires
        well_formed(v, 0),
        canonical(v),
        floats_finite(v),
    ensures
        encode_value(v) is Ok,
        decode_bytes(encode_value(v)->Ok_0) == Ok::<CborValue, CodecError>(v),
{
    law_encode_fails_only_on_non_finite_floats(v);
    let b = encode_value(v)->Ok_0;
    lemma_canonical_reads_back(v, 0);
    lemma_reads_back_whole(b, v, 0);
}

/// Decoded values are in canonical form; with the laws above, decoding and encoding are
/// inverse bijections between the accepted bytes and the canonical values within the profile's
/// limits.
pub proof fn law_decoded_values_are_canonical(b: Seq<u8>)
    ensures
        decode_bytes(b) matches Ok(v) ==> canonical(v),
{
    lemma_parse_value_is_canonical(b, 0);
}

/// Canonical objects round trip exactly: the bytes `encode_object` writes for a type code and
/// fields in canonical form within the profile's limits, whose floats are all finite, decode to
/// that type code and exactly those fields.
pub proof fn law_canonical_objects_round_trip(type_code: u16, fields: Seq<CborValue>)
    requires
        well_formed(object_array(type_code, fields), 0),
        canonical(object_array(type_code, fields)),
        floats_finite(object_array(type_code, fields)),
    ensures
        encode_value(object_array(type_code, fields)) is Ok,
        decode_object_bytes(encode_value(object_array(type_code, fields))->Ok_0) == Ok::<
            (u16, Seq<CborValue>),
            CodecError,
        >((type_code, fields)),
{
    law_encode_fails_only_on_non_finite_floats(object_array(type_code, fields));
    law_canonical_values_round_trip(object_array(type_code, fields));
    let items = seq![CborValue::Uint(EPOCH), CborValue::Uint(type_code as u64)] + fields;
    assert(items.skip(2) =~= fields);
    assert(items[0] == CborValue::Uint(EPOCH));
    assert(items[1] == CborValue::Uint(type_code as u64));
    assert((type_code as u64) as u16 == type_code);
}

/// A single top-level item is accepted and nothing after it: bytes that decode, followed by
/// any non-empty bytes, fail with `TrailingBytes`.
pub proof fn law_trailing_bytes_are_rejected(b: Seq<u8>, rest: Seq<u8>)
    requires
        decode_bytes(b) is Ok,
        rest.len() > 0,
    ensures
        decode_bytes(b + rest) == Err::<CborValue, CodecError>(CodecError::TrailingBytes),
{
    let (v, k) = parse_value(b, 0)->Ok_0;
    assert((b + rest).take(k as int) =~= b.take(k as int));
    lemma_parse_value_agrees(b, b + rest, 0);
}

/// Truncated encodings are rejected as truncated: every proper beginning of bytes that decode
/// fails with `UnexpectedEof`, never with another failure and never accepted.
pub proof fn law_truncated_encodings_fail_at_end_of_input(b: Seq<u8>, k: int)
    requires
        decode_bytes(b) is Ok,
        0 <= k < b.len(),
    ensures
        decode_bytes(b.take(k)) == Err::<CborValue, CodecError>(CodecError::UnexpectedEof),
{
    assert(b.take(k) =~= b.take(b.take(k).len() as int));
    lemma_parse_value_prefix(b, b.take(k), 0);
}

/// Values round trip up to the sign of zero: a value within the profile's limits whose floats
/// are all finite and whose maps list their entries in strictly ascending encoded-key order
/// encodes, and decodes from its encoding to itself with every `-0.0` made `+0.0`; integers
/// keep their signedness, byte strings and text come back unchanged.
pub proof fn law_values_round_trip_up_to_zero_sign(v: CborValue)
    requires
        well_formed(v, 0),
        maps_sorted(v),
        floats_finite(v),
    ensures
        encode_value(v) is Ok,
        decode_bytes(encode_value(v)->Ok_0) == Ok::<CborValue, CodecError>(zero_normalized(v)),
{
    law_encode_fails_only_on_non_finite_floats(v);
    lemma_zero_normalized(v, 0);
    law_encode_fails_only_on_non_finite_floats(zero_normalized(v));
    law_canonical_values_round_trip(zero_normalized(v));
}

} // verus!
