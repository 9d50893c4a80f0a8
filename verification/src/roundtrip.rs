//! Encoded bytes read back: the canonical encoding of a value that fits the profile's limits is
//! accepted by the strict reader, spanning exactly the encoding.

use vstd::prelude::*;
use vstd::utf8::{encode_utf8, encode_utf8_valid_utf8};
use crate::lemmas::{
    keys_strictly_ascending, lemma_be8_roundtrip, lemma_bytes_lt_asymmetric,
    lemma_bytes_lt_irreflexive, lemma_bytes_lt_total, lemma_head_parses, lemma_parse_value_array,
    lemma_parse_value_int, lemma_parse_value_map, lemma_parse_value_simple,
    lemma_parse_value_string, lemma_sort_ascending, lemma_sort_len, lemma_sort_members,
};
use vstd::utf8::valid_utf8;
use crate::spec::{
    be8, bytes_lt, concat_pairs, encode_items, encode_pairs, encode_value, float_is_finite,
    float_normalized, has_adjacent_equal_keys, head, parse_entry, parse_items, parse_pairs,
    parse_value, sort_by_key, EncodedPair,
};
use crate::value::{CborValue, CodecError, MAX_DEPTH};

verus! {

broadcast use {vstd::seq::group_seq_axioms, vstd::seq_lib::group_seq_properties};

/// No two keys of a map share their canonical bytes: once its encoded entries are put in key
/// order, no two neighbours have the same key bytes.
pub open spec fn keys_encode_distinctly(pairs: Seq<(CborValue, CborValue)>) -> bool {
    encode_pairs(pairs) matches Ok(eps) ==> !has_adjacent_equal_keys(sort_by_key(eps))
}

/// A value fits the profile's limits at nesting depth `depth`: no deeper than `MAX_DEPTH`, every
/// length fits the 64-bit argument of a head, and no map has two keys that encode alike (the
/// strict reader refuses such a map as `DuplicateMapKey`).
pub open spec fn well_formed(v: CborValue, depth: int) -> bool
    decreases v,
{
    depth <= MAX_DEPTH && match v {
        CborValue::Bytes(b) => b.len() <= u64::MAX,
        CborValue::Text(t) => encode_utf8(t).len() <= u64::MAX,
        CborValue::Array(items) => items.len() <= u64::MAX && well_formed_items(items, depth + 1),
        CborValue::Mapping(pairs) => pairs.len() <= u64::MAX && well_formed_pairs(pairs, depth + 1)
            && keys_encode_distinctly(pairs),
        _ => true,
    }
}

/// Every item fits the profile's limits at depth `depth`.
pub open spec fn well_formed_items(items: Seq<CborValue>, depth: int) -> bool
    decreases items,
{
    if items.len() == 0 {
        true
    } else {
        proof {
            vstd::seq::axiom_seq_index_decreases(items, 0);
            vstd::seq::axiom_seq_subrange_decreases(items, 1, items.len() as int);
        }
        well_formed(items[0], depth) && well_formed_items(items.drop_first(), depth)
    }
}

/// Every key and value fits the profile's limits at depth `depth`.
pub open spec fn well_formed_pairs(pairs: Seq<(CborValue, CborValue)>, depth: int) -> bool
    decreases pairs,
{
    if pairs.len() == 0 {
        true
    } else {
        proof {
            vstd::seq::axiom_seq_index_decreases(pairs, 0);
            vstd::seq::axiom_seq_subrange_decreases(pairs, 1, pairs.len() as int);
        }
        well_formed(pairs[0].0, depth) && well_formed(pairs[0].1, depth) && well_formed_pairs(
            pairs.drop_first(),
            depth,
        )
    }
}

/// Whatever follows `b`, reading a value at depth `depth` succeeds and spans exactly `b`.
#[verifier::opaque]
pub open spec fn parses_exactly(b: Seq<u8>, depth: int) -> bool {
    forall|rest: Seq<u8>|
        #[trigger] parse_value(b + rest, depth) is Ok && parse_value(b + rest, depth)->Ok_0.1
            == b.len()
}

/// What `parses_exactly` says about one particular continuation.
pub proof fn lemma_parses_exactly_at(b: Seq<u8>, depth: int, rest: Seq<u8>)
    requires
        parses_exactly(b, depth),
    ensures
        parse_value(b + rest, depth) is Ok,
        parse_value(b + rest, depth)->Ok_0.1 == b.len(),
{
    reveal(parses_exactly);
    assert(parse_value(b + rest, depth) is Ok && parse_value(b + rest, depth)->Ok_0.1 == b.len());
}

pub proof fn lemma_well_formed_items_each(items: Seq<CborValue>, depth: int)
    requires
        well_formed_items(items, depth),
    ensures
        forall|i: int| 0 <= i < items.len() ==> well_formed(#[trigger] items[i], depth),
    decreases items.len(),
{
    if items.len() > 0 {
        lemma_well_formed_items_each(items.drop_first(), depth);
        assert forall|i: int| 0 <= i < items.len() implies well_formed(#[trigger] items[i], depth) by {
            if i > 0 {
                assert(items[i] == items.drop_first()[i - 1]);
            }
        }
    }
}

pub proof fn lemma_well_formed_pairs_each(pairs: Seq<(CborValue, CborValue)>, depth: int)
    requires
        well_formed_pairs(pairs, depth),
    ensures
        forall|i: int|
            0 <= i < pairs.len() ==> well_formed(#[trigger] pairs[i].0, depth) && well_formed(
                pairs[i].1,
                depth,
            ),
    decreases pairs.len(),
{
    if pairs.len() > 0 {
        lemma_well_formed_pairs_each(pairs.drop_first(), depth);
        assert forall|i: int| 0 <= i < pairs.len() implies well_formed(#[trigger] pairs[i].0, depth)
            && well_formed(pairs[i].1, depth) by {
            if i > 0 {
                assert(pairs[i] == pairs.drop_first()[i - 1]);
            }
        }
    }
}

/// When the items encode, each of them encodes.
pub proof fn lemma_encode_items_each(items: Seq<CborValue>)
    requires
        encode_items(items) is Ok,
    ensures
        forall|i: int| 0 <= i < items.len() ==> encode_value(#[trigger] items[i]) is Ok,
    decreases items.len(),
{
    if items.len() > 0 {
        lemma_encode_items_each(items.drop_first());
        assert forall|i: int| 0 <= i < items.len() implies encode_value(#[trigger] items[i]) is Ok by {
            if i > 0 {
                assert(items[i] == items.drop_first()[i - 1]);
            }
        }
    }
}

/// When the entries encode, the encoded entries are, position by position, the encodings of
/// the keys and values.
pub proof fn lemma_encode_pairs_each(pairs: Seq<(CborValue, CborValue)>)
    requires
        encode_pairs(pairs) is Ok,
    ensures
        encode_pairs(pairs)->Ok_0.len() == pairs.len(),
        forall|i: int|
            0 <= i < pairs.len() ==> encode_value(#[trigger] pairs[i].0) == Ok::<Seq<u8>, CodecError>(
                encode_pairs(pairs)->Ok_0[i].0,
            ) && encode_value(pairs[i].1) == Ok::<Seq<u8>, CodecError>(encode_pairs(pairs)->Ok_0[i].1),
    decreases pairs.len(),
{
    if pairs.len() > 0 {
        let t = pairs.drop_first();
        lemma_encode_pairs_each(t);
        let eps = encode_pairs(pairs)->Ok_0;
        let reps = encode_pairs(t)->Ok_0;
        assert forall|i: int| 0 <= i < pairs.len() implies encode_value(#[trigger] pairs[i].0) == Ok::<
            Seq<u8>,
            CodecError,
        >(eps[i].0) && encode_value(pairs[i].1) == Ok::<Seq<u8>, CodecError>(eps[i].1) by {
            if i > 0 {
                assert(pairs[i] == t[i - 1]);
                assert(eps[i] == reps[i - 1]);
            }
        }
    }
}

/// Encoded items, followed by anything, read back as that many items spanning the encoding.
proof fn lemma_items_parse(items: Seq<CborValue>, depth: int, rest: Seq<u8>)
    requires
        encode_items(items) is Ok,
        forall|i: int|
            0 <= i < items.len() ==> encode_value(#[trigger] items[i]) is Ok && parses_exactly(
                encode_value(items[i])->Ok_0,
                depth,
            ),
    ensures
        parse_items(encode_items(items)->Ok_0 + rest, depth, items.len()) is Ok,
        parse_items(encode_items(items)->Ok_0 + rest, depth, items.len())->Ok_0.1
            == encode_items(items)->Ok_0.len(),
    decreases items.len(),
{
    if items.len() > 0 {
        let b0 = encode_value(items[0])->Ok_0;
        let t = items.drop_first();
        assert forall|i: int| 0 <= i < t.len() implies encode_value(#[trigger] t[i]) is Ok
            && parses_exactly(encode_value(t[i])->Ok_0, depth) by {
            assert(t[i] == items[i + 1]);
        }
        let bt = encode_items(t)->Ok_0;
        lemma_items_parse(t, depth, rest);
        let s = encode_items(items)->Ok_0 + rest;
        assert(s =~= b0 + (bt + rest));
        lemma_parses_exactly_at(b0, depth, bt + rest);
        assert(s.skip(b0.len() as int) =~= bt + rest);
    }
}

/// Encoded entries whose keys strictly ascend (starting above `prev`), followed by anything,
/// read back as that many entries spanning the encoding.
proof fn lemma_pairs_parse(sorted: Seq<EncodedPair>, depth: int, rest: Seq<u8>, prev: Option<Seq<u8>>)
    requires
        keys_strictly_ascending(sorted),
        sorted.len() > 0 && prev is Some ==> bytes_lt(prev->0, sorted[0].0),
        forall|i: int|
            0 <= i < sorted.len() ==> parses_exactly(#[trigger] sorted[i].0, depth) && parses_exactly(
                sorted[i].1,
                depth,
            ),
    ensures
        parse_pairs(concat_pairs(sorted) + rest, depth, sorted.len(), prev) is Ok,
        parse_pairs(concat_pairs(sorted) + rest, depth, sorted.len(), prev)->Ok_0.1 == concat_pairs(
            sorted,
        ).len(),
    decreases sorted.len(),
{
    if sorted.len() > 0 {
        let kb = sorted[0].0;
        let vb = sorted[0].1;
        let t = sorted.drop_first();
        let bt = concat_pairs(t);
        let s = concat_pairs(sorted) + rest;
        assert(s =~= kb + (vb + (bt + rest)));
        lemma_parses_exactly_at(kb, depth, vb + (bt + rest));
        assert(s.take(kb.len() as int) =~= kb);
        if prev is Some {
            lemma_bytes_lt_irreflexive(kb);
            lemma_bytes_lt_asymmetric(prev->0, kb);
        }
        assert(s.skip(kb.len() as int) =~= vb + (bt + rest));
        lemma_parses_exactly_at(vb, depth, bt + rest);
        assert(parse_entry(s, depth, prev) is Ok);
        assert(s.skip((kb.len() + vb.len()) as int) =~= bt + rest);
        assert(keys_strictly_ascending(t)) by {
            assert forall|i: int| 0 <= i && i + 1 < t.len() implies #[trigger] bytes_lt(t[i].0, t[i + 1].0) by {
                assert(t[i] == sorted[i + 1] && t[i + 1] == sorted[(i + 1) + 1]);
            }
        }
        if t.len() > 0 {
            assert(bytes_lt(sorted[0].0, sorted[0int + 1].0));
        }
        assert forall|i: int| 0 <= i < t.len() implies parses_exactly(#[trigger] t[i].0, depth)
            && parses_exactly(t[i].1, depth) by {
            assert(t[i] == sorted[i + 1]);
        }
        lemma_pairs_parse(t, depth, rest, Some(kb));
    }
}

/// The canonical encoding of a well-formed value, followed by anything, reads back at `depth`
/// spanning exactly the encoding.
#[verifier::spinoff_prover]
#[verifier::rlimit(40)]
pub proof fn lemma_encoded_parses(v: CborValue, depth: int)
    requires
        well_formed(v, depth),
        encode_value(v) is Ok,
    ensures
        parses_exactly(encode_value(v)->Ok_0, depth),
    decreases v,
{
    let b = encode_value(v)->Ok_0;
    match v {
        CborValue::Array(items) => {
            lemma_encode_items_each(items);
            lemma_well_formed_items_each(items, depth + 1);
            assert forall|i: int| 0 <= i < items.len() implies encode_value(#[trigger] items[i]) is Ok
                && parses_exactly(encode_value(items[i])->Ok_0, depth + 1) by {
                lemma_encoded_parses(items[i], depth + 1);
            }
            let body = encode_items(items)->Ok_0;
            reveal(parses_exactly);
            assert forall|rest: Seq<u8>| #[trigger]
                parse_value(b + rest, depth) is Ok && parse_value(b + rest, depth)->Ok_0.1 == b.len() by {
                lemma_array_parses(items, depth, rest);
            }
        },
        CborValue::Mapping(pairs) => {
            let eps = encode_pairs(pairs)->Ok_0;
            let sorted = sort_by_key(eps);
            lemma_encode_pairs_each(pairs);
            lemma_well_formed_pairs_each(pairs, depth + 1);
            lemma_sort_len(eps);
            lemma_sort_members(eps);
            lemma_sort_ascending(eps);
            assert forall|j: int| 0 <= j < pairs.len() implies parses_exactly(
                #[trigger] eps[j].0,
                depth + 1,
            ) && parses_exactly(eps[j].1, depth + 1) by {
                lemma_encoded_parses(pairs[j].0, depth + 1);
                lemma_encoded_parses(pairs[j].1, depth + 1);
            }
            assert forall|i: int| 0 <= i < sorted.len() implies parses_exactly(
                #[trigger] sorted[i].0,
                depth + 1,
            ) && parses_exactly(sorted[i].1, depth + 1) by {
                assert(eps.contains(sorted[i]));
                let j = choose|j: int| 0 <= j < eps.len() && eps[j] == sorted[i];
                assert(parses_exactly(eps[j].0, depth + 1));
            }
            assert(keys_strictly_ascending(sorted)) by {
                assert forall|i: int| 0 <= i && i + 1 < sorted.len() implies #[trigger] bytes_lt(
                    sorted[i].0,
                    sorted[i + 1].0,
                ) by {
                    assert(!bytes_lt(sorted[i + 1].0, sorted[i].0));
                    assert(!has_adjacent_equal_keys(sorted));
                    assert(sorted[i].0 != sorted[i + 1].0);
                    lemma_bytes_lt_total(sorted[i].0, sorted[i + 1].0);
                }
            }
            let body = concat_pairs(sorted);
            reveal(parses_exactly);
            assert forall|rest: Seq<u8>| #[trigger]
                parse_value(b + rest, depth) is Ok && parse_value(b + rest, depth)->Ok_0.1 == b.len() by {
                lemma_map_parses(pairs.len(), sorted, depth, rest);
            }
        },
        _ => {
            reveal(parses_exactly);
            assert forall|rest: Seq<u8>| #[trigger]
                parse_value(b + rest, depth) is Ok && parse_value(b + rest, depth)->Ok_0.1 == b.len() by {
                lemma_scalar_parses(v, depth, rest);
            }
        },
    }
}

/// An array head followed by the encodings of its items reads back as the array.
proof fn lemma_array_parses(items: Seq<CborValue>, depth: int, rest: Seq<u8>)
    requires
        depth <= MAX_DEPTH,
        items.len() <= u64::MAX,
        encode_items(items) is Ok,
        forall|i: int|
            0 <= i < items.len() ==> encode_value(#[trigger] items[i]) is Ok && parses_exactly(
                encode_value(items[i])->Ok_0,
                depth + 1,
            ),
    ensures
        ({
            let b = head(4, items.len() as u64) + encode_items(items)->Ok_0;
            parse_value(b + rest, depth) is Ok && parse_value(b + rest, depth)->Ok_0.1 == b.len()
        }),
{
    let body = encode_items(items)->Ok_0;
    let h = head(4, items.len() as u64);
    let b = h + body;
    let s = b + rest;
    lemma_head_parses(4, items.len() as u64, body + rest);
    assert(s =~= h + (body + rest));
    assert(s.drop_first() =~= h.drop_first() + (body + rest));
    assert(s.skip(h.len() as int) =~= body + rest);
    lemma_parse_value_array(s, depth);
    lemma_items_parse(items, depth + 1, rest);
}

/// A map head followed by entries whose keys strictly ascend reads back as the map.
proof fn lemma_map_parses(n: nat, sorted: Seq<EncodedPair>, depth: int, rest: Seq<u8>)
    requires
        depth <= MAX_DEPTH,
        n <= u64::MAX,
        sorted.len() == n,
        keys_strictly_ascending(sorted),
        forall|i: int|
            0 <= i < sorted.len() ==> parses_exactly(#[trigger] sorted[i].0, depth + 1) && parses_exactly(
                sorted[i].1,
                depth + 1,
            ),
    ensures
        ({
            let b = head(5, n as u64) + concat_pairs(sorted);
            parse_value(b + rest, depth) is Ok && parse_value(b + rest, depth)->Ok_0.1 == b.len()
        }),
{
    let body = concat_pairs(sorted);
    let h = head(5, n as u64);
    let b = h + body;
    let s = b + rest;
    lemma_head_parses(5, n as u64, body + rest);
    assert(s =~= h + (body + rest));
    assert(s.drop_first() =~= h.drop_first() + (body + rest));
    assert(s.skip(h.len() as int) =~= body + rest);
    lemma_parse_value_map(s, depth);
    lemma_pairs_parse(sorted, depth + 1, rest, None);
}

/// An integer head reads back as the integer.
proof fn lemma_int_parses(major: u8, n: u64, depth: int, rest: Seq<u8>)
    requires
        depth <= MAX_DEPTH,
        major <= 1,
    ensures
        parse_value(head(major, n) + rest, depth) is Ok,
        parse_value(head(major, n) + rest, depth)->Ok_0.1 == head(major, n).len(),
{
    let h = head(major, n);
    let s = h + rest;
    lemma_head_parses(major, n, rest);
    assert(s.drop_first() =~= h.drop_first() + rest);
    lemma_parse_value_int(s, depth);
}

/// A string head followed by its bytes reads back spanning both.
proof fn lemma_string_parses(major: u8, x: Seq<u8>, depth: int, rest: Seq<u8>)
    requires
        depth <= MAX_DEPTH,
        major == 2 || major == 3,
        x.len() <= u64::MAX,
        major == 3 ==> valid_utf8(x),
    ensures
        parse_value(head(major, x.len() as u64) + x + rest, depth) is Ok,
        parse_value(head(major, x.len() as u64) + x + rest, depth)->Ok_0.1 == head(
            major,
            x.len() as u64,
        ).len() + x.len(),
{
    let h = head(major, x.len() as u64);
    let s = h + x + rest;
    lemma_head_parses(major, x.len() as u64, x + rest);
    assert(s =~= h + (x + rest));
    assert(s.drop_first() =~= h.drop_first() + (x + rest));
    assert(s.drop_first().subrange(h.len() - 1, h.len() - 1 + x.len()) =~= x);
    lemma_parse_value_string(s, depth);
}

/// The encoding of a finite float reads back spanning its nine bytes.
proof fn lemma_float_parses(bits: u64, depth: int, rest: Seq<u8>)
    requires
        depth <= MAX_DEPTH,
        float_is_finite(bits),
    ensures
        parse_value(seq![0xfbu8] + be8(float_normalized(bits)) + rest, depth) is Ok,
        parse_value(seq![0xfbu8] + be8(float_normalized(bits)) + rest, depth)->Ok_0.1 == 9,
{
    let x = float_normalized(bits);
    let s = seq![0xfbu8] + be8(x) + rest;
    lemma_be8_roundtrip(x, rest);
    assert(s.drop_first() =~= be8(x) + rest);
    assert(0u64 & crate::value::FLOAT_EXPONENT_MASK == 0) by (bit_vector);
    lemma_parse_value_simple(s, depth);
}

/// The encoding of a well-formed value that is neither an array nor a map reads back spanning
/// exactly the encoding.
proof fn lemma_scalar_parses(v: CborValue, depth: int, rest: Seq<u8>)
    requires
        well_formed(v, depth),
        encode_value(v) is Ok,
        !(v is Array),
        !(v is Mapping),
    ensures
        parse_value(encode_value(v)->Ok_0 + rest, depth) is Ok,
        parse_value(encode_value(v)->Ok_0 + rest, depth)->Ok_0.1 == encode_value(v)->Ok_0.len(),
{
    match v {
        CborValue::Uint(n) => {
            lemma_int_parses(0, n, depth, rest);
        },
        CborValue::Nint(n) => {
            lemma_int_parses(1, n, depth, rest);
        },
        CborValue::Bytes(x) => {
            lemma_string_parses(2, x, depth, rest);
        },
        CborValue::Text(t) => {
            encode_utf8_valid_utf8(t);
            lemma_string_parses(3, encode_utf8(t), depth, rest);
        },
        CborValue::Float(bits) => {
            lemma_float_parses(bits, depth, rest);
        },
        CborValue::Bool(b) => {
            lemma_parse_value_simple(encode_value(v)->Ok_0 + rest, depth);
        },
        CborValue::Null => {
            lemma_parse_value_simple(encode_value(v)->Ok_0 + rest, depth);
        },
        _ => {},
    }
}

} // verus!
