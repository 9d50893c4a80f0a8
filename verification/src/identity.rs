//! Canonical values read back as themselves: a value already in canonical form (no `-0.0`, every
//! map's entries in strictly ascending encoded-key order) within the profile's limits decodes
//! from its encoding to exactly itself, and every decoded value is in canonical form.

use vstd::prelude::*;
use vstd::utf8::{encode_utf8, encode_utf8_decode_utf8, encode_utf8_valid_utf8};
use crate::lemmas::{
    keys_strictly_ascending, lemma_be8_roundtrip, lemma_bytes_lt_asymmetric,
    lemma_bytes_lt_irreflexive, lemma_head_parses, lemma_parse_value_array, lemma_parse_value_int,
    lemma_parse_value_map, lemma_parse_value_simple, lemma_parse_value_string,
};
use crate::roundtrip::{
    lemma_encode_items_each, lemma_encode_pairs_each, lemma_well_formed_items_each,
    lemma_well_formed_pairs_each, well_formed,
};
use crate::spec::{
    be8, bytes_lt, concat_pairs, encode_items, encode_pairs, encode_value, head, parse_entry,
    parse_items, parse_pairs, parse_value,
};
use crate::value::{CborValue, CodecError, MAX_DEPTH, NEGATIVE_ZERO_BITS};

verus! {

broadcast use {vstd::seq::group_seq_axioms, vstd::seq_lib::group_seq_properties};

/// A value in canonical form: no float is `-0.0`, and every map's entries already stand in
/// strictly ascending order of their encoded keys.
pub open spec fn canonical(v: CborValue) -> bool
    decreases v,
{
    match v {
        CborValue::Float(bits) => bits != NEGATIVE_ZERO_BITS,
        CborValue::Array(items) => canonical_items(items),
        CborValue::Mapping(pairs) => canonical_pairs(pairs) && (encode_pairs(pairs) matches Ok(eps)
            ==> keys_strictly_ascending(eps)),
        _ => true,
    }
}

/// Every item is in canonical form.
pub open spec fn canonical_items(items: Seq<CborValue>) -> bool
    decreases items,
{
    if items.len() == 0 {
        true
    } else {
        proof {
            vstd::seq::axiom_seq_index_decreases(items, 0);
            vstd::seq::axiom_seq_subrange_decreases(items, 1, items.len() as int);
        }
        canonical(items[0]) && canonical_items(items.drop_first())
    }
}

/// Every key and value is in canonical form.
pub open spec fn canonical_pairs(pairs: Seq<(CborValue, CborValue)>) -> bool
    decreases pairs,
{
    if pairs.len() == 0 {
        true
    } else {
        proof {
            vstd::seq::axiom_seq_index_decreases(pairs, 0);
            vstd::seq::axiom_seq_subrange_decreases(pairs, 1, pairs.len() as int);
        }
        canonical(pairs[0].0) && canonical(pairs[0].1) && canonical_pairs(pairs.drop_first())
    }
}

/// `b`, followed by anything, reads back at `depth` as exactly `v`, spanning `b`.
#[verifier::opaque]
pub open spec fn reads_back(b: Seq<u8>, v: CborValue, depth: int) -> bool {
    forall|rest: Seq<u8>| #[trigger] parse_value(b + rest, depth) == Ok::<(CborValue, nat), CodecError>((v, b.len()))
}

/// Bytes that read back as `v` decode, on their own, to `v`.
pub proof fn lemma_reads_back_whole(b: Seq<u8>, v: CborValue, depth: int)
    requires
        reads_back(b, v, 0),
    ensures
        crate::spec::decode_bytes(b) == Ok::<CborValue, CodecError>(v),
{
    lemma_reads_back_at(b, v, 0, Seq::empty());
    assert(b + Seq::<u8>::empty() =~= b);
}

/// What `reads_back` says about one particular continuation.
pub proof fn lemma_reads_back_at(b: Seq<u8>, v: CborValue, depth: int, rest: Seq<u8>)
    requires
        reads_back(b, v, depth),
    ensures
        parse_value(b + rest, depth) == Ok::<(CborValue, nat), CodecError>((v, b.len())),
{
    reveal(reads_back);
    assert(parse_value(b + rest, depth) == Ok::<(CborValue, nat), CodecError>((v, b.len())));
}

proof fn lemma_canonical_items_each(items: Seq<CborValue>)
    requires
        canonical_items(items),
    ensures
        forall|i: int| 0 <= i < items.len() ==> canonical(#[trigger] items[i]),
    decreases items.len(),
{
    if items.len() > 0 {
        lemma_canonical_items_each(items.drop_first());
        assert forall|i: int| 0 <= i < items.len() implies canonical(#[trigger] items[i]) by {
            if i > 0 {
                assert(items[i] == items.drop_first()[i - 1]);
            }
        }
    }
}

proof fn lemma_canonical_pairs_each(pairs: Seq<(CborValue, CborValue)>)
    requires
        canonical_pairs(pairs),
    ensures
        forall|i: int| 0 <= i < pairs.len() ==> canonical(#[trigger] pairs[i].0) && canonical(pairs[i].1),
    decreases pairs.len(),
{
    if pairs.len() > 0 {
        lemma_canonical_pairs_each(pairs.drop_first());
        assert forall|i: int| 0 <= i < pairs.len() implies canonical(#[trigger] pairs[i].0) && canonical(
            pairs[i].1,
        ) by {
            if i > 0 {
                assert(pairs[i] == pairs.drop_first()[i - 1]);
            }
        }
    }
}

/// Items whose encodings each read back as themselves, followed by anything, read back as
/// those items spanning their encodings.
#[verifier::spinoff_prover]
#[verifier::rlimit(40)]
proof fn lemma_items_read_back(items: Seq<CborValue>, depth: int, rest: Seq<u8>)
    requires
        encode_items(items) is Ok,
        forall|i: int|
            0 <= i < items.len() ==> encode_value(#[trigger] items[i]) is Ok && reads_back(
                encode_value(items[i])->Ok_0,
                items[i],
                depth,
            ),
    ensures
        parse_items(encode_items(items)->Ok_0 + rest, depth, items.len()) == Ok::<(Seq<CborValue>, nat), CodecError>(
            (items, encode_items(items)->Ok_0.len()),
        ),
    decreases items.len(),
{
    if items.len() == 0 {
        assert(items =~= Seq::<CborValue>::empty());
    } else {
        let b0 = encode_value(items[0])->Ok_0;
        let t = items.drop_first();
        assert forall|i: int| 0 <= i < t.len() implies encode_value(#[trigger] t[i]) is Ok && reads_back(
            encode_value(t[i])->Ok_0,
            t[i],
            depth,
        ) by {
            assert(t[i] == items[i + 1]);
        }
        let bt = encode_items(t)->Ok_0;
        lemma_items_read_back(t, depth, rest);
        let s = encode_items(items)->Ok_0 + rest;
        assert(s =~= b0 + (bt + rest));
        lemma_reads_back_at(b0, items[0], depth, bt + rest);
        assert(s.skip(b0.len() as int) =~= bt + rest);
        assert(seq![items[0]] + t =~= items);
    }
}

/// Entries whose keys and values read back as themselves, with strictly ascending encoded keys
/// starting above `prev`, followed by anything, read back as those entries.
#[verifier::spinoff_prover]
#[verifier::rlimit(60)]
proof fn lemma_pairs_read_back(
    pairs: Seq<(CborValue, CborValue)>,
    depth: int,
    rest: Seq<u8>,
    prev: Option<Seq<u8>>,
)
    requires
        encode_pairs(pairs) is Ok,
        keys_strictly_ascending(encode_pairs(pairs)->Ok_0),
        pairs.len() > 0 && prev is Some ==> bytes_lt(prev->0, encode_pairs(pairs)->Ok_0[0].0),
        forall|i: int|
            0 <= i < pairs.len() ==> reads_back(
                encode_pairs(pairs)->Ok_0[i].0,
                #[trigger] pairs[i].0,
                depth,
            ) && reads_back(encode_pairs(pairs)->Ok_0[i].1, pairs[i].1, depth),
    ensures
        parse_pairs(concat_pairs(encode_pairs(pairs)->Ok_0) + rest, depth, pairs.len(), prev) == Ok::<
            (Seq<(CborValue, CborValue)>, nat),
            CodecError,
        >((pairs, concat_pairs(encode_pairs(pairs)->Ok_0).len())),
    decreases pairs.len(),
{
    let eps = encode_pairs(pairs)->Ok_0;
    lemma_encode_pairs_each(pairs);
    if pairs.len() == 0 {
        assert(pairs =~= Seq::<(CborValue, CborValue)>::empty());
    } else {
        let kb = eps[0].0;
        let vb = eps[0].1;
        let t = pairs.drop_first();
        let teps = encode_pairs(t)->Ok_0;
        assert(eps == seq![(kb, vb)] + teps);
        assert(eps.drop_first() =~= teps);
        let bt = concat_pairs(teps);
        let s = concat_pairs(eps) + rest;
        assert(s =~= kb + (vb + (bt + rest)));
        lemma_reads_back_at(kb, pairs[0].0, depth, vb + (bt + rest));
        assert(s.take(kb.len() as int) =~= kb);
        if prev is Some {
            lemma_bytes_lt_irreflexive(kb);
            lemma_bytes_lt_asymmetric(prev->0, kb);
        }
        assert(s.skip(kb.len() as int) =~= vb + (bt + rest));
        lemma_reads_back_at(vb, pairs[0].1, depth, bt + rest);
        assert(parse_entry(s, depth, prev) == Ok::<(CborValue, CborValue, nat, nat), CodecError>(
            (pairs[0].0, pairs[0].1, kb.len(), kb.len() + vb.len()),
        ));
        assert(s.skip((kb.len() + vb.len()) as int) =~= bt + rest);
        assert(keys_strictly_ascending(teps)) by {
            assert forall|i: int| 0 <= i && i + 1 < teps.len() implies #[trigger] bytes_lt(
                teps[i].0,
                teps[i + 1].0,
            ) by {
                assert(teps[i] == eps[i + 1] && teps[i + 1] == eps[(i + 1) + 1]);
            }
        }
        if t.len() > 0 {
            assert(bytes_lt(eps[0].0, eps[0int + 1].0));
            assert(teps[0] == eps[1]);
        }
        assert forall|i: int| 0 <= i < t.len() implies reads_back(teps[i].0, #[trigger] t[i].0, depth)
            && reads_back(teps[i].1, t[i].1, depth) by {
            assert(t[i] == pairs[i + 1]);
            assert(teps[i] == eps[i + 1]);
        }
        lemma_pairs_read_back(t, depth, rest, Some(kb));
        assert(seq![(pairs[0].0, pairs[0].1)] + t =~= pairs);
    }
}

/// An integer head reads back as the integer.
#[verifier::spinoff_prover]
#[verifier::rlimit(40)]
proof fn lemma_int_reads_back(v: CborValue, depth: int)
    requires
        depth <= MAX_DEPTH,
        v is Uint || v is Nint,
    ensures
        reads_back(encode_value(v)->Ok_0, v, depth),
{
    reveal(reads_back);
    let b = encode_value(v)->Ok_0;
    let (major, n): (u8, u64) = match v {
        CborValue::Uint(n) => (0u8, n),
        CborValue::Nint(n) => (1u8, n),
        _ => (0u8, 0u64),
    };
    assert(b == head(major, n));
    assert forall|rest: Seq<u8>| #[trigger] parse_value(b + rest, depth) == Ok::<(CborValue, nat), CodecError>(
        (v, b.len()),
    ) by {
        let s = b + rest;
        lemma_head_parses(major, n, rest);
        assert(s.drop_first() =~= b.drop_first() + rest);
        lemma_parse_value_int(s, depth);
    }
}

/// A string head followed by its bytes reads back as the byte string or text.
#[verifier::spinoff_prover]
#[verifier::rlimit(40)]
proof fn lemma_string_reads_back(v: CborValue, depth: int)
    requires
        well_formed(v, depth),
        v is Bytes || v is Text,
    ensures
        reads_back(encode_value(v)->Ok_0, v, depth),
{
    reveal(reads_back);
    let b = encode_value(v)->Ok_0;
    let (major, x): (u8, Seq<u8>) = match v {
        CborValue::Bytes(x) => (2u8, x),
        CborValue::Text(t) => (3u8, encode_utf8(t)),
        _ => (2u8, Seq::empty()),
    };
    if let CborValue::Text(t) = v {
        encode_utf8_valid_utf8(t);
        encode_utf8_decode_utf8(t);
    }
    let h = head(major, x.len() as u64);
    assert(b == h + x);
    assert forall|rest: Seq<u8>| #[trigger] parse_value(b + rest, depth) == Ok::<(CborValue, nat), CodecError>(
        (v, b.len()),
    ) by {
        let s = b + rest;
        lemma_head_parses(major, x.len() as u64, x + rest);
        assert(s =~= h + (x + rest));
        assert(s.drop_first() =~= h.drop_first() + (x + rest));
        assert(s.drop_first().subrange(h.len() - 1, h.len() - 1 + x.len()) =~= x);
        lemma_parse_value_string(s, depth);
    }
}

/// A canonical float, `false`, `true` or `null` reads back as itself.
#[verifier::spinoff_prover]
#[verifier::rlimit(40)]
proof fn lemma_simple_reads_back(v: CborValue, depth: int)
    requires
        depth <= MAX_DEPTH,
        canonical(v),
        encode_value(v) is Ok,
        v is Float || v is Bool || v is Null,
    ensures
        reads_back(encode_value(v)->Ok_0, v, depth),
{
    reveal(reads_back);
    let b = encode_value(v)->Ok_0;
    assert forall|rest: Seq<u8>| #[trigger] parse_value(b + rest, depth) == Ok::<(CborValue, nat), CodecError>(
        (v, b.len()),
    ) by {
        let s = b + rest;
        if let CborValue::Float(bits) = v {
            lemma_be8_roundtrip(bits, rest);
            assert(s.drop_first() =~= be8(bits) + rest);
        }
        lemma_parse_value_simple(s, depth);
    }
}

/// An array head followed by items that each read back as themselves reads back as the array.
#[verifier::spinoff_prover]
#[verifier::rlimit(40)]
proof fn lemma_array_reads_back(items: Seq<CborValue>, depth: int)
    requires
        depth <= MAX_DEPTH,
        items.len() <= u64::MAX,
        encode_items(items) is Ok,
        forall|i: int|
            0 <= i < items.len() ==> encode_value(#[trigger] items[i]) is Ok && reads_back(
                encode_value(items[i])->Ok_0,
                items[i],
                depth + 1,
            ),
    ensures
        reads_back(encode_value(CborValue::Array(items))->Ok_0, CborValue::Array(items), depth),
{
    reveal(reads_back);
    let v = CborValue::Array(items);
    let b = encode_value(v)->Ok_0;
    let body = encode_items(items)->Ok_0;
    let h = head(4, items.len() as u64);
    assert(b == h + body);
    assert forall|rest: Seq<u8>| #[trigger] parse_value(b + rest, depth) == Ok::<(CborValue, nat), CodecError>(
        (v, b.len()),
    ) by {
        let s = b + rest;
        lemma_head_parses(4, items.len() as u64, body + rest);
        assert(s =~= h + (body + rest));
        assert(s.drop_first() =~= h.drop_first() + (body + rest));
        assert(s.skip(h.len() as int) =~= body + rest);
        lemma_parse_value_array(s, depth);
        lemma_items_read_back(items, depth + 1, rest);
    }
}

/// A map head followed by entries in strictly ascending key order, whose keys and values each
/// read back as themselves, reads back as the map.
#[verifier::spinoff_prover]
#[verifier::rlimit(40)]
proof fn lemma_map_reads_back(pairs: Seq<(CborValue, CborValue)>, depth: int)
    requires
        depth <= MAX_DEPTH,
        pairs.len() <= u64::MAX,
        encode_pairs(pairs) is Ok,
        keys_strictly_ascending(encode_pairs(pairs)->Ok_0),
        forall|i: int|
            0 <= i < pairs.len() ==> reads_back(
                encode_pairs(pairs)->Ok_0[i].0,
                #[trigger] pairs[i].0,
                depth + 1,
            ) && reads_back(encode_pairs(pairs)->Ok_0[i].1, pairs[i].1, depth + 1),
    ensures
        encode_value(CborValue::Mapping(pairs)) is Ok,
        reads_back(encode_value(CborValue::Mapping(pairs))->Ok_0, CborValue::Mapping(pairs), depth),
{
    reveal(reads_back);
    let v = CborValue::Mapping(pairs);
    let eps = encode_pairs(pairs)->Ok_0;
    crate::lemmas::lemma_sort_of_ascending(eps);
    let b = encode_value(v)->Ok_0;
    let body = concat_pairs(eps);
    let h = head(5, pairs.len() as u64);
    assert(b == h + body);
    assert forall|rest: Seq<u8>| #[trigger] parse_value(b + rest, depth) == Ok::<(CborValue, nat), CodecError>(
        (v, b.len()),
    ) by {
        let s = b + rest;
        lemma_head_parses(5, pairs.len() as u64, body + rest);
        assert(s =~= h + (body + rest));
        assert(s.drop_first() =~= h.drop_first() + (body + rest));
        assert(s.skip(h.len() as int) =~= body + rest);
        lemma_parse_value_map(s, depth);
        lemma_pairs_read_back(pairs, depth + 1, rest, None);
    }
}

/// A canonical value within the profile's limits at `depth` reads back from its encoding as
/// exactly itself.
pub proof fn lemma_canonical_reads_back(v: CborValue, depth: int)
    requires
        well_formed(v, depth),
        canonical(v),
        encode_value(v) is Ok,
    ensures
        reads_back(encode_value(v)->Ok_0, v, depth),
    decreases v,
{
    match v {
        CborValue::Uint(_) => lemma_int_reads_back(v, depth),
        CborValue::Nint(_) => lemma_int_reads_back(v, depth),
        CborValue::Bytes(_) => lemma_string_reads_back(v, depth),
        CborValue::Text(_) => lemma_string_reads_back(v, depth),
        CborValue::Array(items) => {
            lemma_encode_items_each(items);
            lemma_well_formed_items_each(items, depth + 1);
            lemma_canonical_items_each(items);
            assert forall|i: int| 0 <= i < items.len() implies encode_value(#[trigger] items[i]) is Ok
                && reads_back(encode_value(items[i])->Ok_0, items[i], depth + 1) by {
                lemma_canonical_reads_back(items[i], depth + 1);
            }
            lemma_array_reads_back(items, depth);
        },
        CborValue::Mapping(pairs) => {
            let eps = encode_pairs(pairs)->Ok_0;
            lemma_encode_pairs_each(pairs);
            lemma_well_formed_pairs_each(pairs, depth + 1);
            lemma_canonical_pairs_each(pairs);
            assert forall|i: int| 0 <= i < pairs.len() implies reads_back(eps[i].0, #[trigger] pairs[i].0, depth + 1)
                && reads_back(eps[i].1, pairs[i].1, depth + 1) by {
                lemma_canonical_reads_back(pairs[i].0, depth + 1);
                lemma_canonical_reads_back(pairs[i].1, depth + 1);
            }
            lemma_map_reads_back(pairs, depth);
        },
        _ => lemma_simple_reads_back(v, depth),
    }
}

} // verus!
