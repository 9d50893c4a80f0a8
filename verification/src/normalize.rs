//! Values up to the sign of zero: `-0.0` and `+0.0` are one number to the profile, which writes
//! both as `+0.0`. A value whose maps already list their entries in ascending encoded-key order
//! reads back from its encoding as itself with every `-0.0` made `+0.0`.

use vstd::prelude::*;
use crate::identity::{canonical, canonical_items, canonical_pairs};
use crate::lemmas::keys_strictly_ascending;
use crate::roundtrip::{well_formed, well_formed_items, well_formed_pairs};
use crate::spec::{encode_items, encode_pairs, encode_value, float_is_finite, float_normalized};
use crate::value::{CborValue, NEGATIVE_ZERO_BITS};

verus! {

broadcast use {vstd::seq::group_seq_axioms, vstd::seq_lib::group_seq_properties};

/// `v` with every `-0.0` made `+0.0`.
pub open spec fn zero_normalized(v: CborValue) -> CborValue
    decreases v,
{
    match v {
        CborValue::Float(bits) => CborValue::Float(float_normalized(bits)),
        CborValue::Array(items) => CborValue::Array(zero_normalized_items(items)),
        CborValue::Mapping(pairs) => CborValue::Mapping(zero_normalized_pairs(pairs)),
        _ => v,
    }
}

/// Each item with every `-0.0` made `+0.0`.
pub open spec fn zero_normalized_items(items: Seq<CborValue>) -> Seq<CborValue>
    decreases items,
{
    if items.len() == 0 {
        Seq::empty()
    } else {
        proof {
            vstd::seq::axiom_seq_index_decreases(items, 0);
            vstd::seq::axiom_seq_subrange_decreases(items, 1, items.len() as int);
        }
        seq![zero_normalized(items[0])] + zero_normalized_items(items.drop_first())
    }
}

/// Each key and value with every `-0.0` made `+0.0`.
pub open spec fn zero_normalized_pairs(pairs: Seq<(CborValue, CborValue)>) -> Seq<(CborValue, CborValue)>
    decreases pairs,
{
    if pairs.len() == 0 {
        Seq::empty()
    } else {
        proof {
            vstd::seq::axiom_seq_index_decreases(pairs, 0);
            vstd::seq::axiom_seq_subrange_decreases(pairs, 1, pairs.len() as int);
        }
        seq![(zero_normalized(pairs[0].0), zero_normalized(pairs[0].1))] + zero_normalized_pairs(
            pairs.drop_first(),
        )
    }
}

/// Every map lists its entries in strictly ascending order of encoded key (so no two keys
/// encode alike).
pub open spec fn maps_sorted(v: CborValue) -> bool
    decreases v,
{
    match v {
        CborValue::Array(items) => maps_sorted_items(items),
        CborValue::Mapping(pairs) => maps_sorted_pairs(pairs) && (encode_pairs(pairs) matches Ok(eps)
            ==> keys_strictly_ascending(eps)),
        _ => true,
    }
}

/// Every item's maps are sorted.
pub open spec fn maps_sorted_items(items: Seq<CborValue>) -> bool
    decreases items,
{
    if items.len() == 0 {
        true
    } else {
        proof {
            vstd::seq::axiom_seq_index_decreases(items, 0);
            vstd::seq::axiom_seq_subrange_decreases(items, 1, items.len() as int);
        }
        maps_sorted(items[0]) && maps_sorted_items(items.drop_first())
    }
}

/// Every key's and value's maps are sorted.
pub open spec fn maps_sorted_pairs(pairs: Seq<(CborValue, CborValue)>) -> bool
    decreases pairs,
{
    if pairs.len() == 0 {
        true
    } else {
        proof {
            vstd::seq::axiom_seq_index_decreases(pairs, 0);
            vstd::seq::axiom_seq_subrange_decreases(pairs, 1, pairs.len() as int);
        }
        maps_sorted(pairs[0].0) && maps_sorted(pairs[0].1) && maps_sorted_pairs(pairs.drop_first())
    }
}

/// Making `-0.0` into `+0.0` changes neither the encoding, nor the limits, and gives a value in
/// canonical form when the maps are sorted.
pub proof fn lemma_zero_normalized(v: CborValue, depth: int)
    ensures
        encode_value(zero_normalized(v)) == encode_value(v),
        well_formed(zero_normalized(v), depth) == well_formed(v, depth),
        maps_sorted(v) ==> canonical(zero_normalized(v)),
    decreases v,
{
    match v {
        CborValue::Float(bits) => {
            assert(float_normalized(bits) != NEGATIVE_ZERO_BITS);
            assert(float_is_finite(float_normalized(bits)) == float_is_finite(bits)) by {
                assert(NEGATIVE_ZERO_BITS & crate::value::FLOAT_EXPONENT_MASK != crate::value::FLOAT_EXPONENT_MASK)
                    by (bit_vector);
                assert(0u64 & crate::value::FLOAT_EXPONENT_MASK != crate::value::FLOAT_EXPONENT_MASK)
                    by (bit_vector);
            }
        },
        CborValue::Array(items) => lemma_zero_normalized_items(items, depth + 1),
        CborValue::Mapping(pairs) => lemma_zero_normalized_pairs(pairs, depth + 1),
        _ => {},
    }
}

proof fn lemma_zero_normalized_items(items: Seq<CborValue>, depth: int)
    ensures
        zero_normalized_items(items).len() == items.len(),
        encode_items(zero_normalized_items(items)) == encode_items(items),
        well_formed_items(zero_normalized_items(items), depth) == well_formed_items(items, depth),
        maps_sorted_items(items) ==> canonical_items(zero_normalized_items(items)),
    decreases items,
{
    if items.len() > 0 {
        vstd::seq::axiom_seq_index_decreases(items, 0);
        vstd::seq::axiom_seq_subrange_decreases(items, 1, items.len() as int);
        let z = zero_normalized_items(items);
        lemma_zero_normalized(items[0], depth);
        lemma_zero_normalized_items(items.drop_first(), depth);
        assert(z[0] == zero_normalized(items[0]));
        assert(z.drop_first() =~= zero_normalized_items(items.drop_first()));
    }
}

proof fn lemma_zero_normalized_pairs(pairs: Seq<(CborValue, CborValue)>, depth: int)
    ensures
        zero_normalized_pairs(pairs).len() == pairs.len(),
        encode_pairs(zero_normalized_pairs(pairs)) == encode_pairs(pairs),
        well_formed_pairs(zero_normalized_pairs(pairs), depth) == well_formed_pairs(pairs, depth),
        maps_sorted_pairs(pairs) ==> canonical_pairs(zero_normalized_pairs(pairs)),
    decreases pairs,
{
    if pairs.len() > 0 {
        vstd::seq::axiom_seq_index_decreases(pairs, 0);
        vstd::seq::axiom_seq_subrange_decreases(pairs, 1, pairs.len() as int);
        let z = zero_normalized_pairs(pairs);
        lemma_zero_normalized(pairs[0].0, depth);
        lemma_zero_normalized(pairs[0].1, depth);
        lemma_zero_normalized_pairs(pairs.drop_first(), depth);
        assert(z[0] == (zero_normalized(pairs[0].0), zero_normalized(pairs[0].1)));
        assert(z.drop_first() =~= zero_normalized_pairs(pairs.drop_first()));
    }
}

} // verus!
