//! Reading only accepts canonical forms: whatever the strict reader yields, re-encoding it gives
//! back exactly the bytes it was read from.

use vstd::prelude::*;
use vstd::utf8::{decode_utf8, encode_utf8};
use crate::lemmas::{
    keys_strictly_ascending, lemma_arg_is_head, lemma_be8_of_read, lemma_bytes_lt_irreflexive,
    lemma_bytes_lt_total, lemma_sort_of_ascending,
};
use crate::spec::{
    bytes_lt, concat_pairs, encode_items, encode_pairs, encode_value, has_adjacent_equal_keys,
    parse_arg, parse_entry, parse_items, parse_pairs, parse_value,
};
use crate::identity::{canonical, canonical_items, canonical_pairs};
use crate::roundtrip::{well_formed, well_formed_items, well_formed_pairs};
use crate::value::{CborValue, MAX_DEPTH};

verus! {

broadcast use {
    vstd::seq::group_seq_axioms,
    vstd::seq_lib::group_seq_properties,
    vstd::utf8::decode_utf8_encode_utf8,
};

/// A value read from the front of `s` spans at most `s`, and its canonical encoding is exactly
/// the bytes it spans.
#[verifier::rlimit(60)]
pub proof fn lemma_parse_value_canonical(s: Seq<u8>, depth: int)
    ensures
        parse_value(s, depth) matches Ok((v, k)) ==> k <= s.len() && encode_value(v) == Ok::<
            Seq<u8>,
            crate::value::CodecError,
        >(s.take(k as int)),
    decreases MAX_DEPTH + 1 - depth, 0int,
{
    reveal(parse_value);
    if let Ok((v, k)) = parse_value(s, depth) {
        let ib = s[0];
        let major = ib / 32;
        let ai = ib % 32;
        let rest = s.drop_first();
        if major <= 5 {
            lemma_arg_is_head(s, major);
            let (n, ka) = parse_arg(ai, rest)->Ok_0;
            if major == 2 || major == 3 {
                let bytes = rest.subrange(ka as int, ka + n);
                assert(bytes.len() == n);
                assert(s.take(k as int) =~= s.take((1 + ka) as int) + bytes);
                if major == 3 {
                    assert(encode_utf8(decode_utf8(bytes)) == bytes);
                }
            } else if major == 4 {
                let body = s.skip((1 + ka) as int);
                lemma_parse_items_canonical(body, depth + 1, n as nat);
                let (items, m) = parse_items(body, depth + 1, n as nat)->Ok_0;
                assert(s.take(k as int) =~= s.take((1 + ka) as int) + body.take(m as int));
            } else if major == 5 {
                let body = s.skip((1 + ka) as int);
                lemma_parse_pairs_canonical(body, depth + 1, n as nat, None);
                let (pairs, m) = parse_pairs(body, depth + 1, n as nat, None)->Ok_0;
                let eps = encode_pairs(pairs)->Ok_0;
                lemma_sort_of_ascending(eps);
                assert(s.take(k as int) =~= s.take((1 + ka) as int) + body.take(m as int));
            } else {
                assert(s.take(k as int) =~= s.take((1 + ka) as int));
            }
        } else if major == 7 {
            if ai == 27 {
                lemma_be8_of_read(rest);
                assert(s.take(9) =~= seq![s[0]] + rest.take(8));
            } else {
                assert(s.take(1) =~= seq![s[0]]);
            }
        }
    }
}

/// Items read from the front of `s` span at most `s`, there are as many as asked for, and their
/// canonical encodings concatenate to exactly the bytes they span.
pub proof fn lemma_parse_items_canonical(s: Seq<u8>, depth: int, n: nat)
    ensures
        parse_items(s, depth, n) matches Ok((vs, m)) ==> m <= s.len() && vs.len() == n
            && encode_items(vs) == Ok::<Seq<u8>, crate::value::CodecError>(s.take(m as int)),
    decreases MAX_DEPTH + 1 - depth, n + 1,
{
    reveal(parse_value);
    if n > 0 {
        if let Ok((vs, m)) = parse_items(s, depth, n) {
            let (v, k) = parse_value(s, depth)->Ok_0;
            lemma_parse_value_canonical(s, depth);
            let tail = s.skip(k as int);
            lemma_parse_items_canonical(tail, depth, (n - 1) as nat);
            let (ws, m2) = parse_items(tail, depth, (n - 1) as nat)->Ok_0;
            assert(vs[0] == v);
            assert(vs.drop_first() =~= ws);
            assert(s.take(m as int) =~= s.take(k as int) + tail.take(m2 as int));
        }
    }
}

/// Entries read from the front of `s` span at most `s`; their encodings concatenate to exactly
/// the bytes they span, and their keys strictly ascend, starting above `prev`.
#[verifier::rlimit(40)]
pub proof fn lemma_parse_pairs_canonical(s: Seq<u8>, depth: int, n: nat, prev: Option<Seq<u8>>)
    ensures
        parse_pairs(s, depth, n, prev) matches Ok((ps, m)) ==> {
            &&& m <= s.len()
            &&& ps.len() == n
            &&& encode_pairs(ps) is Ok
            &&& encode_pairs(ps)->Ok_0.len() == n
            &&& concat_pairs(encode_pairs(ps)->Ok_0) == s.take(m as int)
            &&& keys_strictly_ascending(encode_pairs(ps)->Ok_0)
            &&& (n > 0 && prev is Some ==> bytes_lt(prev->0, encode_pairs(ps)->Ok_0[0].0))
        },
    decreases MAX_DEPTH + 1 - depth, n + 1,
{
    reveal(parse_value);
    if n > 0 {
        if let Ok((ps, m)) = parse_pairs(s, depth, n, prev) {
            let (key, val, k, t) = parse_entry(s, depth, prev)->Ok_0;
            lemma_parse_value_canonical(s, depth);
            let after_key = s.skip(k as int);
            lemma_parse_value_canonical(after_key, depth);
            let k2 = (t - k) as nat;
            let kb = s.take(k as int);
            let vb = after_key.take(k2 as int);
            if prev is Some {
                lemma_bytes_lt_total(kb, prev->0);
            }
            let tail = s.skip(t as int);
            lemma_parse_pairs_canonical(tail, depth, (n - 1) as nat, Some(kb));
            let (rps, rm) = parse_pairs(tail, depth, (n - 1) as nat, Some(kb))->Ok_0;
            let reps = encode_pairs(rps)->Ok_0;
            assert(ps[0] == (key, val));
            assert(ps.drop_first() =~= rps);
            let eps = encode_pairs(ps)->Ok_0;
            assert(eps =~= seq![(kb, vb)] + reps);
            assert(eps.drop_first() =~= reps);
            assert(concat_pairs(eps) == kb + vb + concat_pairs(reps));
            assert(s.take(m as int) =~= kb + vb + tail.take(rm as int));
            assert(keys_strictly_ascending(eps)) by {
                assert forall|i: int| 0 <= i && i + 1 < eps.len() implies #[trigger] bytes_lt(
                    eps[i].0,
                    eps[i + 1].0,
                ) by {
                    if i > 0 {
                        assert(eps[i] == reps[i - 1] && eps[i + 1] == reps[(i - 1) + 1]);
                    }
                }
            }
        }
    }
}

/// A value read at `depth` lies within the profile's limits at that depth: no deeper than
/// `MAX_DEPTH`, with every length a 64-bit argument and no map with two keys that encode alike.
#[verifier::rlimit(40)]
pub proof fn lemma_parse_value_well_formed(s: Seq<u8>, depth: int)
    ensures
        parse_value(s, depth) matches Ok((v, k)) ==> well_formed(v, depth),
    decreases MAX_DEPTH + 1 - depth, 0int,
{
    reveal(parse_value);
    if let Ok((v, k)) = parse_value(s, depth) {
        let ib = s[0];
        let major = ib / 32;
        let ai = ib % 32;
        let rest = s.drop_first();
        if major == 3 {
            let (n, ka) = parse_arg(ai, rest)->Ok_0;
            let bytes = rest.subrange(ka as int, ka + n);
            assert(encode_utf8(decode_utf8(bytes)) == bytes);
        } else if major == 4 {
            let (n, ka) = parse_arg(ai, rest)->Ok_0;
            let body = s.skip((1 + ka) as int);
            lemma_parse_items_well_formed(body, depth + 1, n as nat);
            lemma_parse_items_canonical(body, depth + 1, n as nat);
        } else if major == 5 {
            let (n, ka) = parse_arg(ai, rest)->Ok_0;
            let body = s.skip((1 + ka) as int);
            lemma_parse_pairs_well_formed(body, depth + 1, n as nat, None);
            lemma_parse_pairs_canonical(body, depth + 1, n as nat, None);
            let (pairs, m) = parse_pairs(body, depth + 1, n as nat, None)->Ok_0;
            let eps = encode_pairs(pairs)->Ok_0;
            lemma_sort_of_ascending(eps);
            assert(!has_adjacent_equal_keys(eps)) by {
                assert forall|i: int| 0 <= i && i + 1 < eps.len() implies #[trigger] eps[i].0
                    != eps[i + 1].0 by {
                    assert(bytes_lt(eps[i].0, eps[i + 1].0));
                    lemma_bytes_lt_irreflexive(eps[i].0);
                }
            }
        }
    }
}

/// Items read at `depth` each lie within the profile's limits at that depth.
pub proof fn lemma_parse_items_well_formed(s: Seq<u8>, depth: int, n: nat)
    ensures
        parse_items(s, depth, n) matches Ok((vs, m)) ==> well_formed_items(vs, depth),
    decreases MAX_DEPTH + 1 - depth, n + 1,
{
    reveal(parse_value);
    if n > 0 {
        if let Ok((vs, m)) = parse_items(s, depth, n) {
            let (v, k) = parse_value(s, depth)->Ok_0;
            lemma_parse_value_well_formed(s, depth);
            let tail = s.skip(k as int);
            lemma_parse_items_well_formed(tail, depth, (n - 1) as nat);
            let (ws, m2) = parse_items(tail, depth, (n - 1) as nat)->Ok_0;
            assert(vs[0] == v);
            assert(vs.drop_first() =~= ws);
        }
    } else {
        assert(parse_items(s, depth, n) == Ok::<(Seq<CborValue>, nat), crate::value::CodecError>((Seq::empty(), 0)));
    }
}

/// Entries read at `depth` each have key and value within the profile's limits at that depth.
pub proof fn lemma_parse_pairs_well_formed(s: Seq<u8>, depth: int, n: nat, prev: Option<Seq<u8>>)
    ensures
        parse_pairs(s, depth, n, prev) matches Ok((ps, m)) ==> well_formed_pairs(ps, depth),
    decreases MAX_DEPTH + 1 - depth, n + 1,
{
    reveal(parse_value);
    if n > 0 {
        if let Ok((ps, m)) = parse_pairs(s, depth, n, prev) {
            let (key, val, k, t) = parse_entry(s, depth, prev)->Ok_0;
            lemma_parse_value_well_formed(s, depth);
            lemma_parse_value_well_formed(s.skip(k as int), depth);
            let tail = s.skip(t as int);
            lemma_parse_pairs_well_formed(tail, depth, (n - 1) as nat, Some(s.take(k as int)));
            let (rps, rm) = parse_pairs(tail, depth, (n - 1) as nat, Some(s.take(k as int)))->Ok_0;
            assert(ps[0] == (key, val));
            assert(ps.drop_first() =~= rps);
        }
    }
}

/// A value read at `depth` is in canonical form.
#[verifier::rlimit(40)]
pub proof fn lemma_parse_value_is_canonical(s: Seq<u8>, depth: int)
    ensures
        parse_value(s, depth) matches Ok((v, k)) ==> canonical(v),
    decreases MAX_DEPTH + 1 - depth, 0int,
{
    reveal(parse_value);
    if let Ok((v, k)) = parse_value(s, depth) {
        let ib = s[0];
        let major = ib / 32;
        let ai = ib % 32;
        let rest = s.drop_first();
        if major == 4 {
            let (n, ka) = crate::spec::parse_arg(ai, rest)->Ok_0;
            let body = s.skip((1 + ka) as int);
            lemma_parse_items_are_canonical(body, depth + 1, n as nat);
        } else if major == 5 {
            let (n, ka) = crate::spec::parse_arg(ai, rest)->Ok_0;
            let body = s.skip((1 + ka) as int);
            lemma_parse_pairs_are_canonical(body, depth + 1, n as nat, None);
            lemma_parse_pairs_canonical(body, depth + 1, n as nat, None);
        }
    }
}

/// Items read at `depth` are each in canonical form.
pub proof fn lemma_parse_items_are_canonical(s: Seq<u8>, depth: int, n: nat)
    ensures
        parse_items(s, depth, n) matches Ok((vs, m)) ==> canonical_items(vs),
    decreases MAX_DEPTH + 1 - depth, n + 1,
{
    reveal(parse_value);
    if n > 0 {
        if let Ok((vs, m)) = parse_items(s, depth, n) {
            let (v, k) = parse_value(s, depth)->Ok_0;
            lemma_parse_value_is_canonical(s, depth);
            let tail = s.skip(k as int);
            lemma_parse_items_are_canonical(tail, depth, (n - 1) as nat);
            let (ws, m2) = parse_items(tail, depth, (n - 1) as nat)->Ok_0;
            assert(vs[0] == v);
            assert(vs.drop_first() =~= ws);
        }
    }
}

/// Entries read at `depth` have keys and values in canonical form.
pub proof fn lemma_parse_pairs_are_canonical(s: Seq<u8>, depth: int, n: nat, prev: Option<Seq<u8>>)
    ensures
        parse_pairs(s, depth, n, prev) matches Ok((ps, m)) ==> canonical_pairs(ps),
    decreases MAX_DEPTH + 1 - depth, n + 1,
{
    reveal(parse_value);
    if n > 0 {
        if let Ok((ps, m)) = parse_pairs(s, depth, n, prev) {
            let (key, val, k, t) = parse_entry(s, depth, prev)->Ok_0;
            lemma_parse_value_is_canonical(s, depth);
            lemma_parse_value_is_canonical(s.skip(k as int), depth);
            let tail = s.skip(t as int);
            lemma_parse_pairs_are_canonical(tail, depth, (n - 1) as nat, Some(s.take(k as int)));
            let (rps, rm) = parse_pairs(tail, depth, (n - 1) as nat, Some(s.take(k as int)))->Ok_0;
            assert(ps[0] == (key, val));
            assert(ps.drop_first() =~= rps);
        }
    }
}

} // verus!
