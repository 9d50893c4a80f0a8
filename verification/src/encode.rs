//! Canonical encoding: writes the single profile form of a value, proved equal to
//! `spec::encode_value`.

use vstd::prelude::*;
use vstd::utf8::encode_utf8;
use crate::spec::{
    be8, bytes_lt, concat_pairs, encode_items, encode_pairs, encode_value, floats_finite,
    head, insert_by_key, object_array, sort_by_key, EncodedPair,
};
use crate::value::{
    lemma_array_view, lemma_mapping_view, pair_views, views, CborValue, CodecError, Value, EPOCH,
    FLOAT_EXPONENT_MASK, NEGATIVE_ZERO_BITS,
};

verus! {

broadcast use {
    vstd::seq::group_seq_axioms,
    vstd::seq_lib::group_seq_properties,
    vstd::std_specs::vec::group_vec_axioms,
};

/// Prefixes the bytes of a successful partial result; a failure stays as it is.
pub open spec fn prepend_bytes(p: Seq<u8>, r: Result<Seq<u8>, CodecError>) -> Result<Seq<u8>, CodecError> {
    match r {
        Ok(x) => Ok(p + x),
        Err(e) => Err(e),
    }
}

/// Prefixes the entries of a successful partial result; a failure stays as it is.
pub open spec fn prepend_entries(p: Seq<EncodedPair>, r: Result<Seq<EncodedPair>, CodecError>) -> Result<
    Seq<EncodedPair>,
    CodecError,
> {
    match r {
        Ok(x) => Ok(p + x),
        Err(e) => Err(e),
    }
}

/// The byte-string models of encoded entries.
pub open spec fn entries_view(e: Seq<(Vec<u8>, Vec<u8>)>) -> Seq<EncodedPair> {
    Seq::new(e.len(), |i: int| (e[i].0@, e[i].1@))
}

/// The entries selected by `order`, in that order.
pub open spec fn select_entries(e: Seq<EncodedPair>, order: Seq<usize>) -> Seq<EncodedPair> {
    Seq::new(order.len(), |j: int| e[order[j] as int])
}

/// Three-way outcome of comparing two byte strings.
pub enum KeyOrder {
    Less,
    Equal,
    Greater,
}

/// Compares two byte strings lexicographically.
pub fn compare_bytes(a: &[u8], b: &[u8]) -> (r: KeyOrder)
    ensures
        (r is Less) == bytes_lt(a@, b@),
        (r is Equal) == (a@ == b@),
{
    let mut i: usize = 0;
    while i < a.len() && i < b.len()
        invariant
            i <= a@.len(),
            i <= b@.len(),
            a@.take(i as int) == b@.take(i as int),
            bytes_lt(a@, b@) == bytes_lt(a@.skip(i as int), b@.skip(i as int)),
        decreases a@.len() - i,
    {
        assert(a@.skip(i as int)[0] == a@[i as int]);
        assert(b@.skip(i as int)[0] == b@[i as int]);
        if a[i] < b[i] {
            return KeyOrder::Less;
        }
        if a[i] > b[i] {
            assert(a@[i as int] != b@[i as int]);
            return KeyOrder::Greater;
        }
        assert(a@.skip(i as int).drop_first() =~= a@.skip(i + 1));
        assert(b@.skip(i as int).drop_first() =~= b@.skip(i + 1));
        assert(a@.take(i + 1) =~= a@.take(i as int).push(a@[i as int]));
        assert(b@.take(i + 1) =~= b@.take(i as int).push(b@[i as int]));
        i = i + 1;
    }
    if a.len() == b.len() {
        assert(a@ =~= a@.take(i as int));
        assert(b@ =~= b@.take(i as int));
        KeyOrder::Equal
    } else if i == a.len() {
        assert(a@.skip(i as int).len() == 0);
        KeyOrder::Less
    } else {
        assert(b@.skip(i as int).len() == 0);
        KeyOrder::Greater
    }
}

/// Appends the bytes of `b` to `out`.
pub fn append_bytes(out: &mut Vec<u8>, b: &[u8])
    ensures
        final(out)@ == old(out)@ + b@,
{
    let ghost start = out@;
    let mut i: usize = 0;
    while i < b.len()
        invariant
            i <= b@.len(),
            out@ == start + b@.take(i as int),
        decreases b@.len() - i,
    {
        out.push(b[i]);
        assert(b@.take(i + 1) =~= b@.take(i as int).push(b@[i as int]));
        i = i + 1;
    }
    assert(b@.take(i as int) =~= b@);
}

/// Appends the shortest-form head of a major-type `major` item with argument `arg`.
pub fn put_head(out: &mut Vec<u8>, major: u8, arg: u64)
    requires
        major < 8,
    ensures
        final(out)@ == old(out)@ + head(major, arg),
{
    let m: u8 = major * 32;
    if arg <= 23 {
        out.push(m + arg as u8);
    } else if arg <= 0xff {
        out.push(m + 24);
        out.push(arg as u8);
    } else if arg <= 0xffff {
        out.push(m + 25);
        out.push((arg >> 8u64) as u8);
        out.push(arg as u8);
    } else if arg <= 0xffff_ffff {
        out.push(m + 26);
        out.push((arg >> 24u64) as u8);
        out.push((arg >> 16u64) as u8);
        out.push((arg >> 8u64) as u8);
        out.push(arg as u8);
    } else {
        out.push(m + 27);
        out.push((arg >> 56u64) as u8);
        out.push((arg >> 48u64) as u8);
        out.push((arg >> 40u64) as u8);
        out.push((arg >> 32u64) as u8);
        out.push((arg >> 24u64) as u8);
        out.push((arg >> 16u64) as u8);
        out.push((arg >> 8u64) as u8);
        out.push(arg as u8);
    }
    assert(final(out)@ =~= old(out)@ + head(major, arg));
}

/// Whether the key bytes of entry `a` sort strictly before those of entry `b`.
fn key_before(encoded: &Vec<(Vec<u8>, Vec<u8>)>, a: usize, b: usize) -> (r: bool)
    requires
        a < encoded@.len(),
        b < encoded@.len(),
    ensures
        r == bytes_lt(encoded@[a as int].0@, encoded@[b as int].0@),
{
    match compare_bytes(encoded[a].0.as_slice(), encoded[b].0.as_slice()) {
        KeyOrder::Less => true,
        _ => false,
    }
}

/// Sorts entry positions by key bytes: the entries at the returned positions, in order, are
/// `sort_by_key` of the entries.
fn sort_entry_order(encoded: &Vec<(Vec<u8>, Vec<u8>)>) -> (order: Vec<usize>)
    ensures
        forall|j: int| 0 <= j < order@.len() ==> order@[j] < encoded@.len(),
        select_entries(entries_view(encoded@), order@) == sort_by_key(entries_view(encoded@)),
{
    let ghost ev = entries_view(encoded@);
    let mut order: Vec<usize> = Vec::new();
    let mut i: usize = 0;
    assert(ev.take(0) =~= Seq::<EncodedPair>::empty());
    assert(select_entries(ev, order@) =~= Seq::<EncodedPair>::empty());
    while i < encoded.len()
        invariant
            i <= encoded@.len(),
            ev == entries_view(encoded@),
            forall|j: int| 0 <= j < order@.len() ==> order@[j] < i,
            select_entries(ev, order@) == sort_by_key(ev.take(i as int)),
        decreases encoded@.len() - i,
    {
        let ghost sorted = select_entries(ev, order@);
        let ghost p = ev[i as int];
        let mut j: usize = order.len();
        proof {
            assert(sorted.take(j as int) =~= sorted);
            assert(sorted.skip(j as int) =~= Seq::<EncodedPair>::empty());
        }
        while j > 0 && key_before(encoded, i, order[j - 1])
            invariant
                j <= order@.len(),
                i < encoded@.len(),
                ev == entries_view(encoded@),
                sorted == select_entries(ev, order@),
                p == ev[i as int],
                forall|t: int| 0 <= t < order@.len() ==> order@[t] < i,
                insert_by_key(sorted, p) == insert_by_key(sorted.take(j as int), p) + sorted.skip(
                    j as int,
                ),
            decreases j,
        {
            proof {
                let t = sorted.take(j as int);
                assert(t.drop_last() =~= sorted.take(j - 1));
                assert(t.last() == sorted[j - 1]);
                assert(sorted.skip(j - 1) =~= seq![sorted[j - 1]] + sorted.skip(j as int));
                assert(insert_by_key(t, p) == insert_by_key(sorted.take(j - 1), p).push(sorted[j - 1]));
                assert(insert_by_key(sorted.take(j - 1), p).push(sorted[j - 1]) + sorted.skip(j as int)
                    =~= insert_by_key(sorted.take(j - 1), p) + sorted.skip(j - 1));
            }
            j = j - 1;
        }
        proof {
            let t = sorted.take(j as int);
            assert(insert_by_key(t, p) == t.push(p));
            assert(ev.take(i + 1).drop_last() =~= ev.take(i as int));
            assert(ev.take(i + 1).last() == p);
        }
        let ghost old_order = order@;
        order.insert(j, i);
        proof {
            assert(select_entries(ev, order@) =~= sorted.take(j as int).push(p) + sorted.skip(j as int)) by {
                assert forall|t: int| 0 <= t < order@.len() implies #[trigger] select_entries(ev, order@)[t]
                    == (sorted.take(j as int).push(p) + sorted.skip(j as int))[t] by {
                    if t < j {
                        assert(order@[t] == old_order[t]);
                    } else if t == j {
                    } else {
                        assert(order@[t] == old_order[t - 1]);
                    }
                }
            }
        }
        i = i + 1;
    }
    assert(ev.take(i as int) =~= ev);
    order
}

/// Appends the canonical encoding of the array `value`, whose items are `items`.
fn encode_array_into(out: &mut Vec<u8>, value: &Value, items: &Vec<Value>) -> (r: Result<(), CodecError>)
    requires
        *value == Value::Array(*items),
    ensures
        match encode_value(value@) {
            Ok(b) => r is Ok && final(out)@ == old(out)@ + b,
            Err(e) => r == Err::<(), CodecError>(e),
        },
    decreases value, 0int,
{
    proof {
        lemma_array_view(*items);
    }
    let ghost iv = views(items@);
    put_head(out, 4, items.len() as u64);
    let ghost start = out@;
    let ghost mut produced: Seq<u8> = Seq::empty();
    let mut i: usize = 0;
    assert(iv.skip(0) =~= iv);
    assert(start + produced =~= start);
    while i < items.len()
        invariant
            i <= items@.len(),
            iv == views(items@),
            *value == Value::Array(*items),
            value@ == CborValue::Array(iv),
            out@ == start + produced,
            start == old(out)@ + head(4, items@.len() as u64),
            encode_items(iv) == prepend_bytes(produced, encode_items(iv.skip(i as int))),
        decreases items@.len() - i,
    {
        proof {
            vstd::std_specs::vec::axiom_vec_index_decreases(*items, i as int);
            let rest = iv.skip(i as int);
            assert(rest[0] == items@[i as int]@);
            assert(rest.drop_first() =~= iv.skip(i + 1));
        }
        let ghost before = out@;
        let res = encode_into(out, &items[i]);
        match res {
            Ok(()) => {},
            Err(e) => {
                proof {
                    assert(encode_items(iv.skip(i as int)) == Err::<Seq<u8>, CodecError>(e));
                    assert(encode_items(iv) == Err::<Seq<u8>, CodecError>(e));
                    assert(value@ == CborValue::Array(iv));
                    assert(encode_value(value@) == Err::<Seq<u8>, CodecError>(e));
                }
                return Err(e);
            },
        }
        proof {
            let b = out@.skip(before.len() as int);
            assert(out@ =~= before + b);
            assert(encode_value(items@[i as int]@) == Ok::<Seq<u8>, CodecError>(b));
            assert(produced + (b + out@.skip(0).take(0)) =~= produced + b);
            match encode_items(iv.skip(i + 1)) {
                Ok(x) => {
                    assert(produced + (b + x) =~= (produced + b) + x);
                },
                Err(e) => {},
            }
            assert(start + produced + b =~= start + (produced + b));
            produced = produced + b;
        }
        i = i + 1;
    }
    proof {
        assert(iv.skip(i as int) =~= Seq::<CborValue>::empty());
        assert(produced + Seq::<u8>::empty() =~= produced);
        assert(out@ =~= old(out)@ + (head(4, iv.len() as u64) + produced));
    }
    Ok(())
}

/// Appends the canonical encoding of the map `value`, whose entries are `pairs`.
fn encode_mapping_into(out: &mut Vec<u8>, value: &Value, pairs: &Vec<(Value, Value)>) -> (r: Result<(), CodecError>)
    requires
        *value == Value::Mapping(*pairs),
    ensures
        match encode_value(value@) {
            Ok(b) => r is Ok && final(out)@ == old(out)@ + b,
            Err(e) => r == Err::<(), CodecError>(e),
        },
    decreases value, 0int,
{
    proof {
        lemma_mapping_view(*pairs);
    }
    let ghost pv = pair_views(pairs@);
    let mut encoded: Vec<(Vec<u8>, Vec<u8>)> = Vec::new();
    let mut i: usize = 0;
    assert(pv.skip(0) =~= pv);
    assert(entries_view(encoded@) =~= Seq::<EncodedPair>::empty());
    while i < pairs.len()
        invariant
            i <= pairs@.len(),
            pv == pair_views(pairs@),
            *value == Value::Mapping(*pairs),
            value@ == CborValue::Mapping(pv),
            out@ == old(out)@,
            encode_pairs(pv) == prepend_entries(
                entries_view(encoded@),
                encode_pairs(pv.skip(i as int)),
            ),
        decreases pairs@.len() - i,
    {
        proof {
            vstd::std_specs::vec::axiom_vec_index_decreases(*pairs, i as int);
            let rest = pv.skip(i as int);
            assert(rest[0] == (pairs@[i as int].0@, pairs@[i as int].1@));
            assert(rest.drop_first() =~= pv.skip(i + 1));
        }
        let mut kb: Vec<u8> = Vec::new();
        match encode_into(&mut kb, &pairs[i].0) {
            Ok(()) => {},
            Err(e) => {
                proof {
                    assert(encode_pairs(pv.skip(i as int)) == Err::<Seq<EncodedPair>, CodecError>(e));
                }
                return Err(e);
            },
        }
        let mut vb: Vec<u8> = Vec::new();
        match encode_into(&mut vb, &pairs[i].1) {
            Ok(()) => {},
            Err(e) => {
                proof {
                    assert(encode_pairs(pv.skip(i as int)) == Err::<Seq<EncodedPair>, CodecError>(e));
                }
                return Err(e);
            },
        }
        let ghost before = entries_view(encoded@);
        proof {
            assert(kb@ =~= Seq::<u8>::empty() + kb@);
        }
        encoded.push((kb, vb));
        proof {
            let e = entries_view(encoded@);
            assert(e =~= before + seq![(kb@, vb@)]);
            match encode_pairs(pv.skip(i + 1)) {
                Ok(x) => {
                    assert(before + (seq![(kb@, vb@)] + x) =~= e + x);
                },
                Err(err) => {},
            }
        }
        i = i + 1;
    }
    proof {
        assert(pv.skip(i as int) =~= Seq::<(CborValue, CborValue)>::empty());
        assert(encode_pairs(pv.skip(i as int)) == Ok::<Seq<EncodedPair>, CodecError>(Seq::empty()));
        assert(entries_view(encoded@) + Seq::<EncodedPair>::empty() =~= entries_view(encoded@));
        assert(encode_pairs(pv) == Ok::<Seq<EncodedPair>, CodecError>(entries_view(encoded@)));
    }
    let ghost ev = entries_view(encoded@);
    let order = sort_entry_order(&encoded);
    let ghost sorted = sort_by_key(ev);
    let n = order.len();
    assert(sorted.len() == n);
    put_head(out, 5, pairs.len() as u64);
    let ghost start = out@;
    let mut t: usize = 0;
    assert(sorted.take(0) =~= Seq::<EncodedPair>::empty());
    while t < n
        invariant
            t <= n,
            n == order@.len(),
            ev == entries_view(encoded@),
            sorted == select_entries(ev, order@),
            forall|q: int| 0 <= q < order@.len() ==> order@[q] < encoded@.len(),
            out@ == start + concat_pairs(sorted.take(t as int)),
        decreases n - t,
    {
        let k = order[t];
        append_bytes(out, encoded[k].0.as_slice());
        append_bytes(out, encoded[k].1.as_slice());
        proof {
            lemma_concat_pairs_push(sorted.take(t as int), sorted[t as int]);
            assert(sorted.take(t + 1) =~= sorted.take(t as int).push(sorted[t as int]));
        }
        t = t + 1;
    }
    assert(sorted.take(n as int) =~= sorted);
    assert(out@ =~= old(out)@ + (head(5, pv.len() as u64) + concat_pairs(sorted)));
    Ok(())
}

/// Appends the canonical encoding of `value`; on failure reports the error `encode_value`
/// names (what was written before the failure is unspecified).
fn encode_into(out: &mut Vec<u8>, value: &Value) -> (r: Result<(), CodecError>)
    ensures
        match encode_value(value@) {
            Ok(b) => r is Ok && final(out)@ == old(out)@ + b,
            Err(e) => r == Err::<(), CodecError>(e),
        },
    decreases value, 1int,
{
    match value {
        Value::Uint(n) => {
            put_head(out, 0, *n);
            Ok(())
        },
        Value::Nint(n) => {
            put_head(out, 1, *n);
            Ok(())
        },
        Value::Bytes(b) => {
            put_head(out, 2, b.len() as u64);
            append_bytes(out, b.as_slice());
            assert(final(out)@ =~= old(out)@ + (head(2, b@.len() as u64) + b@));
            Ok(())
        },
        Value::Text(t) => {
            let bytes = t.as_str().as_bytes();
            assert(bytes@ == encode_utf8(t@));
            put_head(out, 3, bytes.len() as u64);
            append_bytes(out, bytes);
            assert(final(out)@ =~= old(out)@ + (head(3, bytes@.len() as u64) + bytes@));
            Ok(())
        },
        Value::Array(items) => encode_array_into(out, value, items),
        Value::Mapping(pairs) => encode_mapping_into(out, value, pairs),
        Value::Float(bits) => {
            if *bits & FLOAT_EXPONENT_MASK == FLOAT_EXPONENT_MASK {
                return Err(CodecError::NonCanonicalFloat);
            }
            let x: u64 = if *bits == NEGATIVE_ZERO_BITS {
                0
            } else {
                *bits
            };
            out.push(0xfb);
            out.push((x >> 56u64) as u8);
            out.push((x >> 48u64) as u8);
            out.push((x >> 40u64) as u8);
            out.push((x >> 32u64) as u8);
            out.push((x >> 24u64) as u8);
            out.push((x >> 16u64) as u8);
            out.push((x >> 8u64) as u8);
            out.push(x as u8);
            assert(final(out)@ =~= old(out)@ + (seq![0xfbu8] + be8(x)));
            Ok(())
        },
        Value::Bool(b) => {
            out.push(if *b { 0xf5 } else { 0xf4 });
            Ok(())
        },
        Value::Null => {
            out.push(0xf6);
            Ok(())
        },
    }
}

/// Concatenating one more entry appends its key and value bytes.
pub proof fn lemma_concat_pairs_push(s: Seq<EncodedPair>, p: EncodedPair)
    ensures
        concat_pairs(s.push(p)) == concat_pairs(s) + p.0 + p.1,
    decreases s.len(),
{
    if s.len() == 0 {
        assert(s.push(p).drop_first() =~= Seq::<EncodedPair>::empty());
        assert(concat_pairs(s.push(p)) =~= p.0 + p.1);
    } else {
        lemma_concat_pairs_push(s.drop_first(), p);
        assert(s.push(p).drop_first() =~= s.drop_first().push(p));
        assert(concat_pairs(s.push(p)) =~= concat_pairs(s) + p.0 + p.1);
    }
}

/// Encode a value to its single canonical byte form. Fails only on a non-finite float: every
/// value whose floats are all finite encodes.
pub fn encode(value: &Value) -> (r: Result<Vec<u8>, CodecError>)
    ensures
        match encode_value(value@) {
            Ok(b) => r matches Ok(out) && out@ == b,
            Err(e) => r == Err::<Vec<u8>, CodecError>(e),
        },
        r is Ok <==> floats_finite(value@),
        r matches Err(e) ==> e == CodecError::NonCanonicalFloat,
{
    proof {
        crate::laws::law_encode_fails_only_on_non_finite_floats(value@);
    }
    let mut out: Vec<u8> = Vec::new();
    match encode_into(&mut out, value) {
        Ok(()) => {
            assert(out@ =~= Seq::<u8>::empty() + out@);
            Ok(out)
        },
        Err(e) => Err(e),
    }
}

/// Encoding two unsigned integers in front of `rest` encodes them and then `rest`.
proof fn lemma_encode_items_two(items: Seq<CborValue>, rest: Seq<CborValue>)
    requires
        items.len() == rest.len() + 2,
        items[0] is Uint,
        items[1] is Uint,
        items.drop_first().drop_first() == rest,
    ensures
        encode_items(items) == prepend_bytes(
            head(0, items[0]->Uint_0) + head(0, items[1]->Uint_0),
            encode_items(rest),
        ),
{
    let tail = items.drop_first();
    assert(tail[0] == items[1]);
    assert(encode_value(tail[0]) == Ok::<Seq<u8>, CodecError>(head(0, items[1]->Uint_0)));
    assert(encode_value(items[0]) == Ok::<Seq<u8>, CodecError>(head(0, items[0]->Uint_0)));
    assert(tail.drop_first() == rest);
    assert(encode_items(tail) == prepend_bytes(head(0, items[1]->Uint_0), encode_items(rest)));
    match encode_items(rest) {
        Ok(x) => {
            assert(head(0, items[0]->Uint_0) + (head(0, items[1]->Uint_0) + x) =~= head(
                0,
                items[0]->Uint_0,
            ) + head(0, items[1]->Uint_0) + x);
        },
        Err(e) => {},
    }
}

/// Encode a Loom object: the canonical array `[EPOCH, type_code, ...fields]`. Fails only on a
/// non-finite float among the fields.
pub fn encode_object(type_code: u16, fields: &[Value]) -> (r: Result<Vec<u8>, CodecError>)
    requires
        fields@.len() + 2 <= usize::MAX,
    ensures
        match encode_value(object_array(type_code, views(fields@))) {
            Ok(b) => r matches Ok(out) && out@ == b,
            Err(e) => r == Err::<Vec<u8>, CodecError>(e),
        },
        r is Ok <==> floats_finite(object_array(type_code, views(fields@))),
        r matches Err(e) ==> e == CodecError::NonCanonicalFloat,
{
    proof {
        crate::laws::law_encode_fails_only_on_non_finite_floats(object_array(type_code, views(fields@)));
    }
    let ghost items = seq![CborValue::Uint(EPOCH), CborValue::Uint(type_code as u64)] + views(fields@);
    let mut out: Vec<u8> = Vec::new();
    put_head(&mut out, 4, (fields.len() + 2) as u64);
    put_head(&mut out, 0, EPOCH);
    put_head(&mut out, 0, type_code as u64);
    proof {
        assert(items[0] == CborValue::Uint(EPOCH));
        assert(items.drop_first()[0] == CborValue::Uint(type_code as u64));
        assert(items.drop_first().drop_first() =~= views(fields@));
    }
    let ghost fv = views(fields@);
    let ghost mut produced: Seq<u8> = Seq::empty();
    let mut i: usize = 0;
    assert(fv.skip(0) =~= fv);
    assert(out@ =~= head(4, items.len() as u64) + (head(0, EPOCH) + head(0, type_code as u64)) + produced);
    while i < fields.len()
        invariant
            i <= fields@.len(),
            fv == views(fields@),
            items == seq![CborValue::Uint(EPOCH), CborValue::Uint(type_code as u64)] + fv,
            items.len() == fv.len() + 2,
            items[0] is Uint,
            items[1] is Uint,
            items[0]->Uint_0 == EPOCH,
            items[1]->Uint_0 == type_code as u64,
            items.drop_first().drop_first() == fv,
            out@ == head(4, items.len() as u64) + (head(0, EPOCH) + head(0, type_code as u64)) + produced,
            encode_items(fv) == prepend_bytes(produced, encode_items(fv.skip(i as int))),
        decreases fields@.len() - i,
    {
        proof {
            let rest = fv.skip(i as int);
            assert(rest[0] == fields@[i as int]@);
            assert(rest.drop_first() =~= fv.skip(i + 1));
        }
        let ghost before = out@;
        match encode_into(&mut out, &fields[i]) {
            Ok(()) => {},
            Err(e) => {
                proof {
                    assert(encode_items(fv.skip(i as int)) == Err::<Seq<u8>, CodecError>(e));
                    lemma_encode_items_two(items, fv);
                    crate::laws::law_encode_fails_only_on_non_finite_floats(
                        object_array(type_code, views(fields@)),
                    );
                }
                return Err(e);
            },
        }
        proof {
            let b = out@.skip(before.len() as int);
            assert(out@ =~= before + b);
            match encode_items(fv.skip(i + 1)) {
                Ok(x) => {
                    assert(produced + (b + x) =~= (produced + b) + x);
                },
                Err(e) => {},
            }
            produced = produced + b;
        }
        i = i + 1;
    }
    proof {
        assert(fv.skip(i as int) =~= Seq::<CborValue>::empty());
        assert(produced + Seq::<u8>::empty() =~= produced);
        lemma_encode_items_two(items, fv);
        assert(encode_items(fv) == Ok::<Seq<u8>, CodecError>(produced));
        assert(encode_items(items) == Ok::<Seq<u8>, CodecError>(
            head(0, EPOCH) + head(0, type_code as u64) + produced,
        ));
        assert(out@ =~= head(4, items.len() as u64) + (head(0, EPOCH) + head(0, type_code as u64) + produced));
    }
    Ok(out)
}

} // verus!
