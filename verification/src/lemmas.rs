//! Facts about the profile's building blocks: big-endian integers, item heads, the byte-string
//! order, and the key sort.

use vstd::prelude::*;
use crate::spec::{
    be64_of, be8, bytes_lt, from_be2, from_be4, from_be8, head, insert_by_key, parse_arg,
    parse_items, parse_pairs, parse_simple_or_float, parse_value, sort_by_key, EncodedPair,
};
use crate::value::{CborValue, CodecError, MAX_DEPTH};
use vstd::utf8::{decode_utf8, valid_utf8};

verus! {

broadcast use {vstd::seq::group_seq_axioms, vstd::seq_lib::group_seq_properties};

// ---- big-endian integers --------------------------------------------------------------------

proof fn lemma_be2_of_value(x: u64)
    by (bit_vector)
    requires
        x <= 0xffff,
    ensures
        from_be2((x >> 8u64) as u8, x as u8) == x,
{
}

proof fn lemma_value_of_be2(b0: u8, b1: u8)
    by (bit_vector)
    ensures
        (from_be2(b0, b1) >> 8u64) as u8 == b0,
        from_be2(b0, b1) as u8 == b1,
        from_be2(b0, b1) <= 0xffff,
{
}

proof fn lemma_be4_of_value(x: u64)
    by (bit_vector)
    requires
        x <= 0xffff_ffff,
    ensures
        from_be4((x >> 24u64) as u8, (x >> 16u64) as u8, (x >> 8u64) as u8, x as u8) == x,
{
}

proof fn lemma_value_of_be4(b0: u8, b1: u8, b2: u8, b3: u8)
    by (bit_vector)
    ensures
        (from_be4(b0, b1, b2, b3) >> 24u64) as u8 == b0,
        (from_be4(b0, b1, b2, b3) >> 16u64) as u8 == b1,
        (from_be4(b0, b1, b2, b3) >> 8u64) as u8 == b2,
        from_be4(b0, b1, b2, b3) as u8 == b3,
        from_be4(b0, b1, b2, b3) <= 0xffff_ffff,
{
}

proof fn lemma_be8_of_value(x: u64)
    by (bit_vector)
    ensures
        from_be8(
            (x >> 56u64) as u8,
            (x >> 48u64) as u8,
            (x >> 40u64) as u8,
            (x >> 32u64) as u8,
            (x >> 24u64) as u8,
            (x >> 16u64) as u8,
            (x >> 8u64) as u8,
            x as u8,
        ) == x,
{
}

proof fn lemma_value_of_be8(b0: u8, b1: u8, b2: u8, b3: u8, b4: u8, b5: u8, b6: u8, b7: u8)
    by (bit_vector)
    ensures
        (from_be8(b0, b1, b2, b3, b4, b5, b6, b7) >> 56u64) as u8 == b0,
        (from_be8(b0, b1, b2, b3, b4, b5, b6, b7) >> 48u64) as u8 == b1,
        (from_be8(b0, b1, b2, b3, b4, b5, b6, b7) >> 40u64) as u8 == b2,
        (from_be8(b0, b1, b2, b3, b4, b5, b6, b7) >> 32u64) as u8 == b3,
        (from_be8(b0, b1, b2, b3, b4, b5, b6, b7) >> 24u64) as u8 == b4,
        (from_be8(b0, b1, b2, b3, b4, b5, b6, b7) >> 16u64) as u8 == b5,
        (from_be8(b0, b1, b2, b3, b4, b5, b6, b7) >> 8u64) as u8 == b6,
        from_be8(b0, b1, b2, b3, b4, b5, b6, b7) as u8 == b7,
{
}

/// Reading back the eight big-endian bytes of `x` gives `x`.
pub proof fn lemma_be8_roundtrip(x: u64, rest: Seq<u8>)
    ensures
        be64_of(be8(x) + rest) == x,
{
    let s = be8(x) + rest;
    assert(s[0] == (x >> 56u64) as u8 && s[7] == x as u8);
    lemma_be8_of_value(x);
}

/// Writing the big-endian bytes of the integer read from eight bytes gives those bytes.
pub proof fn lemma_be8_of_read(s: Seq<u8>)
    requires
        s.len() >= 8,
    ensures
        be8(be64_of(s)) == s.take(8),
{
    lemma_value_of_be8(s[0], s[1], s[2], s[3], s[4], s[5], s[6], s[7]);
    assert(be8(be64_of(s)) =~= s.take(8));
}

// ---- item heads -----------------------------------------------------------------------------

/// The initial byte of a head carries its major type, and reading its argument back from the
/// head (followed by anything) gives the argument and the rest of the head's length.
pub proof fn lemma_head_parses(major: u8, n: u64, rest: Seq<u8>)
    requires
        major < 8,
    ensures
        ({
            let h = head(major, n);
            &&& 1 <= h.len() <= 9
            &&& h[0] / 32 == major
            &&& parse_arg(h[0] % 32, h.drop_first() + rest) == Ok::<(u64, nat), CodecError>(
                (n, (h.len() - 1) as nat),
            )
        }),
{
    let h = head(major, n);
    let s = h.drop_first() + rest;
    if n <= 23 {
    } else if n <= 0xff {
        assert(s[0] == n as u8);
    } else if n <= 0xffff {
        assert(s[0] == (n >> 8u64) as u8 && s[1] == n as u8);
        lemma_be2_of_value(n);
    } else if n <= 0xffff_ffff {
        assert(s[0] == (n >> 24u64) as u8 && s[1] == (n >> 16u64) as u8);
        assert(s[2] == (n >> 8u64) as u8 && s[3] == n as u8);
        lemma_be4_of_value(n);
    } else {
        lemma_be8_roundtrip(n, rest);
        assert(s =~= be8(n) + rest);
    }
}

/// A head that reads back as argument `n` is exactly the shortest-form head of `n`.
pub proof fn lemma_arg_is_head(s: Seq<u8>, major: u8)
    requires
        s.len() >= 1,
        major < 8,
        s[0] / 32 == major,
        parse_arg(s[0] % 32, s.drop_first()) is Ok,
    ensures
        ({
            let (n, k) = parse_arg(s[0] % 32, s.drop_first())->Ok_0;
            &&& 1 + k <= s.len()
            &&& head(major, n) == s.take((1 + k) as int)
        }),
{
    let ai = s[0] % 32;
    let r = s.drop_first();
    let (n, k) = parse_arg(ai, r)->Ok_0;
    assert(s[0] == major * 32 + ai);
    if ai <= 23 {
        assert(head(major, n) =~= s.take(1));
    } else if ai == 24 {
        assert(head(major, n) =~= s.take(2));
    } else if ai == 25 {
        lemma_value_of_be2(r[0], r[1]);
        assert(head(major, n) =~= s.take(3));
    } else if ai == 26 {
        lemma_value_of_be4(r[0], r[1], r[2], r[3]);
        assert(head(major, n) =~= s.take(5));
    } else {
        lemma_value_of_be8(r[0], r[1], r[2], r[3], r[4], r[5], r[6], r[7]);
        assert(head(major, n) =~= s.take(9));
    }
}

// ---- one step of reading a value -----------------------------------------------------------

/// Reading an integer item.
pub proof fn lemma_parse_value_int(s: Seq<u8>, depth: int)
    requires
        depth <= MAX_DEPTH,
        s.len() > 0,
        s[0] / 32 <= 1,
    ensures
        parse_value(s, depth) == match parse_arg(s[0] % 32, s.drop_first()) {
            Ok((n, k)) => Ok((
                if s[0] / 32 == 0 {
                    CborValue::Uint(n)
                } else {
                    CborValue::Nint(n)
                },
                1 + k,
            )),
            Err(e) => Err(e),
        },
{
    reveal(parse_value);
}

/// Reading a byte-string or text item.
pub proof fn lemma_parse_value_string(s: Seq<u8>, depth: int)
    requires
        depth <= MAX_DEPTH,
        s.len() > 0,
        s[0] / 32 == 2 || s[0] / 32 == 3,
    ensures
        parse_value(s, depth) == match parse_arg(s[0] % 32, s.drop_first()) {
            Ok((n, k)) => if n > s.drop_first().len() - k {
                Err(CodecError::UnexpectedEof)
            } else {
                let bytes = s.drop_first().subrange(k as int, k + n);
                if s[0] / 32 == 2 {
                    Ok((CborValue::Bytes(bytes), (1 + k + n) as nat))
                } else if valid_utf8(bytes) {
                    Ok((CborValue::Text(decode_utf8(bytes)), (1 + k + n) as nat))
                } else {
                    Err(CodecError::InvalidUtf8)
                }
            },
            Err(e) => Err(e),
        },
{
    reveal(parse_value);
}

/// Reading an array item.
pub proof fn lemma_parse_value_array(s: Seq<u8>, depth: int)
    requires
        depth <= MAX_DEPTH,
        s.len() > 0,
        s[0] / 32 == 4,
    ensures
        parse_value(s, depth) == match parse_arg(s[0] % 32, s.drop_first()) {
            Ok((n, k)) => match parse_items(s.skip((1 + k) as int), depth + 1, n as nat) {
                Ok((items, m)) => Ok((CborValue::Array(items), 1 + k + m)),
                Err(e) => Err(e),
            },
            Err(e) => Err(e),
        },
{
    reveal(parse_value);
}

/// Reading a map item.
pub proof fn lemma_parse_value_map(s: Seq<u8>, depth: int)
    requires
        depth <= MAX_DEPTH,
        s.len() > 0,
        s[0] / 32 == 5,
    ensures
        parse_value(s, depth) == match parse_arg(s[0] % 32, s.drop_first()) {
            Ok((n, k)) => match parse_pairs(s.skip((1 + k) as int), depth + 1, n as nat, None) {
                Ok((pairs, m)) => Ok((CborValue::Mapping(pairs), 1 + k + m)),
                Err(e) => Err(e),
            },
            Err(e) => Err(e),
        },
{
    reveal(parse_value);
}

/// Reading a simple value or float item.
pub proof fn lemma_parse_value_simple(s: Seq<u8>, depth: int)
    requires
        depth <= MAX_DEPTH,
        s.len() > 0,
        s[0] / 32 == 7,
    ensures
        parse_value(s, depth) == parse_simple_or_float(s[0] % 32, s.drop_first()),
{
    reveal(parse_value);
}

// ---- byte-string order ----------------------------------------------------------------------

/// No byte string is below itself.
pub proof fn lemma_bytes_lt_irreflexive(a: Seq<u8>)
    ensures
        !bytes_lt(a, a),
    decreases a.len(),
{
    if a.len() > 0 {
        lemma_bytes_lt_irreflexive(a.drop_first());
    }
}

/// The order is asymmetric.
pub proof fn lemma_bytes_lt_asymmetric(a: Seq<u8>, b: Seq<u8>)
    ensures
        bytes_lt(a, b) ==> !bytes_lt(b, a),
    decreases a.len(),
{
    if a.len() > 0 && b.len() > 0 && a[0] == b[0] {
        lemma_bytes_lt_asymmetric(a.drop_first(), b.drop_first());
    }
}

/// Any two byte strings are ordered one way or the other, or equal.
pub proof fn lemma_bytes_lt_total(a: Seq<u8>, b: Seq<u8>)
    ensures
        bytes_lt(a, b) || bytes_lt(b, a) || a == b,
    decreases a.len(),
{
    if a.len() == 0 {
        if b.len() == 0 {
            assert(a =~= b);
        }
    } else if b.len() > 0 && a[0] == b[0] {
        lemma_bytes_lt_total(a.drop_first(), b.drop_first());
        if a.drop_first() == b.drop_first() {
            assert(a =~= seq![a[0]] + a.drop_first());
            assert(b =~= seq![b[0]] + b.drop_first());
        }
    }
}

/// The order is transitive.
pub proof fn lemma_bytes_lt_transitive(a: Seq<u8>, b: Seq<u8>, c: Seq<u8>)
    requires
        bytes_lt(a, b),
        bytes_lt(b, c),
    ensures
        bytes_lt(a, c),
    decreases a.len(),
{
    if a.len() > 0 && b.len() > 0 && c.len() > 0 && a[0] == b[0] && b[0] == c[0] {
        lemma_bytes_lt_transitive(a.drop_first(), b.drop_first(), c.drop_first());
    }
}

// ---- the key sort ---------------------------------------------------------------------------

/// Keys ascend strictly from each entry to the next.
pub open spec fn keys_strictly_ascending(s: Seq<EncodedPair>) -> bool {
    forall|i: int| 0 <= i && i + 1 < s.len() ==> #[trigger] bytes_lt(s[i].0, s[i + 1].0)
}

/// Keys never descend from an entry to the next.
pub open spec fn keys_ascending(s: Seq<EncodedPair>) -> bool {
    forall|i: int| 0 <= i && i + 1 < s.len() ==> !#[trigger] bytes_lt(s[i + 1].0, s[i].0)
}

/// Inserting adds exactly one entry.
pub proof fn lemma_insert_len(sorted: Seq<EncodedPair>, p: EncodedPair)
    ensures
        insert_by_key(sorted, p).len() == sorted.len() + 1,
    decreases sorted.len(),
{
    if sorted.len() > 0 && bytes_lt(p.0, sorted.last().0) {
        lemma_insert_len(sorted.drop_last(), p);
    }
}

/// Sorting keeps the number of entries.
pub proof fn lemma_sort_len(s: Seq<EncodedPair>)
    ensures
        sort_by_key(s).len() == s.len(),
    decreases s.len(),
{
    if s.len() > 0 {
        lemma_sort_len(s.drop_last());
        lemma_insert_len(sort_by_key(s.drop_last()), s.last());
    }
}

/// Every entry after inserting is the inserted one or was there before.
pub proof fn lemma_insert_members(sorted: Seq<EncodedPair>, p: EncodedPair)
    ensures
        forall|i: int|
            0 <= i < insert_by_key(sorted, p).len() ==> #[trigger] insert_by_key(sorted, p)[i] == p
                || sorted.contains(insert_by_key(sorted, p)[i]),
    decreases sorted.len(),
{
    lemma_insert_len(sorted, p);
    if sorted.len() > 0 && bytes_lt(p.0, sorted.last().0) {
        let t = sorted.drop_last();
        lemma_insert_members(t, p);
        lemma_insert_len(t, p);
        assert forall|i: int| 0 <= i < insert_by_key(sorted, p).len() implies #[trigger] insert_by_key(
            sorted,
            p,
        )[i] == p || sorted.contains(insert_by_key(sorted, p)[i]) by {
            if i < t.len() + 1 {
                let x = insert_by_key(t, p)[i];
                if x != p {
                    let j = choose|j: int| 0 <= j < t.len() && t[j] == x;
                    assert(sorted[j] == x);
                }
            } else {
                assert(sorted[sorted.len() - 1] == sorted.last());
            }
        }
    } else {
        assert forall|i: int| 0 <= i < insert_by_key(sorted, p).len() implies #[trigger] insert_by_key(
            sorted,
            p,
        )[i] == p || sorted.contains(insert_by_key(sorted, p)[i]) by {
            if i < sorted.len() {
                assert(sorted[i] == insert_by_key(sorted, p)[i]);
            }
        }
    }
}

/// Every entry of the sorted sequence is an entry of the input.
pub proof fn lemma_sort_members(s: Seq<EncodedPair>)
    ensures
        forall|i: int| 0 <= i < sort_by_key(s).len() ==> s.contains(#[trigger] sort_by_key(s)[i]),
    decreases s.len(),
{
    lemma_sort_len(s);
    if s.len() > 0 {
        let t = s.drop_last();
        lemma_sort_members(t);
        lemma_insert_members(sort_by_key(t), s.last());
        assert forall|i: int| 0 <= i < sort_by_key(s).len() implies s.contains(
            #[trigger] sort_by_key(s)[i],
        ) by {
            let x = sort_by_key(s)[i];
            if x == s.last() {
                assert(s[s.len() - 1] == x);
            } else {
                let j = choose|j: int| 0 <= j < sort_by_key(t).len() && sort_by_key(t)[j] == x;
                let q = choose|q: int| 0 <= q < t.len() && t[q] == sort_by_key(t)[j];
                assert(s[q] == x);
            }
        }
    }
}

/// Inserting into a sequence whose keys never descend keeps that property.
pub proof fn lemma_insert_ascending(sorted: Seq<EncodedPair>, p: EncodedPair)
    requires
        keys_ascending(sorted),
    ensures
        keys_ascending(insert_by_key(sorted, p)),
        insert_by_key(sorted, p).len() > 0,
        sorted.len() > 0 && bytes_lt(p.0, sorted.last().0) ==> insert_by_key(sorted, p).last()
            == sorted.last(),
        !(sorted.len() > 0 && bytes_lt(p.0, sorted.last().0)) ==> insert_by_key(sorted, p).last() == p,
    decreases sorted.len(),
{
    lemma_insert_len(sorted, p);
    let r = insert_by_key(sorted, p);
    if sorted.len() == 0 {
    } else if !bytes_lt(p.0, sorted.last().0) {
        assert forall|i: int| 0 <= i && i + 1 < r.len() implies !#[trigger] bytes_lt(r[i + 1].0, r[i].0) by {
            if i + 1 == sorted.len() {
                lemma_bytes_lt_total(p.0, sorted.last().0);
                lemma_bytes_lt_irreflexive(p.0);
            } else {
                assert(r[i] == sorted[i] && r[i + 1] == sorted[i + 1]);
            }
        }
    } else {
        let t = sorted.drop_last();
        assert(keys_ascending(t)) by {
            assert forall|i: int| 0 <= i && i + 1 < t.len() implies !#[trigger] bytes_lt(t[i + 1].0, t[i].0) by {
                assert(t[i] == sorted[i] && t[i + 1] == sorted[i + 1]);
            }
        }
        lemma_insert_ascending(t, p);
        let u = insert_by_key(t, p);
        lemma_insert_len(t, p);
        assert(r == u.push(sorted.last()));
        assert forall|i: int| 0 <= i && i + 1 < r.len() implies !#[trigger] bytes_lt(r[i + 1].0, r[i].0) by {
            if i + 1 == u.len() {
                assert(r[i + 1] == sorted.last());
                assert(r[i] == u.last());
                if t.len() > 0 && bytes_lt(p.0, t.last().0) {
                    assert(u.last() == t.last());
                    assert(t.last() == sorted[sorted.len() - 2]);
                    let q = sorted.len() - 2;
                    assert(!bytes_lt(sorted[q + 1].0, sorted[q].0));
                } else {
                    assert(u.last() == p);
                    lemma_bytes_lt_asymmetric(p.0, sorted.last().0);
                }
            } else {
                assert(r[i] == u[i] && r[i + 1] == u[i + 1]);
            }
        }
    }
}

/// Sorting yields keys that never descend.
pub proof fn lemma_sort_ascending(s: Seq<EncodedPair>)
    ensures
        keys_ascending(sort_by_key(s)),
    decreases s.len(),
{
    if s.len() > 0 {
        lemma_sort_ascending(s.drop_last());
        lemma_insert_ascending(sort_by_key(s.drop_last()), s.last());
    }
}

/// Sorting a sequence whose keys strictly ascend leaves it as it is.
pub proof fn lemma_sort_of_ascending(s: Seq<EncodedPair>)
    requires
        keys_strictly_ascending(s),
    ensures
        sort_by_key(s) == s,
    decreases s.len(),
{
    if s.len() > 0 {
        let t = s.drop_last();
        assert(keys_strictly_ascending(t)) by {
            assert forall|i: int| 0 <= i && i + 1 < t.len() implies #[trigger] bytes_lt(t[i].0, t[i + 1].0) by {
                assert(t[i] == s[i] && t[i + 1] == s[i + 1]);
            }
        }
        lemma_sort_of_ascending(t);
        if t.len() > 0 {
            assert(bytes_lt(s[s.len() - 2].0, s[s.len() - 1].0));
            lemma_bytes_lt_asymmetric(t.last().0, s.last().0);
        }
        assert(t.push(s.last()) =~= s);
    }
}

} // verus!
