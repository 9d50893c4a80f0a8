//! The Loom Canonical CBOR profile as mathematics: the single canonical byte form of a value
//! (`encode_value`) and the strict reading of bytes (`parse_value`, `decode_bytes`).

use vstd::prelude::*;
use vstd::utf8::*;
use crate::value::{
    CborValue, CodecError, EPOCH, FLOAT_EXPONENT_MASK, MAX_DEPTH, NEGATIVE_ZERO_BITS,
};

verus! {

broadcast use {vstd::seq::group_seq_axioms, vstd::seq_lib::group_seq_properties};

// ---- big-endian integers --------------------------------------------------------------------

/// The two big-endian bytes of the low 16 bits of `x`.
pub open spec fn be2(x: u64) -> Seq<u8> {
    seq![(x >> 8u64) as u8, x as u8]
}

/// The four big-endian bytes of the low 32 bits of `x`.
pub open spec fn be4(x: u64) -> Seq<u8> {
    seq![(x >> 24u64) as u8, (x >> 16u64) as u8, (x >> 8u64) as u8, x as u8]
}

/// The eight big-endian bytes of `x`.
pub open spec fn be8(x: u64) -> Seq<u8> {
    seq![
        (x >> 56u64) as u8,
        (x >> 48u64) as u8,
        (x >> 40u64) as u8,
        (x >> 32u64) as u8,
        (x >> 24u64) as u8,
        (x >> 16u64) as u8,
        (x >> 8u64) as u8,
        x as u8,
    ]
}

/// The integer whose big-endian bytes are `b0 b1`.
pub open spec fn from_be2(b0: u8, b1: u8) -> u64 {
    ((b0 as u64) << 8u64) | (b1 as u64)
}

/// The integer whose big-endian bytes are `b0 .. b3`.
pub open spec fn from_be4(b0: u8, b1: u8, b2: u8, b3: u8) -> u64 {
    ((b0 as u64) << 24u64) | ((b1 as u64) << 16u64) | ((b2 as u64) << 8u64) | (b3 as u64)
}

/// The integer whose big-endian bytes are `b0 .. b7`.
pub open spec fn from_be8(b0: u8, b1: u8, b2: u8, b3: u8, b4: u8, b5: u8, b6: u8, b7: u8) -> u64 {
    ((b0 as u64) << 56u64) | ((b1 as u64) << 48u64) | ((b2 as u64) << 40u64) | ((b3 as u64) << 32u64)
        | ((b4 as u64) << 24u64) | ((b5 as u64) << 16u64) | ((b6 as u64) << 8u64) | (b7 as u64)
}

/// The integer whose big-endian bytes are the first eight of `s`.
pub open spec fn be64_of(s: Seq<u8>) -> u64 {
    from_be8(s[0], s[1], s[2], s[3], s[4], s[5], s[6], s[7])
}

// ---- item heads -----------------------------------------------------------------------------

/// The shortest-form head of a data item of major type `major` with argument `arg`.
pub open spec fn head(major: u8, arg: u64) -> Seq<u8> {
    let m = major as int * 32;
    if arg <= 23 {
        seq![(m + arg) as u8]
    } else if arg <= 0xff {
        seq![(m + 24) as u8, arg as u8]
    } else if arg <= 0xffff {
        seq![(m + 25) as u8] + be2(arg)
    } else if arg <= 0xffff_ffff {
        seq![(m + 26) as u8] + be4(arg)
    } else {
        seq![(m + 27) as u8] + be8(arg)
    }
}

/// Reads the argument announced by additional information `ai`, from the bytes `s` that follow
/// the initial byte, enforcing the shortest form. Yields the argument and the bytes it used.
pub open spec fn parse_arg(ai: u8, s: Seq<u8>) -> Result<(u64, nat), CodecError> {
    if ai <= 23 {
        Ok((ai as u64, 0))
    } else if ai == 24 {
        if s.len() < 1 {
            Err(CodecError::UnexpectedEof)
        } else if s[0] < 24 {
            Err(CodecError::NonMinimalInt)
        } else {
            Ok((s[0] as u64, 1))
        }
    } else if ai == 25 {
        if s.len() < 2 {
            Err(CodecError::UnexpectedEof)
        } else if from_be2(s[0], s[1]) <= 0xff {
            Err(CodecError::NonMinimalInt)
        } else {
            Ok((from_be2(s[0], s[1]), 2))
        }
    } else if ai == 26 {
        if s.len() < 4 {
            Err(CodecError::UnexpectedEof)
        } else if from_be4(s[0], s[1], s[2], s[3]) <= 0xffff {
            Err(CodecError::NonMinimalInt)
        } else {
            Ok((from_be4(s[0], s[1], s[2], s[3]), 4))
        }
    } else if ai == 27 {
        if s.len() < 8 {
            Err(CodecError::UnexpectedEof)
        } else if be64_of(s) <= 0xffff_ffff {
            Err(CodecError::NonMinimalInt)
        } else {
            Ok((be64_of(s), 8))
        }
    } else if ai <= 30 {
        Err(CodecError::ReservedAdditionalInfo)
    } else {
        Err(CodecError::IndefiniteLength)
    }
}

// ---- floats ---------------------------------------------------------------------------------

/// Whether a binary64 bit pattern denotes a finite number (its exponent is not all ones).
pub open spec fn float_is_finite(bits: u64) -> bool {
    bits & FLOAT_EXPONENT_MASK != FLOAT_EXPONENT_MASK
}

/// The bit pattern the profile writes for a float: `-0.0` is written as `+0.0`.
pub open spec fn float_normalized(bits: u64) -> u64 {
    if bits == NEGATIVE_ZERO_BITS {
        0
    } else {
        bits
    }
}

// ---- byte-string order ----------------------------------------------------------------------

/// Lexicographic order on byte strings (a proper prefix is smaller), the order of `Vec<u8>`.
pub open spec fn bytes_lt(a: Seq<u8>, b: Seq<u8>) -> bool
    decreases a.len(),
{
    if a.len() == 0 {
        b.len() > 0
    } else if b.len() == 0 {
        false
    } else if a[0] < b[0] {
        true
    } else if a[0] > b[0] {
        false
    } else {
        bytes_lt(a.drop_first(), b.drop_first())
    }
}

/// An encoded map entry: the canonical bytes of the key and of the value.
pub type EncodedPair = (Seq<u8>, Seq<u8>);

/// Places `p` into `sorted` after the last entry whose key is not greater than `p`'s key.
pub open spec fn insert_by_key(sorted: Seq<EncodedPair>, p: EncodedPair) -> Seq<EncodedPair>
    decreases sorted.len(),
{
    if sorted.len() == 0 || !bytes_lt(p.0, sorted.last().0) {
        sorted.push(p)
    } else {
        insert_by_key(sorted.drop_last(), p).push(sorted.last())
    }
}

/// The entries of `s` in ascending key-byte order (entries with equal keys keep their order).
pub open spec fn sort_by_key(s: Seq<EncodedPair>) -> Seq<EncodedPair>
    decreases s.len(),
{
    if s.len() == 0 {
        s
    } else {
        insert_by_key(sort_by_key(s.drop_last()), s.last())
    }
}

/// Whether two neighbouring entries of `s` have the same key bytes.
pub open spec fn has_adjacent_equal_keys(s: Seq<EncodedPair>) -> bool {
    exists|i: int| 0 <= i && i + 1 < s.len() && #[trigger] s[i].0 == s[i + 1].0
}

/// The concatenation of the key and value bytes of every entry, in order.
pub open spec fn concat_pairs(s: Seq<EncodedPair>) -> Seq<u8>
    decreases s.len(),
{
    if s.len() == 0 {
        Seq::empty()
    } else {
        s[0].0 + s[0].1 + concat_pairs(s.drop_first())
    }
}

// ---- encode ---------------------------------------------------------------------------------

/// The single canonical encoding of a value, or the failure encode reports: the first
/// non-finite float met in depth-first order. A map's entries are written in ascending order of
/// their key bytes; entries whose keys encode alike keep their given order.
pub open spec fn encode_value(v: CborValue) -> Result<Seq<u8>, CodecError>
    decreases v,
{
    match v {
        CborValue::Uint(n) => Ok(head(0, n)),
        CborValue::Nint(n) => Ok(head(1, n)),
        CborValue::Bytes(b) => Ok(head(2, b.len() as u64) + b),
        CborValue::Text(t) => Ok(head(3, encode_utf8(t).len() as u64) + encode_utf8(t)),
        CborValue::Array(items) => match encode_items(items) {
            Ok(body) => Ok(head(4, items.len() as u64) + body),
            Err(e) => Err(e),
        },
        CborValue::Mapping(pairs) => match encode_pairs(pairs) {
            Ok(entries) => Ok(head(5, pairs.len() as u64) + concat_pairs(sort_by_key(entries))),
            Err(e) => Err(e),
        },
        CborValue::Float(bits) => if !float_is_finite(bits) {
            Err(CodecError::NonCanonicalFloat)
        } else {
            Ok(seq![0xfbu8] + be8(float_normalized(bits)))
        },
        CborValue::Bool(b) => Ok(seq![if b { 0xf5u8 } else { 0xf4u8 }]),
        CborValue::Null => Ok(seq![0xf6u8]),
    }
}

/// Every float inside `v`, at any depth (map keys included), is finite.
pub open spec fn floats_finite(v: CborValue) -> bool
    decreases v,
{
    match v {
        CborValue::Float(bits) => float_is_finite(bits),
        CborValue::Array(items) => floats_finite_items(items),
        CborValue::Mapping(pairs) => floats_finite_pairs(pairs),
        _ => true,
    }
}

/// Every float inside every item is finite.
pub open spec fn floats_finite_items(items: Seq<CborValue>) -> bool
    decreases items,
{
    if items.len() == 0 {
        true
    } else {
        proof {
            vstd::seq::axiom_seq_index_decreases(items, 0);
            vstd::seq::axiom_seq_subrange_decreases(items, 1, items.len() as int);
        }
        floats_finite(items[0]) && floats_finite_items(items.drop_first())
    }
}

/// Every float inside every key and value is finite.
pub open spec fn floats_finite_pairs(pairs: Seq<(CborValue, CborValue)>) -> bool
    decreases pairs,
{
    if pairs.len() == 0 {
        true
    } else {
        proof {
            vstd::seq::axiom_seq_index_decreases(pairs, 0);
            vstd::seq::axiom_seq_subrange_decreases(pairs, 1, pairs.len() as int);
        }
        floats_finite(pairs[0].0) && floats_finite(pairs[0].1) && floats_finite_pairs(
            pairs.drop_first(),
        )
    }
}

/// The concatenated encodings of `items`, or the first item's failure.
pub open spec fn encode_items(items: Seq<CborValue>) -> Result<Seq<u8>, CodecError>
    decreases items,
{
    if items.len() == 0 {
        Ok(Seq::empty())
    } else {
        proof {
            vstd::seq::axiom_seq_index_decreases(items, 0);
            vstd::seq::axiom_seq_subrange_decreases(items, 1, items.len() as int);
        }
        match encode_value(items[0]) {
            Ok(b) => match encode_items(items.drop_first()) {
                Ok(rest) => Ok(b + rest),
                Err(e) => Err(e),
            },
            Err(e) => Err(e),
        }
    }
}

/// The encoded entries of `pairs` in their given order, or the first failure (key before
/// value, entry by entry).
pub open spec fn encode_pairs(pairs: Seq<(CborValue, CborValue)>) -> Result<Seq<EncodedPair>, CodecError>
    decreases pairs,
{
    if pairs.len() == 0 {
        Ok(Seq::empty())
    } else {
        proof {
            vstd::seq::axiom_seq_index_decreases(pairs, 0);
            vstd::seq::axiom_seq_subrange_decreases(pairs, 1, pairs.len() as int);
        }
        match encode_value(pairs[0].0) {
            Ok(k) => match encode_value(pairs[0].1) {
                Ok(v) => match encode_pairs(pairs.drop_first()) {
                    Ok(rest) => Ok(seq![(k, v)] + rest),
                    Err(e) => Err(e),
                },
                Err(e) => Err(e),
            },
            Err(e) => Err(e),
        }
    }
}

// ---- decode ---------------------------------------------------------------------------------

#[verifier::opaque]
/// Reads one value at nesting depth `depth` from the front of `s`, strictly: yields the value
/// and the number of bytes it spans, or the failure the strict reader reports.
pub open spec fn parse_value(s: Seq<u8>, depth: int) -> Result<(CborValue, nat), CodecError>
    decreases MAX_DEPTH + 1 - depth, 0int,
{
    if depth > MAX_DEPTH {
        Err(CodecError::DepthExceeded)
    } else if s.len() == 0 {
        Err(CodecError::UnexpectedEof)
    } else {
        let ib = s[0];
        let major = ib / 32;
        let ai = ib % 32;
        let rest = s.drop_first();
        if major == 0 {
            match parse_arg(ai, rest) {
                Ok((n, k)) => Ok((CborValue::Uint(n), 1 + k)),
                Err(e) => Err(e),
            }
        } else if major == 1 {
            match parse_arg(ai, rest) {
                Ok((n, k)) => Ok((CborValue::Nint(n), 1 + k)),
                Err(e) => Err(e),
            }
        } else if major == 2 || major == 3 {
            match parse_arg(ai, rest) {
                Ok((n, k)) => if n > rest.len() - k {
                    Err(CodecError::UnexpectedEof)
                } else {
                    let bytes = rest.subrange(k as int, k + n);
                    if major == 2 {
                        Ok((CborValue::Bytes(bytes), (1 + k + n) as nat))
                    } else if valid_utf8(bytes) {
                        Ok((CborValue::Text(decode_utf8(bytes)), (1 + k + n) as nat))
                    } else {
                        Err(CodecError::InvalidUtf8)
                    }
                },
                Err(e) => Err(e),
            }
        } else if major == 4 {
            match parse_arg(ai, rest) {
                Ok((n, k)) => match parse_items(s.skip((1 + k) as int), depth + 1, n as nat) {
                    Ok((items, m)) => Ok((CborValue::Array(items), 1 + k + m)),
                    Err(e) => Err(e),
                },
                Err(e) => Err(e),
            }
        } else if major == 5 {
            match parse_arg(ai, rest) {
                Ok((n, k)) => match parse_pairs(s.skip((1 + k) as int), depth + 1, n as nat, None) {
                    Ok((pairs, m)) => Ok((CborValue::Mapping(pairs), 1 + k + m)),
                    Err(e) => Err(e),
                },
                Err(e) => Err(e),
            }
        } else if major == 6 {
            Err(CodecError::Tag)
        } else {
            parse_simple_or_float(ai, rest)
        }
    }
}

/// Reads a major-type-7 item with additional information `ai` from the bytes after its
/// initial byte.
pub open spec fn parse_simple_or_float(ai: u8, rest: Seq<u8>) -> Result<(CborValue, nat), CodecError> {
    if ai == 20 {
        Ok((CborValue::Bool(false), 1))
    } else if ai == 21 {
        Ok((CborValue::Bool(true), 1))
    } else if ai == 22 {
        Ok((CborValue::Null, 1))
    } else if ai == 25 || ai == 26 {
        Err(CodecError::NonCanonicalFloat)
    } else if ai == 27 {
        if rest.len() < 8 {
            Err(CodecError::UnexpectedEof)
        } else {
            let bits = be64_of(rest);
            if !float_is_finite(bits) || bits == NEGATIVE_ZERO_BITS {
                Err(CodecError::NonCanonicalFloat)
            } else {
                Ok((CborValue::Float(bits), 9))
            }
        }
    } else {
        Err(CodecError::UnsupportedSimpleValue)
    }
}

/// Reads `n` consecutive values at depth `depth` from the front of `s`.
pub open spec fn parse_items(s: Seq<u8>, depth: int, n: nat) -> Result<(Seq<CborValue>, nat), CodecError>
    decreases MAX_DEPTH + 1 - depth, n,
{
    if n == 0 {
        Ok((Seq::empty(), 0))
    } else {
        match parse_value(s, depth) {
            Ok((v, k)) => match parse_items(s.skip(k as int), depth, (n - 1) as nat) {
                Ok((vs, m)) => Ok((seq![v] + vs, k + m)),
                Err(e) => Err(e),
            },
            Err(e) => Err(e),
        }
    }
}

/// Reads one key/value entry at depth `depth` from the front of `s`; the key's bytes must be
/// greater than the previous key's bytes (`prev`). Yields the key, the value, the number of
/// bytes of the key, and the number of bytes of the whole entry.
pub open spec fn parse_entry(s: Seq<u8>, depth: int, prev: Option<Seq<u8>>) -> Result<
    (CborValue, CborValue, nat, nat),
    CodecError,
>
    decreases MAX_DEPTH + 1 - depth, 1int,
{
    match parse_value(s, depth) {
        Ok((key, k)) => {
            let key_bytes = s.take(k as int);
            if prev is Some && key_bytes == prev->0 {
                Err(CodecError::DuplicateMapKey)
            } else if prev is Some && bytes_lt(key_bytes, prev->0) {
                Err(CodecError::UnsortedMapKeys)
            } else {
                match parse_value(s.skip(k as int), depth) {
                    Ok((val, k2)) => Ok((key, val, k, k + k2)),
                    Err(e) => Err(e),
                }
            }
        },
        Err(e) => Err(e),
    }
}

/// Reads `n` consecutive key/value entries at depth `depth` from the front of `s`; each key's
/// bytes must be greater than the previous key's bytes (`prev` before the first).
pub open spec fn parse_pairs(s: Seq<u8>, depth: int, n: nat, prev: Option<Seq<u8>>) -> Result<
    (Seq<(CborValue, CborValue)>, nat),
    CodecError,
>
    decreases MAX_DEPTH + 1 - depth, n + 1,
{
    if n == 0 {
        Ok((Seq::empty(), 0))
    } else {
        match parse_entry(s, depth, prev) {
            Ok((key, val, k, t)) => match parse_pairs(
                s.skip(t as int),
                depth,
                (n - 1) as nat,
                Some(s.take(k as int)),
            ) {
                Ok((rest, m)) => Ok((seq![(key, val)] + rest, t + m)),
                Err(e) => Err(e),
            },
            Err(e) => Err(e),
        }
    }
}

/// Strictly decodes a whole byte string as a single top-level value.
pub open spec fn decode_bytes(b: Seq<u8>) -> Result<CborValue, CodecError> {
    match parse_value(b, 0) {
        Ok((v, k)) => if k != b.len() {
            Err(CodecError::TrailingBytes)
        } else {
            Ok(v)
        },
        Err(e) => Err(e),
    }
}

// ---- object framing -------------------------------------------------------------------------

/// The array a Loom object is framed as: `[EPOCH, type_code, ...fields]`.
pub open spec fn object_array(type_code: u16, fields: Seq<CborValue>) -> CborValue {
    CborValue::Array(seq![CborValue::Uint(EPOCH), CborValue::Uint(type_code as u64)] + fields)
}

/// Reads a decoded value as a Loom object: its type code and fields.
pub open spec fn object_of(v: CborValue) -> Result<(u16, Seq<CborValue>), CodecError> {
    match v {
        CborValue::Array(items) => if items.len() < 2 {
            Err(CodecError::NotAnObject)
        } else {
            match items[0] {
                CborValue::Uint(epoch) => if epoch != EPOCH {
                    Err(CodecError::WrongEpoch)
                } else {
                    match items[1] {
                        CborValue::Uint(t) => if t <= 0xffff {
                            Ok((t as u16, items.skip(2)))
                        } else {
                            Err(CodecError::NotAnObject)
                        },
                        _ => Err(CodecError::NotAnObject),
                    }
                },
                _ => Err(CodecError::NotAnObject),
            }
        },
        _ => Err(CodecError::NotAnObject),
    }
}

/// Strictly decodes a whole byte string as a Loom object.
pub open spec fn decode_object_bytes(b: Seq<u8>) -> Result<(u16, Seq<CborValue>), CodecError> {
    match decode_bytes(b) {
        Ok(v) => object_of(v),
        Err(e) => Err(e),
    }
}

} // verus!
