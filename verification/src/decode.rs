//! Strict decoding: reads exactly the profile forms and names every other form's failure,
//! proved equal to `spec::parse_value` / `spec::decode_bytes`.

use vstd::prelude::*;
use vstd::utf8::{decode_utf8, valid_utf8};
use crate::encode::{append_bytes, compare_bytes, KeyOrder};
use crate::spec::{
    be64_of, decode_bytes, decode_object_bytes, from_be2, from_be4, from_be8, parse_arg,
    parse_entry, parse_items, parse_pairs, parse_simple_or_float, parse_value,
};
use crate::value::{
    lemma_array_view, lemma_mapping_view, pair_views, views, CborValue, CodecError, Value, EPOCH,
    FLOAT_EXPONENT_MASK, MAX_DEPTH, NEGATIVE_ZERO_BITS,
};

verus! {

broadcast use {
    vstd::seq::group_seq_axioms,
    vstd::seq_lib::group_seq_properties,
    vstd::std_specs::vec::group_vec_axioms,
};

/// Prefixes the items and the byte count of a successful partial read; a failure stays.
pub open spec fn prepend_items(p: Seq<CborValue>, c: int, r: Result<(Seq<CborValue>, nat), CodecError>) -> Result<
    (Seq<CborValue>, nat),
    CodecError,
> {
    match r {
        Ok((vs, m)) => Ok((p + vs, (c + m) as nat)),
        Err(e) => Err(e),
    }
}

/// Prefixes the entries and the byte count of a successful partial read; a failure stays.
pub open spec fn prepend_entries_read(
    p: Seq<(CborValue, CborValue)>,
    c: int,
    r: Result<(Seq<(CborValue, CborValue)>, nat), CodecError>,
) -> Result<(Seq<(CborValue, CborValue)>, nat), CodecError> {
    match r {
        Ok((vs, m)) => Ok((p + vs, (c + m) as nat)),
        Err(e) => Err(e),
    }
}

/// Calls `core::str::from_utf8`, which accepts exactly the byte strings that are valid UTF-8
/// and then views them as the text they encode. The contract claims that: a result exactly for
/// valid UTF-8, and that result's characters are the ones the bytes decode to.
#[verifier::external_body]
fn utf8_str(bytes: &[u8]) -> (r: Option<&str>)
    ensures
        r is Some <==> valid_utf8(bytes@),
        r matches Some(s) ==> s@ == decode_utf8(bytes@),
{
    core::str::from_utf8(bytes).ok()
}

/// How many bytes reading the argument of additional information `ai` takes from `s`, whatever
/// the outcome: none for an immediate argument, for reserved or indefinite additional
/// information, and when the bytes run out; otherwise the argument's 1, 2, 4 or 8 bytes, also
/// when they turn out not to be in shortest form.
pub open spec fn arg_bytes_read(ai: u8, s: Seq<u8>) -> nat {
    let width: nat = if ai == 24 {
        1
    } else if ai == 25 {
        2
    } else if ai == 26 {
        4
    } else if ai == 27 {
        8
    } else {
        0
    };
    if s.len() < width {
        0
    } else {
        width
    }
}

/// The bytes of the previous map key, located by a start and an end position in `buf`.
pub open spec fn key_bytes_at(buf: Seq<u8>, prev: Option<(usize, usize)>) -> Option<Seq<u8>> {
    match prev {
        Some((a, b)) => Some(buf.subrange(a as int, b as int)),
        None => None,
    }
}

/// A cursor over the input of a strict decode.
pub struct Reader<'a> {
    buf: &'a [u8],
    pos: usize,
}

impl<'a> Reader<'a> {
    /// The whole input.
    pub closed spec fn buffer(&self) -> Seq<u8> {
        self.buf@
    }

    /// How many bytes have been read.
    pub closed spec fn position(&self) -> int {
        self.pos as int
    }

    /// The bytes not yet read.
    pub open spec fn remaining(&self) -> Seq<u8> {
        self.buffer().skip(self.position())
    }

    /// The cursor lies within the input.
    pub closed spec fn wf(&self) -> bool {
        self.pos <= self.buf@.len()
    }

    /// A reader at the start of `buf`.
    pub fn new(buf: &'a [u8]) -> (r: Reader<'a>)
        ensures
            r.wf(),
            r.buffer() == buf@,
            r.position() == 0,
    {
        Reader { buf, pos: 0 }
    }

    /// How many bytes have been read.
    pub fn pos(&self) -> (p: usize)
        ensures
            p == self.position(),
    {
        self.pos
    }

    /// Reads one byte.
    pub fn byte(&mut self) -> (r: Result<u8, CodecError>)
        requires
            old(self).wf(),
        ensures
            final(self).wf(),
            final(self).buffer() == old(self).buffer(),
            old(self).position() < old(self).buffer().len() ==> r == Ok::<u8, CodecError>(
                old(self).buffer()[old(self).position()],
            ) && final(self).position() == old(self).position() + 1,
            old(self).position() >= old(self).buffer().len() ==> r == Err::<u8, CodecError>(
                CodecError::UnexpectedEof,
            ) && final(self).position() == old(self).position(),
    {
        if self.pos >= self.buf.len() {
            return Err(CodecError::UnexpectedEof);
        }
        let b = self.buf[self.pos];
        self.pos = self.pos + 1;
        Ok(b)
    }

    /// Reads the next `n` bytes.
    pub fn take(&mut self, n: usize) -> (r: Result<&'a [u8], CodecError>)
        requires
            old(self).wf(),
        ensures
            final(self).wf(),
            final(self).buffer() == old(self).buffer(),
            n <= old(self).buffer().len() - old(self).position() ==> (r matches Ok(s) && s@
                == old(self).buffer().subrange(old(self).position(), old(self).position() + n)
                && final(self).position() == old(self).position() + n),
            n > old(self).buffer().len() - old(self).position() ==> r == Err::<&'a [u8], CodecError>(
                CodecError::UnexpectedEof,
            ) && final(self).position() == old(self).position(),
    {
        if n > self.buf.len() - self.pos {
            return Err(CodecError::UnexpectedEof);
        }
        let end = self.pos + n;
        let slice = vstd::slice::slice_subrange(self.buf, self.pos, end);
        self.pos = end;
        Ok(slice)
    }

    /// Read a major type's argument with shortest-form enforcement.
    pub fn arg(&mut self, ai: u8) -> (r: Result<u64, CodecError>)
        requires
            old(self).wf(),
        ensures
            final(self).wf(),
            final(self).buffer() == old(self).buffer(),
            match parse_arg(ai, old(self).remaining()) {
                Ok((v, k)) => r == Ok::<u64, CodecError>(v) && final(self).position() == old(self).position() + k,
                Err(e) => r == Err::<u64, CodecError>(e),
            },
            final(self).position() == old(self).position() + arg_bytes_read(ai, old(self).remaining()),
    {
        let ghost s = self.remaining();
        if ai <= 23 {
            Ok(ai as u64)
        } else if ai == 24 {
            proof {
                if s.len() >= 1 {
                    assert(s[0] == self.buffer()[self.position()]);
                }
            }
            let v = self.byte()? as u64;
            if v < 24 {
                return Err(CodecError::NonMinimalInt);
            }
            Ok(v)
        } else if ai == 25 {
            let b = self.take(2)?;
            assert(b@ =~= s.take(2));
            let v = ((b[0] as u64) << 8u64) | (b[1] as u64);
            assert(v == from_be2(s[0], s[1]));
            if v <= 0xff {
                return Err(CodecError::NonMinimalInt);
            }
            Ok(v)
        } else if ai == 26 {
            let b = self.take(4)?;
            assert(b@ =~= s.take(4));
            let v = ((b[0] as u64) << 24u64) | ((b[1] as u64) << 16u64) | ((b[2] as u64) << 8u64)
                | (b[3] as u64);
            assert(v == from_be4(s[0], s[1], s[2], s[3]));
            if v <= 0xffff {
                return Err(CodecError::NonMinimalInt);
            }
            Ok(v)
        } else if ai == 27 {
            let b = self.take(8)?;
            assert(b@ =~= s.take(8));
            let v = read_be8(b);
            assert(v == be64_of(s));
            if v <= 0xffff_ffff {
                return Err(CodecError::NonMinimalInt);
            }
            Ok(v)
        } else if ai <= 30 {
            Err(CodecError::ReservedAdditionalInfo)
        } else {
            Err(CodecError::IndefiniteLength)
        }
    }

    /// Reads one value at nesting depth `depth`.
    #[verifier::rlimit(60)]
    pub fn value(&mut self, depth: usize) -> (r: Result<Value, CodecError>)
        requires
            old(self).wf(),
            depth <= MAX_DEPTH + 1,
        ensures
            final(self).wf(),
            final(self).buffer() == old(self).buffer(),
            match parse_value(old(self).remaining(), depth as int) {
                Ok((v, k)) => r matches Ok(w) && w@ == v && final(self).position() == old(self).position() + k,
                Err(e) => r == Err::<Value, CodecError>(e),
            },
        decreases MAX_DEPTH + 1 - depth, 1int,
    {
        proof {
            reveal(parse_value);
        }
        if depth > MAX_DEPTH {
            return Err(CodecError::DepthExceeded);
        }
        let ghost s = self.remaining();
        let ghost p0 = self.position();
        let ib = self.byte()?;
        assert(ib == s[0]);
        let major = ib / 32;
        let ai = ib % 32;
        proof {
            assert(self.remaining() =~= s.drop_first());
        }
        if major == 0 {
            Ok(Value::Uint(self.arg(ai)?))
        } else if major == 1 {
            Ok(Value::Nint(self.arg(ai)?))
        } else if major == 2 || major == 3 {
            let n = self.arg(ai)?;
            let ghost k = self.position() - p0 - 1;
            if n > (self.buf.len() - self.pos) as u64 {
                proof {
                    assert(self.remaining().len() == s.drop_first().len() - k);
                }
                return Err(CodecError::UnexpectedEof);
            }
            let bytes = self.take(n as usize)?;
            proof {
                assert(bytes@ =~= s.drop_first().subrange(k, k + n));
            }
            if major == 2 {
                let mut v: Vec<u8> = Vec::new();
                append_bytes(&mut v, bytes);
                assert(v@ =~= bytes@);
                Ok(Value::Bytes(v))
            } else {
                match utf8_str(bytes) {
                    Some(text) => Ok(Value::Text(String::from_str(text))),
                    None => Err(CodecError::InvalidUtf8),
                }
            }
        } else if major == 4 {
            let n = self.arg(ai)?;
            proof {
                assert(self.remaining() =~= s.skip(self.position() - p0));
            }
            self.read_items(n, depth + 1)
        } else if major == 5 {
            let n = self.arg(ai)?;
            proof {
                assert(self.remaining() =~= s.skip(self.position() - p0));
            }
            self.read_pairs(n, depth + 1)
        } else if major == 6 {
            Err(CodecError::Tag)
        } else {
            self.simple_or_float(ai)
        }
    }

    /// Reads the `n` items of an array whose head has been read; `depth` is their depth.
    fn read_items(&mut self, n: u64, depth: usize) -> (r: Result<Value, CodecError>)
        requires
            old(self).wf(),
            1 <= depth <= MAX_DEPTH + 1,
        ensures
            final(self).wf(),
            final(self).buffer() == old(self).buffer(),
            match parse_items(old(self).remaining(), depth as int, n as nat) {
                Ok((vs, m)) => r matches Ok(w) && w@ == CborValue::Array(vs) && final(self).position() == old(self).position() + m,
                Err(e) => r == Err::<Value, CodecError>(e),
            },
        decreases MAX_DEPTH + 1 - depth, 2int,
    {
        proof {
            reveal(parse_value);
        }
        let ghost s0 = self.remaining();
        let ghost p0 = self.position();
        let mut items: Vec<Value> = Vec::new();
        let mut i: u64 = 0;
        proof {
            assert(s0 =~= self.buffer().skip(p0));
            assert(views(items@) =~= Seq::<CborValue>::empty());
            assert(prepend_items(views(items@), 0, parse_items(s0, depth as int, n as nat))
                =~~= parse_items(s0, depth as int, n as nat)) by {
                match parse_items(s0, depth as int, n as nat) {
                    Ok((vs, m)) => {
                        assert(Seq::<CborValue>::empty() + vs =~= vs);
                    },
                    Err(e) => {},
                }
            }
        }
        while i < n
            invariant
                self.wf(),
                i <= n,
                1 <= depth <= MAX_DEPTH + 1,
                self.buffer() == old(self).buffer(),
                s0 == old(self).remaining(),
                p0 == old(self).position(),
                p0 <= self.position(),
                parse_items(s0, depth as int, n as nat) == prepend_items(
                    views(items@),
                    self.position() - p0,
                    parse_items(self.remaining(), depth as int, (n - i) as nat),
                ),
            decreases n - i,
        {
            proof {
                reveal(parse_value);
            }
            let ghost s = self.remaining();
            let ghost p = self.position();
            let ghost before = views(items@);
            let item = match self.value(depth) {
                Ok(v) => v,
                Err(e) => {
                    proof {
                        assert(parse_items(s, depth as int, (n - i) as nat) == Err::<
                            (Seq<CborValue>, nat),
                            CodecError,
                        >(e));
                    }
                    return Err(e);
                },
            };
            proof {
                let k = self.position() - p;
                assert(self.remaining() =~= s.skip(k));
                assert(parse_value(s, depth as int) == Ok::<(CborValue, nat), CodecError>((item@, k as nat)));
            }
            let ghost w = item@;
            items.push(item);
            proof {
                assert(views(items@) =~= before.push(w));
                let k = self.position() - p;
                match parse_items(self.remaining(), depth as int, (n - i - 1) as nat) {
                    Ok((ws, m)) => {
                        assert(parse_items(s, depth as int, (n - i) as nat) == Ok::<
                            (Seq<CborValue>, nat),
                            CodecError,
                        >((seq![w] + ws, (k + m) as nat)));
                        assert(before + (seq![w] + ws) =~= before.push(w) + ws);
                    },
                    Err(e) => {},
                }
            }
            i = i + 1;
        }
        proof {
            assert(parse_items(self.remaining(), depth as int, 0) == Ok::<
                (Seq<CborValue>, nat),
                CodecError,
            >((Seq::empty(), 0)));
            assert(views(items@) + Seq::<CborValue>::empty() =~= views(items@));
            lemma_array_view(items);
        }
        Ok(Value::Array(items))
    }

    /// Reads one map entry at depth `depth`; `prev` locates the previous key's bytes.
    /// Yields the key, the value, and where the key's bytes start and end.
    fn read_entry(&mut self, depth: usize, prev: Option<(usize, usize)>) -> (r: Result<
        (Value, Value, usize, usize),
        CodecError,
    >)
        requires
            old(self).wf(),
            1 <= depth <= MAX_DEPTH + 1,
            prev matches Some((a, b)) ==> a <= b <= old(self).buffer().len(),
        ensures
            final(self).wf(),
            final(self).buffer() == old(self).buffer(),
            match parse_entry(old(self).remaining(), depth as int, key_bytes_at(old(self).buffer(), prev)) {
                Ok((key, val, k, t)) => r matches Ok((kw, vw, ks, ke)) && kw@ == key && vw@ == val
                    && ks == old(self).position() && ke == old(self).position() + k && final(self).position()
                    == old(self).position() + t,
                Err(e) => r == Err::<(Value, Value, usize, usize), CodecError>(e),
            },
        decreases MAX_DEPTH + 1 - depth, 2int,
    {
        proof {
            reveal(parse_value);
        }
        let ghost s = self.remaining();
        let key_start = self.pos;
        let key = self.value(depth)?;
        let key_end = self.pos;
        let ghost k = key_end - key_start;
        proof {
            assert(self.remaining() =~= s.skip(k));
        }
        let key_bytes = vstd::slice::slice_subrange(self.buf, key_start, key_end);
        assert(key_bytes@ =~= s.take(k));
        match prev {
            Some((a, b)) => {
                let prev_slice = vstd::slice::slice_subrange(self.buf, a, b);
                match compare_bytes(key_bytes, prev_slice) {
                    KeyOrder::Equal => {
                        return Err(CodecError::DuplicateMapKey);
                    },
                    KeyOrder::Less => {
                        return Err(CodecError::UnsortedMapKeys);
                    },
                    KeyOrder::Greater => {},
                }
            },
            None => {},
        }
        let val = self.value(depth)?;
        proof {
            assert(self.remaining() =~= s.skip(self.position() - key_start));
        }
        Ok((key, val, key_start, key_end))
    }

    /// Reads the `n` entries of a map whose head has been read; `depth` is their depth. Each
    /// key's bytes must be greater than the previous key's.
    #[verifier::rlimit(60)]
    fn read_pairs(&mut self, n: u64, depth: usize) -> (r: Result<Value, CodecError>)
        requires
            old(self).wf(),
            1 <= depth <= MAX_DEPTH + 1,
        ensures
            final(self).wf(),
            final(self).buffer() == old(self).buffer(),
            match parse_pairs(old(self).remaining(), depth as int, n as nat, None) {
                Ok((ps, m)) => r matches Ok(w) && w@ == CborValue::Mapping(ps) && final(self).position() == old(self).position() + m,
                Err(e) => r == Err::<Value, CodecError>(e),
            },
        decreases MAX_DEPTH + 1 - depth, 3int,
    {
        proof {
            reveal(parse_value);
        }
        let ghost s0 = self.remaining();
        let ghost p0 = self.position();
        let mut pairs: Vec<(Value, Value)> = Vec::new();
        let mut prev: Option<(usize, usize)> = None;
        let mut i: u64 = 0;
        proof {
            assert(pair_views(pairs@) =~= Seq::<(CborValue, CborValue)>::empty());
            assert(prepend_entries_read(
                pair_views(pairs@),
                0,
                parse_pairs(s0, depth as int, n as nat, None),
            ) =~~= parse_pairs(s0, depth as int, n as nat, None)) by {
                match parse_pairs(s0, depth as int, n as nat, None) {
                    Ok((vs, m)) => {
                        assert(Seq::<(CborValue, CborValue)>::empty() + vs =~= vs);
                    },
                    Err(e) => {},
                }
            }
        }
        while i < n
            invariant
                self.wf(),
                i <= n,
                1 <= depth <= MAX_DEPTH + 1,
                self.buffer() == old(self).buffer(),
                s0 == old(self).remaining(),
                p0 == old(self).position(),
                p0 <= self.position(),
                prev matches Some((a, b)) ==> a <= b <= self.buffer().len(),
                parse_pairs(s0, depth as int, n as nat, None) == prepend_entries_read(
                    pair_views(pairs@),
                    self.position() - p0,
                    parse_pairs(self.remaining(), depth as int, (n - i) as nat, key_bytes_at(self.buffer(), prev)),
                ),
            decreases n - i,
        {
            let ghost s = self.remaining();
            let ghost p = self.position();
            let ghost pk = key_bytes_at(self.buffer(), prev);
            let ghost before = pair_views(pairs@);
            let (key, val, ks, ke) = match self.read_entry(depth, prev) {
                Ok(entry) => entry,
                Err(e) => {
                    proof {
                        lemma_parse_pairs_unfold(s, depth as int, (n - i) as nat, pk);
                    }
                    return Err(e);
                },
            };
            let ghost kv = key@;
            let ghost vv = val@;
            let ghost t = self.position() - p;
            proof {
                assert(self.remaining() =~= s.skip(t));
                assert(self.buffer().subrange(ks as int, ke as int) =~= s.take(ke - ks));
                lemma_parse_pairs_unfold(s, depth as int, (n - i) as nat, pk);
                lemma_prepend_entries_assoc(
                    before,
                    p - p0,
                    (kv, vv),
                    t,
                    parse_pairs(s.skip(t), depth as int, (n - i - 1) as nat, Some(s.take(ke - ks))),
                );
            }
            pairs.push((key, val));
            prev = Some((ks, ke));
            proof {
                assert(pair_views(pairs@) =~= before.push((kv, vv)));
                assert(key_bytes_at(self.buffer(), prev) == Some(s.take(ke - ks)));
            }
            i = i + 1;
        }
        proof {
            assert(parse_pairs(self.remaining(), depth as int, 0, key_bytes_at(self.buffer(), prev)) == Ok::<
                (Seq<(CborValue, CborValue)>, nat),
                CodecError,
            >((Seq::empty(), 0)));
            assert(pair_views(pairs@) + Seq::<(CborValue, CborValue)>::empty() =~= pair_views(pairs@));
            lemma_mapping_view(pairs);
        }
        Ok(Value::Mapping(pairs))
    }

    /// Reads a major-type-7 item (simple value or float) whose initial byte has been read.
    fn simple_or_float(&mut self, ai: u8) -> (r: Result<Value, CodecError>)
        requires
            old(self).wf(),
        ensures
            final(self).wf(),
            final(self).buffer() == old(self).buffer(),
            match parse_simple_or_float(ai, old(self).remaining()) {
                Ok((v, k)) => r matches Ok(w) && w@ == v && final(self).position() == old(self).position() + k - 1,
                Err(e) => r == Err::<Value, CodecError>(e),
            },
    {
        let ghost s = self.remaining();
        if ai == 20 {
            Ok(Value::Bool(false))
        } else if ai == 21 {
            Ok(Value::Bool(true))
        } else if ai == 22 {
            Ok(Value::Null)
        } else if ai == 25 || ai == 26 {
            Err(CodecError::NonCanonicalFloat)
        } else if ai == 27 {
            let b = self.take(8)?;
            assert(b@ =~= s.take(8));
            let bits = read_be8(b);
            assert(bits == be64_of(s));
            if bits & FLOAT_EXPONENT_MASK == FLOAT_EXPONENT_MASK || bits == NEGATIVE_ZERO_BITS {
                return Err(CodecError::NonCanonicalFloat);
            }
            Ok(Value::Float(bits))
        } else {
            Err(CodecError::UnsupportedSimpleValue)
        }
    }
}

/// One step of reading map entries: the first entry, then the rest after it.
proof fn lemma_parse_pairs_unfold(s: Seq<u8>, depth: int, n: nat, prev: Option<Seq<u8>>)
    requires
        n > 0,
    ensures
        parse_pairs(s, depth, n, prev) == match parse_entry(s, depth, prev) {
            Ok((key, val, k, t)) => prepend_entries_read(
                seq![(key, val)],
                t as int,
                parse_pairs(s.skip(t as int), depth, (n - 1) as nat, Some(s.take(k as int))),
            ),
            Err(e) => Err(e),
        },
{
}

/// Prefixing twice is prefixing once with the joined prefix.
proof fn lemma_prepend_entries_assoc(
    before: Seq<(CborValue, CborValue)>,
    c: int,
    x: (CborValue, CborValue),
    t: int,
    r: Result<(Seq<(CborValue, CborValue)>, nat), CodecError>,
)
    requires
        c >= 0,
        t >= 0,
    ensures
        prepend_entries_read(before, c, prepend_entries_read(seq![x], t, r)) == prepend_entries_read(
            before.push(x),
            c + t,
            r,
        ),
{
    match r {
        Ok((ws, m)) => {
            assert(before + (seq![x] + ws) =~= before.push(x) + ws);
        },
        Err(e) => {},
    }
}

/// The integer whose big-endian bytes are the eight bytes of `b`.
fn read_be8(b: &[u8]) -> (v: u64)
    requires
        b@.len() == 8,
    ensures
        v == from_be8(b@[0], b@[1], b@[2], b@[3], b@[4], b@[5], b@[6], b@[7]),
{
    ((b[0] as u64) << 56u64) | ((b[1] as u64) << 48u64) | ((b[2] as u64) << 40u64) | ((b[3] as u64)
        << 32u64) | ((b[4] as u64) << 24u64) | ((b[5] as u64) << 16u64) | ((b[6] as u64) << 8u64)
        | (b[7] as u64)
}

/// Strictly decode a single canonical value, rejecting any non-canonical form (see the profile
/// rules in `spec`) and any trailing bytes.
pub fn decode(bytes: &[u8]) -> (r: Result<Value, CodecError>)
    ensures
        match decode_bytes(bytes@) {
            Ok(v) => r matches Ok(w) && w@ == v,
            Err(e) => r == Err::<Value, CodecError>(e),
        },
{
    let mut r = Reader::new(bytes);
    proof {
        assert(r.remaining() =~= bytes@);
    }
    let value = r.value(0)?;
    if r.pos() != bytes.len() {
        return Err(CodecError::TrailingBytes);
    }
    Ok(value)
}

/// Decode a Loom object array, checking the schema epoch. Returns `(type_code, fields)`.
pub fn decode_object(bytes: &[u8]) -> (r: Result<(u16, Vec<Value>), CodecError>)
    ensures
        match decode_object_bytes(bytes@) {
            Ok((t, fs)) => r matches Ok((t2, ws)) && t2 == t && views(ws@) == fs,
            Err(e) => r == Err::<(u16, Vec<Value>), CodecError>(e),
        },
{
    let value = decode(bytes)?;
    match value {
        Value::Array(mut items) => {
            proof {
                lemma_array_view(items);
            }
            if items.len() < 2 {
                return Err(CodecError::NotAnObject);
            }
            let epoch = match &items[0] {
                Value::Uint(e) => *e,
                _ => {
                    return Err(CodecError::NotAnObject);
                },
            };
            if epoch != EPOCH {
                return Err(CodecError::WrongEpoch);
            }
            let type_code = match &items[1] {
                Value::Uint(t) => {
                    if *t <= 0xffff {
                        *t as u16
                    } else {
                        return Err(CodecError::NotAnObject);
                    }
                },
                _ => {
                    return Err(CodecError::NotAnObject);
                },
            };
            let ghost all = views(items@);
            let fields = items.split_off(2);
            assert(views(fields@) =~= all.skip(2));
            Ok((type_code, fields))
        },
        _ => Err(CodecError::NotAnObject),
    }
}

} // verus!
