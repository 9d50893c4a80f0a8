//! The in-process client's pure helpers: byte-transfer chunking, result-view handles, key
//! material, lane placement, field cardinality, and host-control refusals.

use vstd::prelude::*;
use crate::encode::{append_bytes, compare_bytes, KeyOrder};
use crate::error::{Code, LoomError};
use crate::spec::{be64_of, be8, decode_bytes, encode_value};
use crate::value::{codec_error_text, views, CborValue, Value};

verus! {

broadcast use {
    vstd::seq::group_seq_axioms,
    vstd::seq_lib::group_seq_properties,
    vstd::std_specs::vec::group_vec_axioms,
};

// ---- byte-transfer chunking -----------------------------------------------------------------

/// Server-advertised export chunk size for the byte-transfer export stream.
pub const TRANSFER_EXPORT_CHUNK_BYTES: usize = 1024 * 1024;

/// `s` cut into consecutive pieces of `size` items, the last one possibly shorter; no pieces
/// for empty `s`.
pub open spec fn chunks_of<A>(s: Seq<A>, size: nat) -> Seq<Seq<A>>
    decreases s.len(),
{
    if s.len() == 0 || size == 0 {
        Seq::empty()
    } else if s.len() <= size {
        seq![s]
    } else {
        seq![s.take(size as int)] + chunks_of(s.skip(size as int), size)
    }
}

/// The byte strings held by a sequence of vectors.
pub open spec fn byte_views(v: Seq<Vec<u8>>) -> Seq<Seq<u8>> {
    Seq::new(v.len(), |i: int| v[i]@)
}

/// Split `bytes` into bounded chunks for a byte-transfer export stream: pieces of `chunk` bytes
/// (at least 1), the last one possibly shorter. Empty input yields no items.
pub fn chunk_bytes(bytes: &[u8], chunk: usize) -> (r: Vec<Vec<u8>>)
    ensures
        byte_views(r@) == chunks_of(bytes@, if chunk == 0 { 1 } else { chunk as nat }),
{
    let size: usize = if chunk == 0 {
        1
    } else {
        chunk
    };
    let ghost all = bytes@;
    let mut out: Vec<Vec<u8>> = Vec::new();
    let mut start: usize = 0;
    assert(all.skip(0) =~= all);
    assert(byte_views(out@) + chunks_of(all.skip(0), size as nat) =~= chunks_of(all, size as nat));
    while start < bytes.len()
        invariant
            start <= all.len(),
            all == bytes@,
            size >= 1,
            chunks_of(all, size as nat) == byte_views(out@) + chunks_of(all.skip(start as int), size as nat),
        decreases all.len() - start,
    {
        let rest_len = bytes.len() - start;
        let end: usize = if rest_len <= size {
            bytes.len()
        } else {
            start + size
        };
        let ghost rest = all.skip(start as int);
        let mut piece: Vec<u8> = Vec::new();
        append_bytes(&mut piece, vstd::slice::slice_subrange(bytes, start, end));
        let ghost before = byte_views(out@);
        proof {
            if rest_len <= size {
                assert(piece@ =~= rest);
                assert(all.skip(end as int).len() == 0);
                assert(chunks_of(rest, size as nat) == seq![rest]);
            } else {
                assert(piece@ =~= rest.take(size as int));
                assert(rest.skip(size as int) =~= all.skip(end as int));
            }
        }
        out.push(piece);
        proof {
            assert(byte_views(out@) =~= before.push(piece@));
            assert(before + chunks_of(rest, size as nat) =~= byte_views(out@) + chunks_of(
                all.skip(end as int),
                size as nat,
            ));
        }
        start = end;
    }
    assert(all.skip(start as int).len() == 0);
    assert(byte_views(out@) + Seq::<Seq<u8>>::empty() =~= byte_views(out@));
    out
}

/// Chunking loses and adds nothing: the chunks concatenate to the input, and each is non-empty
/// and at most `size` bytes.
pub proof fn law_chunks_concatenate_to_input<A>(s: Seq<A>, size: nat)
    requires
        size > 0,
    ensures
        chunks_of(s, size).flatten() == s,
        forall|i: int|
            0 <= i < chunks_of(s, size).len() ==> 0 < (#[trigger] chunks_of(s, size)[i]).len() <= size,
    decreases s.len(),
{
    if s.len() == 0 {
        assert(chunks_of(s, size).flatten() =~= s);
    } else if s.len() <= size {
        assert(seq![s].drop_first() =~= Seq::<Seq<A>>::empty());
        assert(Seq::<Seq<A>>::empty().flatten() == Seq::<A>::empty());
        assert(seq![s].flatten() =~= s);
    } else {
        let t = s.skip(size as int);
        law_chunks_concatenate_to_input(t, size);
        let c = chunks_of(s, size);
        assert(c.drop_first() =~= chunks_of(t, size));
        assert(c.flatten() =~= s.take(size as int) + chunks_of(t, size).flatten());
        assert(s.take(size as int) + t =~= s);
        assert forall|i: int| 0 <= i < c.len() implies 0 < (#[trigger] c[i]).len() <= size by {
            if i > 0 {
                assert(c[i] == chunks_of(t, size)[i - 1]);
            }
        }
    }
}

// ---- result-view handles --------------------------------------------------------------------

/// A server-issued handle: its kind, its identifier bytes, its generation and its owning
/// session.
#[derive(Debug)]
pub struct HandleId {
    pub kind: String,
    pub id: Vec<u8>,
    pub generation: u64,
    pub owner_session: Vec<u8>,
}

/// A handle to a registered result view.
#[derive(Debug)]
pub struct ResultView(pub HandleId);

/// The handle of result view `id`: kind `result_view`, the big-endian bytes of `id`, generation
/// 1, no owning session.
pub fn make_result_view(id: u64) -> (r: ResultView)
    ensures
        r.0.kind@ == "result_view"@,
        r.0.id@ == be8(id),
        r.0.generation == 1,
        r.0.owner_session@ == Seq::<u8>::empty(),
{
    let mut bytes: Vec<u8> = Vec::new();
    bytes.push((id >> 56u64) as u8);
    bytes.push((id >> 48u64) as u8);
    bytes.push((id >> 40u64) as u8);
    bytes.push((id >> 32u64) as u8);
    bytes.push((id >> 24u64) as u8);
    bytes.push((id >> 16u64) as u8);
    bytes.push((id >> 8u64) as u8);
    bytes.push(id as u8);
    assert(bytes@ =~= be8(id));
    ResultView(
        HandleId {
            kind: String::from_str("result_view"),
            id: bytes,
            generation: 1,
            owner_session: Vec::new(),
        },
    )
}

/// The result-view number a handle carries: its identifier bytes read big-endian, which must
/// be exactly eight (`InvalidArgument` otherwise).
pub fn result_view_id(view: &ResultView) -> (r: Result<u64, LoomError>)
    ensures
        view.0.id@.len() == 8 ==> r == Ok::<u64, LoomError>(be64_of(view.0.id@)),
        view.0.id@.len() != 8 ==> (r matches Err(e) && e.code == Code::InvalidArgument && e.message@
            == "malformed result view handle id"@),
{
    if view.0.id.len() != 8 {
        return Err(LoomError::invalid("malformed result view handle id"));
    }
    let b = &view.0.id;
    Ok(((b[0] as u64) << 56u64) | ((b[1] as u64) << 48u64) | ((b[2] as u64) << 40u64) | ((b[3] as u64)
        << 32u64) | ((b[4] as u64) << 24u64) | ((b[5] as u64) << 16u64) | ((b[6] as u64) << 8u64)
        | (b[7] as u64))
}

/// A result-view handle gives back the number it was made for.
pub proof fn law_result_view_handle_round_trips(id: u64)
    ensures
        be8(id).len() == 8,
        be64_of(be8(id)) == id,
{
    crate::lemmas::lemma_be8_roundtrip(id, Seq::empty());
    assert(be8(id) + Seq::<u8>::empty() =~= be8(id));
}

// ---- key material ---------------------------------------------------------------------------

/// The byte length of a key-encryption key.
pub const KEY_LEN: usize = 32;

/// A key-encryption key as a fixed-size array: `kek` must hold exactly `KEY_LEN` bytes
/// (`InvalidArgument` otherwise).
pub fn kek_bytes(kek: Vec<u8>) -> (r: Result<[u8; 32], LoomError>)
    ensures
        kek@.len() == KEY_LEN ==> (r matches Ok(a) && a@ == kek@),
        kek@.len() != KEY_LEN ==> (r matches Err(e) && e.code == Code::InvalidArgument && e.message@
            == "kek must be 32 bytes"@),
{
    if kek.len() != KEY_LEN {
        return Err(LoomError::invalid("kek must be 32 bytes"));
    }
    let mut out: [u8; 32] = [0u8; 32];
    let mut i: usize = 0;
    while i < KEY_LEN
        invariant
            i <= KEY_LEN,
            kek@.len() == KEY_LEN,
            out@.len() == KEY_LEN,
            forall|j: int| 0 <= j < i ==> out@[j] == kek@[j],
        decreases KEY_LEN - i,
    {
        out[i] = kek[i];
        i = i + 1;
    }
    assert(out@ =~= kek@);
    Ok(out)
}

// ---- randomness -----------------------------------------------------------------------------

#[verifier::external_type_specification]
#[verifier::external_body]
pub struct ExRandomError(getrandom::Error);

/// Calls `getrandom::fill`, which fills `dest` from the operating system's random source. The
/// contract claims that `dest` keeps its length, and that an empty `dest` succeeds (the source
/// is not consulted for it); the bytes written, and whether the system source fails on a
/// non-empty `dest`, depend on the machine and are left unsaid.
#[verifier::external_body]
fn fill_random(dest: &mut [u8]) -> (r: Result<(), getrandom::Error>)
    ensures
        final(dest)@.len() == old(dest)@.len(),
        old(dest)@.len() == 0 ==> r is Ok,
{
    getrandom::fill(dest)
}

/// Calls the `Display` implementation of `getrandom::Error`, giving the failure's text. The
/// contract says nothing of the text.
#[verifier::external_body]
fn random_error_text(e: &getrandom::Error) -> String {
    e.to_string()
}

/// Fills `buf` with random bytes; a failure of the system source is an `Internal` error whose
/// message is `rng: ` followed by the source's own description. An empty `buf` always succeeds.
pub fn random_bytes(buf: &mut [u8]) -> (r: Result<(), LoomError>)
    ensures
        final(buf)@.len() == old(buf)@.len(),
        old(buf)@.len() == 0 ==> r is Ok,
        r matches Err(e) ==> e.code == Code::Internal && e.message@.len() >= 5
            && e.message@.take(5) == "rng: "@,
{
    match fill_random(buf) {
        Ok(()) => Ok(()),
        Err(err) => {
            let text = random_error_text(&err);
            let message = String::from_str("rng: ").concat(text.as_str());
            proof {
                reveal_strlit("rng: ");
                assert(message@.take(5) =~= "rng: "@);
            }
            Err(LoomError::new(Code::Internal, message))
        },
    }
}

// ---- host control ---------------------------------------------------------------------------

/// The refusal of a host-process-control operation `op`, which an in-process client cannot
/// perform.
pub fn daemon_unavailable(op: &str) -> (r: LoomError)
    ensures
        r.code == Code::Unsupported,
        r.message@ == op@ + " is host process control and is not available on the in-process client"@,
{
    let message = String::from_str(op).concat(
        " is host process control and is not available on the in-process client",
    );
    LoomError::new(Code::Unsupported, message)
}

// ---- store payloads ---------------------------------------------------------------------------

/// The cells of an encoded row: its bytes must decode to an array (`CorruptObject` otherwise).
pub fn row_cells(row: &[u8]) -> (r: Result<Vec<Value>, LoomError>)
    ensures
        match decode_bytes(row@) {
            Err(e) => r matches Err(err) && err.code == Code::CorruptObject && err.message@ == "row cbor: "@
                + codec_error_text(e),
            Ok(CborValue::Array(items)) => r matches Ok(v) && views(v@) == items,
            Ok(_) => r matches Err(err) && err.code == Code::CorruptObject && err.message@
                == "row is not a cell array"@,
        },
{
    match crate::decode::decode(row) {
        Err(e) => {
            let message = String::from_str("row cbor: ").concat(e.message());
            Err(LoomError::new(Code::CorruptObject, message))
        },
        Ok(Value::Array(cells)) => {
            proof {
                crate::value::lemma_array_view(cells);
            }
            Ok(cells)
        },
        Ok(_) => Err(LoomError::corrupt("row is not a cell array")),
    }
}

/// The text items of a list of names.
pub open spec fn text_items(names: Seq<String>) -> Seq<CborValue> {
    Seq::new(names.len(), |i: int| CborValue::Text(names[i]@))
}

/// The canonical bytes of a store's capability list: an array of text items, in order.
pub fn capabilities_cbor(caps: Vec<String>) -> (r: Result<Vec<u8>, LoomError>)
    ensures
        match encode_value(CborValue::Array(text_items(caps@))) {
            Ok(b) => r matches Ok(out) && out@ == b,
            Err(e) => r matches Err(err) && err.code == Code::Internal && err.message@
                == "capabilities cbor: "@ + codec_error_text(e),
        },
{
    let ghost names = caps@;
    let mut items: Vec<Value> = Vec::new();
    let mut i: usize = 0;
    while i < caps.len()
        invariant
            i <= names.len(),
            names == caps@,
            views(items@) == text_items(names.take(i as int)),
        decreases names.len() - i,
    {
        let item = Value::Text(caps[i].clone());
        proof {
            crate::value::lemma_views_push(items@, item);
            assert(text_items(names.take(i + 1)) =~= text_items(names.take(i as int)).push(item@));
        }
        items.push(item);
        i = i + 1;
    }
    assert(names.take(i as int) =~= names);
    let value = Value::Array(items);
    proof {
        crate::value::lemma_array_view(items);
    }
    match crate::encode::encode(&value) {
        Ok(b) => Ok(b),
        Err(e) => {
            let message = String::from_str("capabilities cbor: ").concat(e.message());
            Err(LoomError::new(Code::Internal, message))
        },
    }
}

// ---- lane placement -------------------------------------------------------------------------

/// Where a ticket is placed in a lane, as a request names it.
#[derive(Debug, Clone, Copy, PartialEq, Eq, Structural)]
pub enum LaneTicketPlacement {
    First,
    Last,
    Before,
    After,
}

/// Where a ticket is placed in a lane, with the anchor ticket the relative placements need.
#[derive(Debug, PartialEq, Eq)]
pub enum LaneAnchoredPlacement<'a> {
    First,
    Last,
    Before(&'a str),
    After(&'a str),
}

/// Resolves a requested placement against its optional anchor: `First`/`Last` refuse a
/// non-empty anchor; `Before`/`After` require one (`InvalidArgument` otherwise).
pub fn lane_ticket_placement<'a>(placement: LaneTicketPlacement, anchor: Option<&'a str>) -> (r: Result<
    LaneAnchoredPlacement<'a>,
    LoomError,
>)
    ensures
        ({
            let anchored = anchor matches Some(a) && a@.len() > 0;
            match placement {
                LaneTicketPlacement::First => if anchored {
                    r matches Err(e) && e.code == Code::InvalidArgument && e.message@
                        == "placement 'FIRST' rejects an anchor ticket id"@
                } else {
                    r matches Ok(LaneAnchoredPlacement::First)
                },
                LaneTicketPlacement::Last => if anchored {
                    r matches Err(e) && e.code == Code::InvalidArgument && e.message@
                        == "placement 'LAST' rejects an anchor ticket id"@
                } else {
                    r matches Ok(LaneAnchoredPlacement::Last)
                },
                LaneTicketPlacement::Before => if anchored {
                    r matches Ok(LaneAnchoredPlacement::Before(a)) && a == anchor->0
                } else {
                    r matches Err(e) && e.code == Code::InvalidArgument && e.message@
                        == "placement 'BEFORE' requires an anchor ticket id"@
                },
                LaneTicketPlacement::After => if anchored {
                    r matches Ok(LaneAnchoredPlacement::After(a)) && a == anchor->0
                } else {
                    r matches Err(e) && e.code == Code::InvalidArgument && e.message@
                        == "placement 'AFTER' requires an anchor ticket id"@
                },
            }
        }),
{
    let anchored = match anchor {
        Some(a) => !a.is_empty(),
        None => false,
    };
    match placement {
        LaneTicketPlacement::First => {
            if anchored {
                return Err(LoomError::invalid("placement 'FIRST' rejects an anchor ticket id"));
            }
            Ok(LaneAnchoredPlacement::First)
        },
        LaneTicketPlacement::Last => {
            if anchored {
                return Err(LoomError::invalid("placement 'LAST' rejects an anchor ticket id"));
            }
            Ok(LaneAnchoredPlacement::Last)
        },
        LaneTicketPlacement::Before => match anchor {
            Some(a) if anchored => Ok(LaneAnchoredPlacement::Before(a)),
            _ => Err(LoomError::invalid("placement 'BEFORE' requires an anchor ticket id")),
        },
        LaneTicketPlacement::After => match anchor {
            Some(a) if anchored => Ok(LaneAnchoredPlacement::After(a)),
            _ => Err(LoomError::invalid("placement 'AFTER' requires an anchor ticket id")),
        },
    }
}

// ---- text comparison ------------------------------------------------------------------------

/// Whether two strings hold the same characters.
pub fn str_equals(a: &str, b: &str) -> (r: bool)
    ensures
        r == (a@ == b@),
{
    let r = match compare_bytes(a.as_bytes(), b.as_bytes()) {
        KeyOrder::Equal => true,
        _ => false,
    };
    proof {
        vstd::utf8::encode_utf8_decode_utf8(a@);
        vstd::utf8::encode_utf8_decode_utf8(b@);
    }
    r
}

// ---- field cardinality ----------------------------------------------------------------------

/// How many values a ticket field holds.
#[derive(Debug, PartialEq, Eq)]
pub enum TicketFieldCardinality {
    Single,
    Optional,
    List { min_items: usize, max_items: Option<usize> },
}

/// The cardinality a request names: `single`, `optional`, or `list` (any number of items);
/// `InvalidArgument` for any other text.
pub fn parse_ticket_field_cardinality_arg(value: &str) -> (r: Result<TicketFieldCardinality, LoomError>)
    ensures
        value@ == "single"@ ==> r matches Ok(TicketFieldCardinality::Single),
        value@ == "optional"@ ==> r matches Ok(TicketFieldCardinality::Optional),
        value@ == "list"@ ==> r matches Ok(
            TicketFieldCardinality::List { min_items: 0, max_items: None },
        ),
        value@ != "single"@ && value@ != "optional"@ && value@ != "list"@ ==> (r matches Err(e)
            && e.code == Code::InvalidArgument && e.message@
            == "ticket field cardinality must be single, optional, or list"@),
{
    proof {
        reveal_strlit("single");
        reveal_strlit("optional");
        reveal_strlit("list");
        assert("single"@.len() == 6);
        assert("optional"@.len() == 8);
        assert("list"@.len() == 4);
    }
    if str_equals(value, "single") {
        Ok(TicketFieldCardinality::Single)
    } else if str_equals(value, "optional") {
        Ok(TicketFieldCardinality::Optional)
    } else if str_equals(value, "list") {
        Ok(TicketFieldCardinality::List { min_items: 0, max_items: None })
    } else {
        Err(LoomError::invalid("ticket field cardinality must be single, optional, or list"))
    }
}

} // verus!
