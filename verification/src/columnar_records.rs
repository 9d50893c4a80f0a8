//! The record layer of a columnar dataset's canonical bytes and of its structured manifest:
//! writing the records from their fields, and reading them back field by field, where a failure
//! names the first field that breaks the layout. What the records carry of the cells themselves
//! (segment rows, statistics, digests of the rows) is computed from the cell type and handed in
//! or read on after the fields decided here.

use vstd::prelude::*;
use crate::cbor::{as_array, decode_array, is_corrupt, Fields};
use crate::columnar::{
    digest_from_value, ColumnarCompressionPolicy, ColumnarSegmentEncoding, ColumnarStatisticsPolicy,
    COLUMNAR_COMPRESSION_NONE, COLUMNAR_FORMAT_VERSION, COLUMNAR_SEGMENT_ENCODING_NATIVE_CBOR,
    COLUMNAR_STATISTICS_BASIC, DIGEST_LEN,
};
use crate::columnar_set::{decimal, decimal_text};
use crate::error::{Code, LoomError};
use crate::spec::{decode_bytes, encode_value};
use crate::identity::canonical;
use crate::roundtrip::well_formed;
use crate::value::{codec_error_text, views, CborValue, Value};

verus! {

broadcast use {
    vstd::seq::group_seq_axioms,
    vstd::seq_lib::group_seq_properties,
    vstd::std_specs::vec::group_vec_axioms,
};

// ---- reading fields -------------------------------------------------------------------------

/// Field `i` of a record as an unsigned integer, or the message for its absence or shape.
pub open spec fn uint_at(items: Seq<CborValue>, i: int) -> Result<u64, Seq<char>> {
    if i >= items.len() {
        Err("missing CBOR field"@)
    } else {
        match items[i] {
            CborValue::Uint(n) => Ok(n),
            _ => Err("expected CBOR unsigned integer"@),
        }
    }
}

/// Field `i` of a record as an array's items.
pub open spec fn array_at(items: Seq<CborValue>, i: int) -> Result<Seq<CborValue>, Seq<char>> {
    if i >= items.len() {
        Err("missing CBOR field"@)
    } else {
        match items[i] {
            CborValue::Array(a) => Ok(a),
            _ => Err("expected CBOR array"@),
        }
    }
}

/// Field `i` of a record as a byte string.
pub open spec fn bytes_at(items: Seq<CborValue>, i: int) -> Result<Seq<u8>, Seq<char>> {
    if i >= items.len() {
        Err("missing CBOR field"@)
    } else {
        match items[i] {
            CborValue::Bytes(b) => Ok(b),
            _ => Err("expected CBOR bytes"@),
        }
    }
}

/// Field `i` of a record as text.
pub open spec fn text_at(items: Seq<CborValue>, i: int) -> Result<Seq<char>, Seq<char>> {
    if i >= items.len() {
        Err("missing CBOR field"@)
    } else {
        match items[i] {
            CborValue::Text(t) => Ok(t),
            _ => Err("expected CBOR text"@),
        }
    }
}

/// Field `i` of a record as digest bytes: a byte string of exactly `DIGEST_LEN` bytes.
pub open spec fn digest_at(items: Seq<CborValue>, i: int) -> Result<Seq<u8>, Seq<char>> {
    match bytes_at(items, i) {
        Err(m) => Err(m),
        Ok(b) => if b.len() == DIGEST_LEN {
            Ok(b)
        } else {
            Err("digest field is not 32 bytes"@)
        },
    }
}

/// A record of `n` fields has no field after its last.
pub open spec fn end_at(items: Seq<CborValue>, n: int) -> Result<(), Seq<char>> {
    if n == items.len() {
        Ok(())
    } else {
        Err("trailing CBOR fields"@)
    }
}

/// A `usize` read from a 64-bit field, or `message` when it does not fit.
pub open spec fn fits_usize(n: u64, message: Seq<char>) -> Result<nat, Seq<char>> {
    if n <= usize::MAX {
        Ok(n as nat)
    } else {
        Err(message)
    }
}

/// A 64-bit field as a `usize`, with the range failure `message`.
fn usize_field(n: u64, message: &str) -> (r: Result<usize, LoomError>)
    ensures
        match fits_usize(n, message@) {
            Ok(k) => r matches Ok(v) && v == k,
            Err(m) => r matches Err(e) && is_corrupt(e, m),
        },
{
    if n <= usize::MAX as u64 {
        Ok(n as usize)
    } else {
        Err(LoomError::corrupt(message))
    }
}

/// The record bytes decoded as an array's items, or the message for the failure.
pub open spec fn record_items(b: Seq<u8>) -> Result<Seq<CborValue>, Seq<char>> {
    match decode_bytes(b) {
        Err(e) => Err("CBOR decode failed: "@ + codec_error_text(e)),
        Ok(CborValue::Array(items)) => Ok(items),
        Ok(_) => Err("expected CBOR array"@),
    }
}

// ---- the dataset header ---------------------------------------------------------------------

/// What a dataset's header record holds: the raw column entries, the target rows-per-segment,
/// and the raw segment records.
#[derive(Debug)]
pub struct DatasetHeader {
    pub columns: Vec<Value>,
    pub target_segment_rows: usize,
    pub segments: Vec<Value>,
}

/// A dataset header read from its fields: the format version (which must be the current one),
/// the column entries, the target (which must fit a `usize`), the statistics and compression
/// policy codes (which must be the committed ones), the segment records, and nothing more.
pub open spec fn dataset_header_of(items: Seq<CborValue>) -> Result<(Seq<CborValue>, nat, Seq<CborValue>), Seq<char>> {
    match uint_at(items, 0) {
        Err(m) => Err(m),
        Ok(version) => if version != COLUMNAR_FORMAT_VERSION {
            Err("unknown columnar format version "@ + decimal_text(version as nat))
        } else {
            match array_at(items, 1) {
                Err(m) => Err(m),
                Ok(columns) => match uint_at(items, 2) {
                    Err(m) => Err(m),
                    Ok(t) => match fits_usize(t, "columnar target out of range"@) {
                        Err(m) => Err(m),
                        Ok(target) => match uint_at(items, 3) {
                            Err(m) => Err(m),
                            Ok(s) => if s != COLUMNAR_STATISTICS_BASIC {
                                Err("unknown columnar statistics policy "@ + decimal_text(s as nat))
                            } else {
                                match uint_at(items, 4) {
                                    Err(m) => Err(m),
                                    Ok(c) => if c != COLUMNAR_COMPRESSION_NONE {
                                        Err("unknown columnar compression policy "@ + decimal_text(c as nat))
                                    } else {
                                        match array_at(items, 5) {
                                            Err(m) => Err(m),
                                            Ok(segments) => match end_at(items, 6) {
                                                Err(m) => Err(m),
                                                Ok(_) => Ok((columns, target, segments)),
                                            },
                                        }
                                    },
                                }
                            },
                        },
                    },
                },
            }
        },
    }
}

/// Read the header record of a dataset's canonical bytes. Every failure is `CorruptObject`:
/// a decode failure, a non-array, or the first field that breaks the header's layout.
#[verifier::rlimit(40)]
pub fn decode_dataset_header(bytes: &[u8]) -> (r: Result<DatasetHeader, LoomError>)
    ensures
        match record_items(bytes@) {
            Err(m) => r matches Err(e) && is_corrupt(e, m),
            Ok(items) => match dataset_header_of(items) {
                Err(m) => r matches Err(e) && is_corrupt(e, m),
                Ok((columns, target, segments)) => r matches Ok(h) && views(h.columns@) == columns
                    && h.target_segment_rows == target && views(h.segments@) == segments,
            },
        },
{
    let items = decode_array(bytes)?;
    let mut f = Fields::new(items);
    let version = f.uint()?;
    if version != COLUMNAR_FORMAT_VERSION {
        let message = String::from_str("unknown columnar format version ").concat(decimal(version).as_str());
        return Err(LoomError::new(Code::CorruptObject, message));
    }
    let columns = f.array()?;
    let raw_target = f.uint()?;
    let target = usize_field(raw_target, "columnar target out of range")?;
    let statistics_policy = f.uint()?;
    if statistics_policy != COLUMNAR_STATISTICS_BASIC {
        let message = String::from_str("unknown columnar statistics policy ").concat(
            decimal(statistics_policy).as_str(),
        );
        return Err(LoomError::new(Code::CorruptObject, message));
    }
    let compression_policy = f.uint()?;
    if compression_policy != COLUMNAR_COMPRESSION_NONE {
        let message = String::from_str("unknown columnar compression policy ").concat(
            decimal(compression_policy).as_str(),
        );
        return Err(LoomError::new(Code::CorruptObject, message));
    }
    let segments = f.array()?;
    f.end()?;
    Ok(DatasetHeader { columns, target_segment_rows: target, segments })
}

// ---- column entries -------------------------------------------------------------------------

/// A column entry read from its fields: the column's name, its type tag (which must fit a
/// byte), and nothing more.
pub open spec fn column_entry_of(v: CborValue) -> Result<(Seq<char>, u8), Seq<char>> {
    match v {
        CborValue::Array(items) => match text_at(items, 0) {
            Err(m) => Err(m),
            Ok(name) => match uint_at(items, 1) {
                Err(m) => Err(m),
                Ok(tag) => if tag > 0xff {
                    Err("column type tag out of range"@)
                } else {
                    match end_at(items, 2) {
                        Err(m) => Err(m),
                        Ok(_) => Ok((name, tag as u8)),
                    }
                },
            },
        },
        _ => Err("expected CBOR array"@),
    }
}

/// Read a column entry `[name, type tag]`; every failure is `CorruptObject`.
pub fn decode_column_entry(value: Value) -> (r: Result<(String, u8), LoomError>)
    ensures
        match column_entry_of(value@) {
            Err(m) => r matches Err(e) && is_corrupt(e, m),
            Ok((name, tag)) => r matches Ok((n, t)) && n@ == name && t == tag,
        },
{
    let items = as_array(value)?;
    let mut f = Fields::new(items);
    let name = f.text()?;
    let tag = f.uint()?;
    if tag > 0xff {
        return Err(LoomError::corrupt("column type tag out of range"));
    }
    f.end()?;
    Ok((name, tag as u8))
}

// ---- segment records ------------------------------------------------------------------------

/// What the head of a segment record holds: its row count, its digest bytes, its row bytes, and
/// the cursor standing at the fields that follow (the statistics, then the end).
#[derive(Debug)]
pub struct SegmentHead {
    pub row_count: usize,
    pub digest: [u8; 32],
    pub bytes: Vec<u8>,
    pub rest: Fields,
}

/// The head of a dataset's segment record read from its fields: the ordinal and first row
/// (each must fit a `usize` and equal the expected one), the row count (which must fit), the
/// encoding code (which must be the committed one), the digest, and the row bytes.
pub open spec fn segment_head_of(items: Seq<CborValue>, ordinal: nat, row_start: nat) -> Result<
    (nat, Seq<u8>, Seq<u8>),
    Seq<char>,
> {
    match uint_at(items, 0) {
        Err(m) => Err(m),
        Ok(o) => match fits_usize(o, "columnar segment ordinal out of range"@) {
            Err(m) => Err(m),
            Ok(o) => if o != ordinal {
                Err("columnar segment ordinal mismatch"@)
            } else {
                match uint_at(items, 1) {
                    Err(m) => Err(m),
                    Ok(s) => match fits_usize(s, "columnar segment row start out of range"@) {
                        Err(m) => Err(m),
                        Ok(s) => if s != row_start {
                            Err("columnar segment row range mismatch"@)
                        } else {
                            match uint_at(items, 2) {
                                Err(m) => Err(m),
                                Ok(c) => match fits_usize(c, "columnar segment row count out of range"@) {
                                    Err(m) => Err(m),
                                    Ok(count) => match uint_at(items, 3) {
                                        Err(m) => Err(m),
                                        Ok(enc) => if enc != COLUMNAR_SEGMENT_ENCODING_NATIVE_CBOR {
                                            Err("unknown columnar segment encoding "@ + decimal_text(enc as nat))
                                        } else {
                                            match digest_at(items, 4) {
                                                Err(m) => Err(m),
                                                Ok(digest) => match bytes_at(items, 5) {
                                                    Err(m) => Err(m),
                                                    Ok(b) => Ok((count, digest, b)),
                                                },
                                            }
                                        },
                                    },
                                },
                            }
                        },
                    },
                }
            },
        },
    }
}

/// Read the head of segment record `value`, which must be the `ordinal`-th and start at row
/// `row_start`. Every failure is `CorruptObject`. On success the cursor stands at the seventh
/// field of the record.
#[verifier::rlimit(60)]
pub fn decode_segment_head(value: Value, ordinal: usize, row_start: usize) -> (r: Result<SegmentHead, LoomError>)
    ensures
        match value@ {
            CborValue::Array(items) => match segment_head_of(items, ordinal as nat, row_start as nat) {
                Err(m) => r matches Err(e) && is_corrupt(e, m),
                Ok((count, digest, b)) => r matches Ok(h) && h.row_count == count && h.digest@ == digest
                    && h.bytes@ == b && h.rest.fields() == items && h.rest.read() == 6,
            },
            _ => r matches Err(e) && is_corrupt(e, "expected CBOR array"@),
        },
{
    let items = as_array(value)?;
    let mut sf = Fields::new(items);
    let raw = sf.uint()?;
    let o = usize_field(raw, "columnar segment ordinal out of range")?;
    if o != ordinal {
        return Err(LoomError::corrupt("columnar segment ordinal mismatch"));
    }
    let raw = sf.uint()?;
    let s = usize_field(raw, "columnar segment row start out of range")?;
    if s != row_start {
        return Err(LoomError::corrupt("columnar segment row range mismatch"));
    }
    let raw = sf.uint()?;
    let row_count = usize_field(raw, "columnar segment row count out of range")?;
    let encoding = sf.uint()?;
    if encoding != COLUMNAR_SEGMENT_ENCODING_NATIVE_CBOR {
        let message = String::from_str("unknown columnar segment encoding ").concat(decimal(encoding).as_str());
        return Err(LoomError::new(Code::CorruptObject, message));
    }
    let field = sf.next_field()?;
    let digest = digest_from_value(field)?;
    let bytes = sf.bytes()?;
    Ok(SegmentHead { row_count, digest, bytes, rest: sf })
}

// ---- the structured manifest ----------------------------------------------------------------

/// What a manifest's header record holds: its version, the raw column entries, the target
/// rows-per-segment, its policies, and the raw segment records.
#[derive(Debug)]
pub struct ManifestHeader {
    pub version: u64,
    pub columns: Vec<Value>,
    pub target_segment_rows: usize,
    pub statistics_policy: ColumnarStatisticsPolicy,
    pub compression_policy: ColumnarCompressionPolicy,
    pub segments: Vec<Value>,
}

/// A manifest header read from its fields: any version, the column entries, the target (which
/// must fit a `usize`), the statistics and compression policies (which must be known), the
/// segment records, and nothing more.
pub open spec fn manifest_header_of(items: Seq<CborValue>) -> Result<(u64, Seq<CborValue>, nat, Seq<CborValue>), Seq<char>> {
    match uint_at(items, 0) {
        Err(m) => Err(m),
        Ok(version) => match array_at(items, 1) {
            Err(m) => Err(m),
            Ok(columns) => match uint_at(items, 2) {
                Err(m) => Err(m),
                Ok(t) => match fits_usize(t, "columnar target out of range"@) {
                    Err(m) => Err(m),
                    Ok(target) => match uint_at(items, 3) {
                        Err(m) => Err(m),
                        Ok(s) => if s != COLUMNAR_STATISTICS_BASIC {
                            Err("unknown columnar statistics policy"@)
                        } else {
                            match uint_at(items, 4) {
                                Err(m) => Err(m),
                                Ok(c) => if c != COLUMNAR_COMPRESSION_NONE {
                                    Err("unknown columnar compression policy"@)
                                } else {
                                    match array_at(items, 5) {
                                        Err(m) => Err(m),
                                        Ok(segments) => match end_at(items, 6) {
                                            Err(m) => Err(m),
                                            Ok(_) => Ok((version, columns, target, segments)),
                                        },
                                    }
                                },
                            }
                        },
                    },
                },
            },
        },
    }
}

/// Read the header record of a manifest's bytes. Every failure is `CorruptObject`.
#[verifier::rlimit(40)]
pub fn decode_manifest_header(bytes: &[u8]) -> (r: Result<ManifestHeader, LoomError>)
    ensures
        match record_items(bytes@) {
            Err(m) => r matches Err(e) && is_corrupt(e, m),
            Ok(items) => match manifest_header_of(items) {
                Err(m) => r matches Err(e) && is_corrupt(e, m),
                Ok((version, columns, target, segments)) => r matches Ok(h) && h.version == version
                    && views(h.columns@) == columns && h.target_segment_rows == target && views(h.segments@)
                    == segments && h.statistics_policy == ColumnarStatisticsPolicy::Basic
                    && h.compression_policy == ColumnarCompressionPolicy::Uncompressed,
            },
        },
{
    let items = decode_array(bytes)?;
    let mut f = Fields::new(items);
    let version = f.uint()?;
    let columns = f.array()?;
    let raw_target = f.uint()?;
    let target = usize_field(raw_target, "columnar target out of range")?;
    let statistics_policy = ColumnarStatisticsPolicy::decode(f.uint()?)?;
    let compression_policy = ColumnarCompressionPolicy::decode(f.uint()?)?;
    let segments = f.array()?;
    f.end()?;
    Ok(ManifestHeader { version, columns, target_segment_rows: target, statistics_policy, compression_policy, segments })
}

/// The head of a manifest's segment record read from its fields: the ordinal, first row and row
/// count (each must fit a `usize`), the encoding (which must be known), and the digest.
pub open spec fn manifest_segment_head_of(items: Seq<CborValue>) -> Result<(nat, nat, nat, Seq<u8>), Seq<char>> {
    match uint_at(items, 0) {
        Err(m) => Err(m),
        Ok(o) => match fits_usize(o, "columnar segment ordinal out of range"@) {
            Err(m) => Err(m),
            Ok(o) => match uint_at(items, 1) {
                Err(m) => Err(m),
                Ok(s) => match fits_usize(s, "columnar segment row start out of range"@) {
                    Err(m) => Err(m),
                    Ok(s) => match uint_at(items, 2) {
                        Err(m) => Err(m),
                        Ok(c) => match fits_usize(c, "columnar segment row count out of range"@) {
                            Err(m) => Err(m),
                            Ok(c) => match uint_at(items, 3) {
                                Err(m) => Err(m),
                                Ok(enc) => if enc != COLUMNAR_SEGMENT_ENCODING_NATIVE_CBOR {
                                    Err("unknown columnar segment encoding"@)
                                } else {
                                    match digest_at(items, 4) {
                                        Err(m) => Err(m),
                                        Ok(digest) => Ok((o, s, c, digest)),
                                    }
                                },
                            },
                        },
                    },
                },
            },
        },
    }
}

/// What the head of a manifest's segment record holds, with the cursor standing at the
/// statistics field.
#[derive(Debug)]
pub struct ManifestSegmentHead {
    pub ordinal: usize,
    pub row_start: usize,
    pub row_count: usize,
    pub encoding: ColumnarSegmentEncoding,
    pub digest: [u8; 32],
    pub rest: Fields,
}

/// Read the head of a manifest's segment record. Every failure is `CorruptObject`. On success
/// the cursor stands at the sixth field of the record.
#[verifier::rlimit(60)]
pub fn decode_manifest_segment_head(value: Value) -> (r: Result<ManifestSegmentHead, LoomError>)
    ensures
        match value@ {
            CborValue::Array(items) => match manifest_segment_head_of(items) {
                Err(m) => r matches Err(e) && is_corrupt(e, m),
                Ok((o, s, c, digest)) => r matches Ok(h) && h.ordinal == o && h.row_start == s && h.row_count
                    == c && h.encoding == ColumnarSegmentEncoding::NativeCborRows && h.digest@ == digest
                    && h.rest.fields() == items && h.rest.read() == 5,
            },
            _ => r matches Err(e) && is_corrupt(e, "expected CBOR array"@),
        },
{
    let items = as_array(value)?;
    let mut sf = Fields::new(items);
    let raw = sf.uint()?;
    let ordinal = usize_field(raw, "columnar segment ordinal out of range")?;
    let raw = sf.uint()?;
    let row_start = usize_field(raw, "columnar segment row start out of range")?;
    let raw = sf.uint()?;
    let row_count = usize_field(raw, "columnar segment row count out of range")?;
    let encoding = ColumnarSegmentEncoding::decode(sf.uint()?)?;
    let field = sf.next_field()?;
    let digest = digest_from_value(field)?;
    Ok(ManifestSegmentHead { ordinal, row_start, row_count, encoding, digest, rest: sf })
}

// ---- segment statistics ---------------------------------------------------------------------

/// The per-column entries of a segment's statistics: an array with one entry per column.
pub open spec fn statistics_entries_of(v: CborValue, ncols: nat) -> Result<Seq<CborValue>, Seq<char>> {
    match v {
        CborValue::Array(entries) => if entries.len() != ncols {
            Err("columnar segment statistics arity mismatch"@)
        } else {
            Ok(entries)
        },
        _ => Err("expected CBOR array"@),
    }
}

/// Read a segment's statistics as one raw entry per column; every failure is `CorruptObject`.
pub fn decode_statistics_entries(value: Value, ncols: usize) -> (r: Result<Vec<Value>, LoomError>)
    ensures
        match statistics_entries_of(value@, ncols as nat) {
            Err(m) => r matches Err(e) && is_corrupt(e, m),
            Ok(entries) => r matches Ok(w) && views(w@) == entries,
        },
{
    let entries = as_array(value)?;
    if entries.len() != ncols {
        return Err(LoomError::corrupt("columnar segment statistics arity mismatch"));
    }
    Ok(entries)
}

/// The null count a column's statistics entry starts with (which must fit a `usize`).
pub open spec fn statistics_null_count_of(v: CborValue) -> Result<nat, Seq<char>> {
    match v {
        CborValue::Array(items) => match uint_at(items, 0) {
            Err(m) => Err(m),
            Ok(n) => fits_usize(n, "columnar null count out of range"@),
        },
        _ => Err("expected CBOR array"@),
    }
}

/// Read the null count of a column's statistics entry `[null count, min, max]`; every failure is
/// `CorruptObject`. On success the cursor stands at the minimum.
pub fn decode_statistics_null_count(entry: Value) -> (r: Result<(usize, Fields), LoomError>)
    ensures
        match statistics_null_count_of(entry@) {
            Err(m) => r matches Err(e) && is_corrupt(e, m),
            Ok(n) => r matches Ok((k, f)) && k == n && f.fields() == entry@->Array_0 && f.read() == 1,
        },
{
    let items = as_array(entry)?;
    let mut f = Fields::new(items);
    let raw = f.uint()?;
    let null_count = usize_field(raw, "columnar null count out of range")?;
    Ok((null_count, f))
}

// ---- rebuilding from a manifest -------------------------------------------------------------

/// The checks a manifest must pass before its segments are matched with their payloads: the
/// current format version, and one payload per segment record.
pub open spec fn manifest_header_check(version: u64, segments: nat, materials: nat) -> Result<(), Seq<char>> {
    if version != COLUMNAR_FORMAT_VERSION {
        Err("unknown columnar format version "@ + decimal_text(version as nat))
    } else if segments != materials {
        Err("columnar segment manifest arity mismatch"@)
    } else {
        Ok(())
    }
}

/// Check a manifest's version and its number of segment records against the payloads offered
/// for them; every failure is `CorruptObject`.
pub fn check_manifest_header(version: u64, segments: usize, materials: usize) -> (r: Result<(), LoomError>)
    ensures
        match manifest_header_check(version, segments as nat, materials as nat) {
            Err(m) => r matches Err(e) && is_corrupt(e, m),
            Ok(_) => r is Ok,
        },
{
    if version != COLUMNAR_FORMAT_VERSION {
        let message = String::from_str("unknown columnar format version ").concat(decimal(version).as_str());
        return Err(LoomError::new(Code::CorruptObject, message));
    }
    if segments != materials {
        return Err(LoomError::corrupt("columnar segment manifest arity mismatch"));
    }
    Ok(())
}

/// Check a segment entry's position against the one expected of it while rebuilding from a
/// manifest: its ordinal first, then its first row; every failure is `CorruptObject`.
pub fn check_segment_position(ordinal: usize, row_start: usize, expected_ordinal: usize, expected_row_start: usize) -> (r: Result<(), LoomError>)
    ensures
        ordinal != expected_ordinal ==> (r matches Err(e) && is_corrupt(e, "columnar segment ordinal mismatch"@)),
        ordinal == expected_ordinal && row_start != expected_row_start ==> (r matches Err(e) && is_corrupt(
            e,
            "columnar segment row range mismatch"@,
        )),
        ordinal == expected_ordinal && row_start == expected_row_start ==> r is Ok,
{
    if ordinal != expected_ordinal {
        return Err(LoomError::corrupt("columnar segment ordinal mismatch"));
    }
    if row_start != expected_row_start {
        return Err(LoomError::corrupt("columnar segment row range mismatch"));
    }
    Ok(())
}

/// Check the rows a segment's bytes hold against the count its entry records; a difference is
/// `CorruptObject`.
pub fn check_segment_row_count(rows: usize, row_count: usize) -> (r: Result<(), LoomError>)
    ensures
        rows == row_count ==> r is Ok,
        rows != row_count ==> (r matches Err(e) && is_corrupt(e, "columnar segment row count mismatch"@)),
{
    if rows != row_count {
        return Err(LoomError::corrupt("columnar segment row count mismatch"));
    }
    Ok(())
}

/// Where the next segment record must sit while a dataset or manifest is read back segment by
/// segment: its ordinal (the number of segments read so far) and its first row (the rows of all
/// of them).
#[derive(Debug, Clone, Copy)]
pub struct SegmentWalk {
    ordinal: usize,
    row_start: usize,
}

impl SegmentWalk {
    /// The ordinal the next segment must carry.
    pub closed spec fn ordinal_view(&self) -> nat {
        self.ordinal as nat
    }

    /// The first row the next segment must start at.
    pub closed spec fn row_start_view(&self) -> nat {
        self.row_start as nat
    }

    /// The walk before the first segment: ordinal 0, first row 0.
    pub fn new() -> (r: SegmentWalk)
        ensures
            r.ordinal_view() == 0,
            r.row_start_view() == 0,
    {
        SegmentWalk { ordinal: 0, row_start: 0 }
    }

    /// The ordinal the next segment must carry.
    pub fn ordinal(&self) -> (r: usize)
        ensures
            r == self.ordinal_view(),
    {
        self.ordinal
    }

    /// The first row the next segment must start at.
    pub fn row_start(&self) -> (r: usize)
        ensures
            r == self.row_start_view(),
    {
        self.row_start
    }

    /// Read the head of the next segment record of a dataset: `decode_segment_head` at this
    /// walk's ordinal and first row.
    pub fn head(&self, record: Value) -> (r: Result<SegmentHead, LoomError>)
        ensures
            match record@ {
                CborValue::Array(items) => match segment_head_of(items, self.ordinal_view(), self.row_start_view()) {
                    Err(m) => r matches Err(e) && is_corrupt(e, m),
                    Ok((count, digest, b)) => r matches Ok(h) && h.row_count == count && h.digest@ == digest
                        && h.bytes@ == b && h.rest.fields() == items && h.rest.read() == 6,
                },
                _ => r matches Err(e) && is_corrupt(e, "expected CBOR array"@),
            },
    {
        decode_segment_head(record, self.ordinal, self.row_start)
    }

    /// Check a manifest's segment entry against this walk: `check_segment_position` with this
    /// walk's ordinal and first row expected.
    pub fn check(&self, ordinal: usize, row_start: usize) -> (r: Result<(), LoomError>)
        ensures
            ordinal != self.ordinal_view() ==> (r matches Err(e) && is_corrupt(e, "columnar segment ordinal mismatch"@)),
            ordinal == self.ordinal_view() && row_start != self.row_start_view() ==> (r matches Err(e)
                && is_corrupt(e, "columnar segment row range mismatch"@)),
            ordinal == self.ordinal_view() && row_start == self.row_start_view() ==> r is Ok,
    {
        check_segment_position(ordinal, row_start, self.ordinal, self.row_start)
    }

    /// Step past a segment of `row_count` rows: the next one carries the next ordinal and starts
    /// after those rows. (The running first row must stay a `usize`.)
    pub fn advance(&mut self, row_count: usize)
        requires
            old(self).ordinal_view() < usize::MAX,
            old(self).row_start_view() + row_count <= usize::MAX,
        ensures
            final(self).ordinal_view() == old(self).ordinal_view() + 1,
            final(self).row_start_view() == old(self).row_start_view() + row_count,
    {
        self.ordinal = self.ordinal + 1;
        self.row_start = self.row_start + row_count;
    }
}

// ---- writing a dataset ----------------------------------------------------------------------

/// One segment as its record is written: its row count, the digest of its bytes, its bytes, and
/// its statistics item.
#[derive(Debug)]
pub struct SegmentPayload {
    pub row_count: usize,
    pub digest: [u8; 32],
    pub bytes: Vec<u8>,
    pub statistics: Value,
}

/// The number of rows of the first `n` segments.
pub open spec fn rows_before(payloads: Seq<SegmentPayload>, n: int) -> nat
    decreases n,
{
    if n <= 0 {
        0
    } else {
        rows_before(payloads, n - 1) + payloads[n - 1].row_count as nat
    }
}

/// A column entry item: `[name, type tag]`.
pub open spec fn column_entry_value(name: Seq<char>, tag: u8) -> CborValue {
    CborValue::Array(seq![CborValue::Text(name), CborValue::Uint(tag as u64)])
}

/// The fields of segment record `i`: ordinal, first row, row count, encoding code, digest,
/// bytes, statistics.
pub open spec fn segment_record_fields(payloads: Seq<SegmentPayload>, i: int) -> Seq<CborValue> {
    seq![
        CborValue::Uint(i as u64),
        CborValue::Uint(rows_before(payloads, i) as u64),
        CborValue::Uint(payloads[i].row_count as u64),
        CborValue::Uint(COLUMNAR_SEGMENT_ENCODING_NATIVE_CBOR),
        CborValue::Bytes(payloads[i].digest@),
        CborValue::Bytes(payloads[i].bytes@),
        payloads[i].statistics@,
    ]
}

/// The column entries of a dataset's columns.
pub open spec fn column_entries(columns: Seq<(String, u8)>) -> Seq<CborValue> {
    Seq::new(columns.len(), |i: int| column_entry_value(columns[i].0@, columns[i].1))
}

/// The segment records of a dataset's segments.
pub open spec fn segment_records(payloads: Seq<SegmentPayload>) -> Seq<CborValue> {
    Seq::new(payloads.len(), |i: int| CborValue::Array(segment_record_fields(payloads, i)))
}

/// The fields of a dataset's record: format version, column entries, target, statistics and
/// compression policy codes, segment records.
pub open spec fn dataset_fields(columns: Seq<(String, u8)>, target: usize, payloads: Seq<SegmentPayload>) -> Seq<
    CborValue,
> {
    seq![
        CborValue::Uint(COLUMNAR_FORMAT_VERSION),
        CborValue::Array(column_entries(columns)),
        CborValue::Uint(target as u64),
        CborValue::Uint(COLUMNAR_STATISTICS_BASIC),
        CborValue::Uint(COLUMNAR_COMPRESSION_NONE),
        CborValue::Array(segment_records(payloads)),
    ]
}

/// The canonical bytes of a dataset: its record, with each segment's ordinal and first row
/// counted from the segments before it.
#[verifier::rlimit(40)]
pub fn encode_dataset(columns: &[(String, u8)], target_segment_rows: usize, segments: &[SegmentPayload]) -> (r: Vec<u8>)
    requires
        rows_before(segments@, segments@.len() as int) <= usize::MAX,
        encode_value(CborValue::Array(dataset_fields(columns@, target_segment_rows, segments@))) is Ok,
    ensures
        r@ == encode_value(CborValue::Array(dataset_fields(columns@, target_segment_rows, segments@)))->Ok_0,
{
    let ghost cv = column_entries(columns@);
    let mut column_items: Vec<Value> = Vec::new();
    let mut i: usize = 0;
    while i < columns.len()
        invariant
            i <= columns@.len(),
            cv == column_entries(columns@),
            views(column_items@) == cv.take(i as int),
        decreases columns@.len() - i,
    {
        let entry = vec![Value::Text(columns[i].0.clone()), Value::Uint(columns[i].1 as u64)];
        proof {
            crate::value::lemma_array_view(entry);
            assert(views(entry@) =~= seq![CborValue::Text(columns@[i as int].0@), CborValue::Uint(columns@[i as int].1 as u64)]);
        }
        let item = Value::Array(entry);
        proof {
            crate::value::lemma_views_push(column_items@, item);
        }
        column_items.push(item);
        i = i + 1;
        assert(views(column_items@) =~= cv.take(i as int));
    }
    assert(cv.take(i as int) =~= cv);
    let ghost sv = segment_records(segments@);
    let mut records: Vec<Value> = Vec::new();
    let mut row_start: usize = 0;
    let mut j: usize = 0;
    while j < segments.len()
        invariant
            j <= segments@.len(),
            sv == segment_records(segments@),
            rows_before(segments@, segments@.len() as int) <= usize::MAX,
            row_start == rows_before(segments@, j as int),
            views(records@) == sv.take(j as int),
        decreases segments@.len() - j,
    {
        proof {
            lemma_rows_before_monotone(segments@, j + 1, segments@.len() as int);
        }
        let p = &segments[j];
        let mut bytes: Vec<u8> = Vec::new();
        crate::encode::append_bytes(&mut bytes, p.bytes.as_slice());
        let fields = vec![
            Value::Uint(j as u64),
            Value::Uint(row_start as u64),
            Value::Uint(p.row_count as u64),
            Value::Uint(COLUMNAR_SEGMENT_ENCODING_NATIVE_CBOR),
            crate::cbor::digest_value(&p.digest),
            Value::Bytes(bytes),
            p.statistics.clone(),
        ];
        proof {
            crate::value::lemma_array_view(fields);
            assert(views(fields@) =~= segment_record_fields(segments@, j as int));
        }
        let record = Value::Array(fields);
        proof {
            crate::value::lemma_views_push(records@, record);
        }
        records.push(record);
        row_start = row_start + p.row_count;
        j = j + 1;
        assert(views(records@) =~= sv.take(j as int));
    }
    assert(sv.take(j as int) =~= sv);
    let top = vec![
        Value::Uint(COLUMNAR_FORMAT_VERSION),
        Value::Array(column_items),
        Value::Uint(target_segment_rows as u64),
        Value::Uint(COLUMNAR_STATISTICS_BASIC),
        Value::Uint(COLUMNAR_COMPRESSION_NONE),
        Value::Array(records),
    ];
    proof {
        crate::value::lemma_array_view(column_items);
        crate::value::lemma_array_view(records);
        crate::value::lemma_array_view(top);
        assert(views(top@) =~= dataset_fields(columns@, target_segment_rows, segments@));
    }
    crate::cbor::encode(&Value::Array(top))
}

/// Counting more segments counts no fewer rows.
proof fn lemma_rows_before_monotone(payloads: Seq<SegmentPayload>, a: int, b: int)
    requires
        0 <= a <= b,
    ensures
        rows_before(payloads, a) <= rows_before(payloads, b),
    decreases b - a,
{
    if a < b {
        lemma_rows_before_monotone(payloads, a, b - 1);
    }
}

/// A dataset's record reads back: the bytes `encode_dataset` writes for canonical statistics
/// within the profile's limits decode to the record it wrote, whose header reads as the column
/// entries, the target and the segment records; each column entry reads as its name and tag;
/// and each segment record, expected at its ordinal and first row, reads as its row count,
/// digest and bytes.
pub proof fn law_dataset_records_read_back(columns: Seq<(String, u8)>, target: usize, payloads: Seq<SegmentPayload>)
    requires
        payloads.len() <= usize::MAX,
        rows_before(payloads, payloads.len() as int) <= usize::MAX,
        well_formed(CborValue::Array(dataset_fields(columns, target, payloads)), 0),
        canonical(CborValue::Array(dataset_fields(columns, target, payloads))),
        encode_value(CborValue::Array(dataset_fields(columns, target, payloads))) is Ok,
    ensures
        record_items(encode_value(CborValue::Array(dataset_fields(columns, target, payloads)))->Ok_0) == Ok::<
            Seq<CborValue>,
            Seq<char>,
        >(dataset_fields(columns, target, payloads)),
        dataset_header_of(dataset_fields(columns, target, payloads)) == Ok::<
            (Seq<CborValue>, nat, Seq<CborValue>),
            Seq<char>,
        >((column_entries(columns), target as nat, segment_records(payloads))),
        forall|i: int|
            0 <= i < columns.len() ==> column_entry_of(#[trigger] column_entries(columns)[i]) == Ok::<
                (Seq<char>, u8),
                Seq<char>,
            >((columns[i].0@, columns[i].1)),
        forall|i: int|
            0 <= i < payloads.len() ==> segment_head_of(
                #[trigger] segment_record_fields(payloads, i),
                i as nat,
                rows_before(payloads, i),
            ) == Ok::<(nat, Seq<u8>, Seq<u8>), Seq<char>>(
                (payloads[i].row_count as nat, payloads[i].digest@, payloads[i].bytes@),
            ),
{
    let fields = dataset_fields(columns, target, payloads);
    crate::laws::law_encode_fails_only_on_non_finite_floats(CborValue::Array(fields));
    crate::laws::law_canonical_values_round_trip(CborValue::Array(fields));
    assert forall|i: int| 0 <= i < columns.len() implies column_entry_of(#[trigger] column_entries(columns)[i])
        == Ok::<(Seq<char>, u8), Seq<char>>((columns[i].0@, columns[i].1)) by {
        assert((columns[i].1 as u64) as u8 == columns[i].1);
    }
    assert forall|i: int| 0 <= i < payloads.len() implies segment_head_of(
        #[trigger] segment_record_fields(payloads, i),
        i as nat,
        rows_before(payloads, i),
    ) == Ok::<(nat, Seq<u8>, Seq<u8>), Seq<char>>(
        (payloads[i].row_count as nat, payloads[i].digest@, payloads[i].bytes@),
    ) by {
        lemma_rows_before_monotone(payloads, i, payloads.len() as int);
        assert(payloads[i].digest@.len() == 32);
    }
}

// ---- writing a manifest ---------------------------------------------------------------------

/// One segment entry of a structured manifest: its position among the dataset's rows, its
/// encoding, its digest, and its statistics item.
#[derive(Debug)]
pub struct ManifestSegment {
    pub ordinal: usize,
    pub row_start: usize,
    pub row_count: usize,
    pub encoding: ColumnarSegmentEncoding,
    pub digest: [u8; 32],
    pub statistics: Value,
}

/// The fields of a manifest's segment entry: ordinal, first row, row count, encoding code,
/// digest, statistics.
pub open spec fn manifest_segment_fields(s: ManifestSegment) -> Seq<CborValue> {
    seq![
        CborValue::Uint(s.ordinal as u64),
        CborValue::Uint(s.row_start as u64),
        CborValue::Uint(s.row_count as u64),
        CborValue::Uint(COLUMNAR_SEGMENT_ENCODING_NATIVE_CBOR),
        CborValue::Bytes(s.digest@),
        s.statistics@,
    ]
}

/// The segment entries of a manifest.
pub open spec fn manifest_segment_records(segments: Seq<ManifestSegment>) -> Seq<CborValue> {
    Seq::new(segments.len(), |i: int| CborValue::Array(manifest_segment_fields(segments[i])))
}

/// The fields of a manifest's record: version, column entries, target, statistics and
/// compression policy codes, segment entries.
pub open spec fn manifest_fields(
    version: u64,
    columns: Seq<(String, u8)>,
    target: usize,
    segments: Seq<ManifestSegment>,
) -> Seq<CborValue> {
    seq![
        CborValue::Uint(version),
        CborValue::Array(column_entries(columns)),
        CborValue::Uint(target as u64),
        CborValue::Uint(COLUMNAR_STATISTICS_BASIC),
        CborValue::Uint(COLUMNAR_COMPRESSION_NONE),
        CborValue::Array(manifest_segment_records(segments)),
    ]
}

/// The canonical structured-root bytes of a manifest; segment payload bytes are stored
/// separately.
#[verifier::rlimit(40)]
pub fn encode_manifest(
    version: u64,
    columns: &[(String, u8)],
    target_segment_rows: usize,
    statistics_policy: ColumnarStatisticsPolicy,
    compression_policy: ColumnarCompressionPolicy,
    segments: &[ManifestSegment],
) -> (r: Vec<u8>)
    requires
        encode_value(CborValue::Array(manifest_fields(version, columns@, target_segment_rows, segments@))) is Ok,
    ensures
        r@ == encode_value(CborValue::Array(manifest_fields(version, columns@, target_segment_rows, segments@)))->Ok_0,
{
    let ghost cv = column_entries(columns@);
    let mut column_items: Vec<Value> = Vec::new();
    let mut i: usize = 0;
    while i < columns.len()
        invariant
            i <= columns@.len(),
            cv == column_entries(columns@),
            views(column_items@) == cv.take(i as int),
        decreases columns@.len() - i,
    {
        let entry = vec![Value::Text(columns[i].0.clone()), Value::Uint(columns[i].1 as u64)];
        proof {
            crate::value::lemma_array_view(entry);
            assert(views(entry@) =~= seq![CborValue::Text(columns@[i as int].0@), CborValue::Uint(columns@[i as int].1 as u64)]);
        }
        let item = Value::Array(entry);
        proof {
            crate::value::lemma_views_push(column_items@, item);
        }
        column_items.push(item);
        i = i + 1;
        assert(views(column_items@) =~= cv.take(i as int));
    }
    assert(cv.take(i as int) =~= cv);
    let ghost sv = manifest_segment_records(segments@);
    let mut records: Vec<Value> = Vec::new();
    let mut j: usize = 0;
    while j < segments.len()
        invariant
            j <= segments@.len(),
            sv == manifest_segment_records(segments@),
            views(records@) == sv.take(j as int),
        decreases segments@.len() - j,
    {
        let m = &segments[j];
        let encoding: u64 = match m.encoding {
            ColumnarSegmentEncoding::NativeCborRows => COLUMNAR_SEGMENT_ENCODING_NATIVE_CBOR,
        };
        let fields = vec![
            Value::Uint(m.ordinal as u64),
            Value::Uint(m.row_start as u64),
            Value::Uint(m.row_count as u64),
            Value::Uint(encoding),
            crate::cbor::digest_value(&m.digest),
            m.statistics.clone(),
        ];
        proof {
            crate::value::lemma_array_view(fields);
            assert(views(fields@) =~= manifest_segment_fields(segments@[j as int]));
        }
        let record = Value::Array(fields);
        proof {
            crate::value::lemma_views_push(records@, record);
        }
        records.push(record);
        j = j + 1;
        assert(views(records@) =~= sv.take(j as int));
    }
    assert(sv.take(j as int) =~= sv);
    let statistics_code: u64 = match statistics_policy {
        ColumnarStatisticsPolicy::Basic => COLUMNAR_STATISTICS_BASIC,
    };
    let compression_code: u64 = match compression_policy {
        ColumnarCompressionPolicy::Uncompressed => COLUMNAR_COMPRESSION_NONE,
    };
    let top = vec![
        Value::Uint(version),
        Value::Array(column_items),
        Value::Uint(target_segment_rows as u64),
        Value::Uint(statistics_code),
        Value::Uint(compression_code),
        Value::Array(records),
    ];
    proof {
        crate::value::lemma_array_view(column_items);
        crate::value::lemma_array_view(records);
        crate::value::lemma_array_view(top);
        assert(views(top@) =~= manifest_fields(version, columns@, target_segment_rows, segments@));
    }
    crate::cbor::encode(&Value::Array(top))
}

/// A manifest reads back: the bytes `encode_manifest` writes for canonical statistics within
/// the profile's limits decode to the record it wrote, whose header reads as the version, the
/// column entries, the target and the segment entries, and each segment entry reads as its
/// position, row count, encoding and digest.
pub proof fn law_manifest_records_read_back(
    version: u64,
    columns: Seq<(String, u8)>,
    target: usize,
    segments: Seq<ManifestSegment>,
)
    requires
        well_formed(CborValue::Array(manifest_fields(version, columns, target, segments)), 0),
        canonical(CborValue::Array(manifest_fields(version, columns, target, segments))),
        encode_value(CborValue::Array(manifest_fields(version, columns, target, segments))) is Ok,
    ensures
        record_items(encode_value(CborValue::Array(manifest_fields(version, columns, target, segments)))->Ok_0)
            == Ok::<Seq<CborValue>, Seq<char>>(manifest_fields(version, columns, target, segments)),
        manifest_header_of(manifest_fields(version, columns, target, segments)) == Ok::<
            (u64, Seq<CborValue>, nat, Seq<CborValue>),
            Seq<char>,
        >((version, column_entries(columns), target as nat, manifest_segment_records(segments))),
        forall|i: int|
            0 <= i < segments.len() ==> manifest_segment_head_of(
                #[trigger] manifest_segment_fields(segments[i]),
            ) == Ok::<(nat, nat, nat, Seq<u8>), Seq<char>>(
                (
                    segments[i].ordinal as nat,
                    segments[i].row_start as nat,
                    segments[i].row_count as nat,
                    segments[i].digest@,
                ),
            ),
{
    let fields = manifest_fields(version, columns, target, segments);
    crate::laws::law_encode_fails_only_on_non_finite_floats(CborValue::Array(fields));
    crate::laws::law_canonical_values_round_trip(CborValue::Array(fields));
    assert forall|i: int| 0 <= i < segments.len() implies manifest_segment_head_of(
        #[trigger] manifest_segment_fields(segments[i]),
    ) == Ok::<(nat, nat, nat, Seq<u8>), Seq<char>>(
        (
            segments[i].ordinal as nat,
            segments[i].row_start as nat,
            segments[i].row_count as nat,
            segments[i].digest@,
        ),
    ) by {
        assert(segments[i].digest@.len() == 32);
    }
}

} // verus!
