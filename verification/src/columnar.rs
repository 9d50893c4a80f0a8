//! The columnar facet's committed policies: the statistics profile, the compression profile and
//! the segment byte encoding each have one committed numeric code; and the aggregate
//! expressions a query may evaluate.

use vstd::prelude::*;
use std::cmp::Ordering;
use vstd::std_specs::convert::FromSpecImpl;
use crate::cbor::{as_bytes, is_corrupt};
use crate::encode::append_bytes;
use crate::error::{Code, LoomError};
use crate::value::{CborValue, Value};

verus! {

/// The committed code of the `Basic` statistics profile.
pub const COLUMNAR_STATISTICS_BASIC: u64 = 1;

/// The committed code of the `None` compression profile.
pub const COLUMNAR_COMPRESSION_NONE: u64 = 0;

/// The committed code of the native CBOR rows segment encoding.
pub const COLUMNAR_SEGMENT_ENCODING_NATIVE_CBOR: u64 = 1;

/// The deterministic statistics profile committed for each segment.
#[derive(Debug, Clone, Copy, PartialEq, Eq, Structural)]
pub enum ColumnarStatisticsPolicy {
    Basic,
}

impl From<ColumnarStatisticsPolicy> for u64 {
    fn from(value: ColumnarStatisticsPolicy) -> (r: u64) {
        match value {
            ColumnarStatisticsPolicy::Basic => COLUMNAR_STATISTICS_BASIC,
        }
    }
}

impl FromSpecImpl<ColumnarStatisticsPolicy> for u64 {
    open spec fn obeys_from_spec() -> bool {
        true
    }

    open spec fn from_spec(v: ColumnarStatisticsPolicy) -> u64 {
        match v {
            ColumnarStatisticsPolicy::Basic => COLUMNAR_STATISTICS_BASIC,
        }
    }
}

impl ColumnarStatisticsPolicy {
    /// The policy whose committed code is `value`; `CorruptObject` for any other code.
    pub fn decode(value: u64) -> (r: Result<ColumnarStatisticsPolicy, LoomError>)
        ensures
            value == COLUMNAR_STATISTICS_BASIC <==> (r matches Ok(ColumnarStatisticsPolicy::Basic)),
            value != COLUMNAR_STATISTICS_BASIC ==> (r matches Err(e) && e.code == Code::CorruptObject
                && e.message@ == "unknown columnar statistics policy"@),
    {
        if value == COLUMNAR_STATISTICS_BASIC {
            Ok(ColumnarStatisticsPolicy::Basic)
        } else {
            Err(LoomError::corrupt("unknown columnar statistics policy"))
        }
    }
}

/// The deterministic compression profile committed for each segment.
#[derive(Debug, Clone, Copy, PartialEq, Eq, Structural)]
pub enum ColumnarCompressionPolicy {
    Uncompressed,
}

impl From<ColumnarCompressionPolicy> for u64 {
    fn from(value: ColumnarCompressionPolicy) -> (r: u64) {
        match value {
            ColumnarCompressionPolicy::Uncompressed => COLUMNAR_COMPRESSION_NONE,
        }
    }
}

impl FromSpecImpl<ColumnarCompressionPolicy> for u64 {
    open spec fn obeys_from_spec() -> bool {
        true
    }

    open spec fn from_spec(v: ColumnarCompressionPolicy) -> u64 {
        match v {
            ColumnarCompressionPolicy::Uncompressed => COLUMNAR_COMPRESSION_NONE,
        }
    }
}

impl ColumnarCompressionPolicy {
    /// The policy whose committed code is `value`; `CorruptObject` for any other code.
    pub fn decode(value: u64) -> (r: Result<ColumnarCompressionPolicy, LoomError>)
        ensures
            value == COLUMNAR_COMPRESSION_NONE <==> (r matches Ok(ColumnarCompressionPolicy::Uncompressed)),
            value != COLUMNAR_COMPRESSION_NONE ==> (r matches Err(e) && e.code == Code::CorruptObject
                && e.message@ == "unknown columnar compression policy"@),
    {
        if value == COLUMNAR_COMPRESSION_NONE {
            Ok(ColumnarCompressionPolicy::Uncompressed)
        } else {
            Err(LoomError::corrupt("unknown columnar compression policy"))
        }
    }
}

/// The committed segment byte encoding.
#[derive(Debug, Clone, Copy, PartialEq, Eq, Structural)]
pub enum ColumnarSegmentEncoding {
    NativeCborRows,
}

impl From<ColumnarSegmentEncoding> for u64 {
    fn from(value: ColumnarSegmentEncoding) -> (r: u64) {
        match value {
            ColumnarSegmentEncoding::NativeCborRows => COLUMNAR_SEGMENT_ENCODING_NATIVE_CBOR,
        }
    }
}

impl FromSpecImpl<ColumnarSegmentEncoding> for u64 {
    open spec fn obeys_from_spec() -> bool {
        true
    }

    open spec fn from_spec(v: ColumnarSegmentEncoding) -> u64 {
        match v {
            ColumnarSegmentEncoding::NativeCborRows => COLUMNAR_SEGMENT_ENCODING_NATIVE_CBOR,
        }
    }
}

impl ColumnarSegmentEncoding {
    /// The encoding whose committed code is `value`; `CorruptObject` for any other code.
    pub fn decode(value: u64) -> (r: Result<ColumnarSegmentEncoding, LoomError>)
        ensures
            value == COLUMNAR_SEGMENT_ENCODING_NATIVE_CBOR <==> r matches Ok(
                ColumnarSegmentEncoding::NativeCborRows,
            ),
            value != COLUMNAR_SEGMENT_ENCODING_NATIVE_CBOR ==> (r matches Err(e) && e.code
                == Code::CorruptObject && e.message@ == "unknown columnar segment encoding"@),
    {
        if value == COLUMNAR_SEGMENT_ENCODING_NATIVE_CBOR {
            Ok(ColumnarSegmentEncoding::NativeCborRows)
        } else {
            Err(LoomError::corrupt("unknown columnar segment encoding"))
        }
    }
}

/// Aggregate operation over a columnar dataset.
#[derive(Debug, Clone, Copy, PartialEq, Eq, Structural)]
pub enum ColumnarAggregateOp {
    Count,
    CountNonNull,
    Min,
    Max,
    Sum,
}

/// One aggregate expression. `Count` ignores `column`; every other operation requires one.
#[derive(Debug, PartialEq, Eq)]
pub struct ColumnarAggregate {
    pub op: ColumnarAggregateOp,
    pub column: Option<String>,
}

impl ColumnarAggregate {
    /// The column an aggregate reads: none for `Count`; for every other operation its
    /// `column`, which it requires (`InvalidArgument` when absent).
    pub fn required_column(&self) -> (r: Result<Option<&str>, LoomError>)
        ensures
            self.op == ColumnarAggregateOp::Count ==> (r matches Ok(None)),
            self.op != ColumnarAggregateOp::Count && self.column is Some ==> (r matches Ok(Some(c))
                && c@ == self.column->0@),
            self.op != ColumnarAggregateOp::Count && self.column is None ==> (r matches Err(e)
                && e.code == Code::InvalidArgument && e.message@
                == "columnar aggregate column is required"@),
    {
        match self.op {
            ColumnarAggregateOp::Count => Ok(None),
            _ => match &self.column {
                Some(c) => Ok(Some(c.as_str())),
                None => Err(LoomError::invalid("columnar aggregate column is required")),
            },
        }
    }
}

/// The format version a columnar dataset's canonical bytes carry.
pub const COLUMNAR_FORMAT_VERSION: u64 = 2;

/// The length of a segment digest.
pub const DIGEST_LEN: usize = 32;

/// The domain prefix hashed in front of a segment's bytes.
pub open spec fn segment_digest_domain() -> Seq<u8> {
    seq![
        0x6cu8, 0x6fu8, 0x6fu8, 0x6du8, 0x2du8, 0x63u8, 0x6fu8, 0x6cu8, 0x75u8, 0x6du8, 0x6eu8,
        0x61u8, 0x72u8, 0x2du8, 0x73u8, 0x65u8, 0x67u8, 0x6du8, 0x65u8, 0x6eu8, 0x74u8, 0x2du8,
        0x76u8, 0x31u8,
    ]
}

/// The bytes a segment digest hashes: the domain prefix `loom-columnar-segment-v1`, then the
/// segment's bytes.
pub fn segment_digest_input(segment_bytes: &[u8]) -> (r: Vec<u8>)
    ensures
        r@ == segment_digest_domain() + segment_bytes@,
{
    let domain: [u8; 24] = [
        0x6c, 0x6f, 0x6f, 0x6d, 0x2d, 0x63, 0x6f, 0x6c, 0x75, 0x6d, 0x6e, 0x61, 0x72, 0x2d, 0x73, 0x65,
        0x67, 0x6d, 0x65, 0x6e, 0x74, 0x2d, 0x76, 0x31,
    ];
    let mut out: Vec<u8> = Vec::new();
    append_bytes(&mut out, &domain);
    assert(domain@ =~= segment_digest_domain());
    append_bytes(&mut out, segment_bytes);
    out
}

/// The digest bytes a segment record carries: a byte string of exactly `DIGEST_LEN` bytes
/// (`CorruptObject` otherwise).
pub fn digest_from_value(value: Value) -> (r: Result<[u8; 32], LoomError>)
    ensures
        match value@ {
            CborValue::Bytes(b) => if b.len() == DIGEST_LEN {
                r matches Ok(d) && d@ == b
            } else {
                r matches Err(e) && is_corrupt(e, "digest field is not 32 bytes"@)
            },
            _ => r matches Err(e) && is_corrupt(e, "expected CBOR bytes"@),
        },
{
    let bytes = as_bytes(value)?;
    if bytes.len() != DIGEST_LEN {
        return Err(LoomError::corrupt("digest field is not 32 bytes"));
    }
    let mut out: [u8; 32] = [0u8; 32];
    let mut i: usize = 0;
    while i < 32
        invariant
            i <= 32,
            bytes@.len() == 32,
            out@.len() == 32,
            forall|j: int| 0 <= j < i ==> out@[j] == bytes@[j],
        decreases 32 - i,
    {
        out[i] = bytes[i];
        i = i + 1;
    }
    assert(out@ =~= bytes@);
    Ok(out)
}

/// A comparison a filter applies between a cell and its operand.
#[derive(Debug, Clone, Copy, PartialEq, Eq, Structural)]
pub enum CmpOp {
    Eq,
    Ne,
    Lt,
    Le,
    Gt,
    Ge,
}

/// Whether comparison `op` holds between a cell and an operand whose order, cell against
/// operand, is `ord`.
pub fn cmp_matches(op: CmpOp, ord: Ordering) -> (r: bool)
    ensures
        r == match op {
            CmpOp::Eq => ord is Equal,
            CmpOp::Ne => !(ord is Equal),
            CmpOp::Lt => ord is Less,
            CmpOp::Le => !(ord is Greater),
            CmpOp::Gt => ord is Greater,
            CmpOp::Ge => !(ord is Less),
        },
{
    match op {
        CmpOp::Eq => match ord {
            Ordering::Equal => true,
            _ => false,
        },
        CmpOp::Ne => match ord {
            Ordering::Equal => false,
            _ => true,
        },
        CmpOp::Lt => match ord {
            Ordering::Less => true,
            _ => false,
        },
        CmpOp::Le => match ord {
            Ordering::Greater => false,
            _ => true,
        },
        CmpOp::Gt => match ord {
            Ordering::Greater => true,
            _ => false,
        },
        CmpOp::Ge => match ord {
            Ordering::Less => false,
            _ => true,
        },
    }
}

// ---- integer sums -------------------------------------------------------------------------

/// An integer cell of one of the widths a column can hold. (Float cells are not among them: a
/// float column's sum is taken outside this library.)
#[derive(Debug, Clone, Copy, PartialEq, Eq, Structural)]
pub enum NumericCell {
    Int(i64),
    I8(i8),
    I16(i16),
    I32(i32),
    I128(i128),
    U8(u8),
    U16(u16),
    U32(u32),
    U64(u64),
    U128(u128),
}

/// The sum of two cells of one width, or the message of the failure: "columnar sum overflow"
/// when the exact sum leaves the width's range, "columnar sum type mismatch" when the widths
/// differ.
pub open spec fn numeric_sum(acc: NumericCell, value: NumericCell) -> Result<NumericCell, Seq<char>> {
    match (acc, value) {
        (NumericCell::Int(a), NumericCell::Int(b)) => if i64::MIN <= a + b <= i64::MAX {
            Ok(NumericCell::Int((a + b) as i64))
        } else {
            Err("columnar sum overflow"@)
        },
        (NumericCell::I8(a), NumericCell::I8(b)) => if i8::MIN <= a + b <= i8::MAX {
            Ok(NumericCell::I8((a + b) as i8))
        } else {
            Err("columnar sum overflow"@)
        },
        (NumericCell::I16(a), NumericCell::I16(b)) => if i16::MIN <= a + b <= i16::MAX {
            Ok(NumericCell::I16((a + b) as i16))
        } else {
            Err("columnar sum overflow"@)
        },
        (NumericCell::I32(a), NumericCell::I32(b)) => if i32::MIN <= a + b <= i32::MAX {
            Ok(NumericCell::I32((a + b) as i32))
        } else {
            Err("columnar sum overflow"@)
        },
        (NumericCell::I128(a), NumericCell::I128(b)) => if i128::MIN <= a + b <= i128::MAX {
            Ok(NumericCell::I128((a + b) as i128))
        } else {
            Err("columnar sum overflow"@)
        },
        (NumericCell::U8(a), NumericCell::U8(b)) => if u8::MIN <= a + b <= u8::MAX {
            Ok(NumericCell::U8((a + b) as u8))
        } else {
            Err("columnar sum overflow"@)
        },
        (NumericCell::U16(a), NumericCell::U16(b)) => if u16::MIN <= a + b <= u16::MAX {
            Ok(NumericCell::U16((a + b) as u16))
        } else {
            Err("columnar sum overflow"@)
        },
        (NumericCell::U32(a), NumericCell::U32(b)) => if u32::MIN <= a + b <= u32::MAX {
            Ok(NumericCell::U32((a + b) as u32))
        } else {
            Err("columnar sum overflow"@)
        },
        (NumericCell::U64(a), NumericCell::U64(b)) => if u64::MIN <= a + b <= u64::MAX {
            Ok(NumericCell::U64((a + b) as u64))
        } else {
            Err("columnar sum overflow"@)
        },
        (NumericCell::U128(a), NumericCell::U128(b)) => if u128::MIN <= a + b <= u128::MAX {
            Ok(NumericCell::U128((a + b) as u128))
        } else {
            Err("columnar sum overflow"@)
        },
        _ => Err("columnar sum type mismatch"@),
    }
}

/// The integer a cell holds.
pub open spec fn cell_int(c: NumericCell) -> int {
    match c {
        NumericCell::Int(x) => x as int,
        NumericCell::I8(x) => x as int,
        NumericCell::I16(x) => x as int,
        NumericCell::I32(x) => x as int,
        NumericCell::I128(x) => x as int,
        NumericCell::U8(x) => x as int,
        NumericCell::U16(x) => x as int,
        NumericCell::U32(x) => x as int,
        NumericCell::U64(x) => x as int,
        NumericCell::U128(x) => x as int,
    }
}

/// The least integer of a cell's width.
pub open spec fn width_min(c: NumericCell) -> int {
    match c {
        NumericCell::Int(_) => i64::MIN as int,
        NumericCell::I8(_) => i8::MIN as int,
        NumericCell::I16(_) => i16::MIN as int,
        NumericCell::I32(_) => i32::MIN as int,
        NumericCell::I128(_) => i128::MIN as int,
        NumericCell::U8(_) => u8::MIN as int,
        NumericCell::U16(_) => u16::MIN as int,
        NumericCell::U32(_) => u32::MIN as int,
        NumericCell::U64(_) => u64::MIN as int,
        NumericCell::U128(_) => u128::MIN as int,
    }
}

/// The greatest integer of a cell's width.
pub open spec fn width_max(c: NumericCell) -> int {
    match c {
        NumericCell::Int(_) => i64::MAX as int,
        NumericCell::I8(_) => i8::MAX as int,
        NumericCell::I16(_) => i16::MAX as int,
        NumericCell::I32(_) => i32::MAX as int,
        NumericCell::I128(_) => i128::MAX as int,
        NumericCell::U8(_) => u8::MAX as int,
        NumericCell::U16(_) => u16::MAX as int,
        NumericCell::U32(_) => u32::MAX as int,
        NumericCell::U64(_) => u64::MAX as int,
        NumericCell::U128(_) => u128::MAX as int,
    }
}

/// Whether two cells have the same width.
pub open spec fn same_width(a: NumericCell, b: NumericCell) -> bool {
    match (a, b) {
        (NumericCell::Int(_), NumericCell::Int(_)) => true,
        (NumericCell::I8(_), NumericCell::I8(_)) => true,
        (NumericCell::I16(_), NumericCell::I16(_)) => true,
        (NumericCell::I32(_), NumericCell::I32(_)) => true,
        (NumericCell::I128(_), NumericCell::I128(_)) => true,
        (NumericCell::U8(_), NumericCell::U8(_)) => true,
        (NumericCell::U16(_), NumericCell::U16(_)) => true,
        (NumericCell::U32(_), NumericCell::U32(_)) => true,
        (NumericCell::U64(_), NumericCell::U64(_)) => true,
        (NumericCell::U128(_), NumericCell::U128(_)) => true,
        _ => false,
    }
}

/// Sums are exact within their width: two cells of one width whose mathematical sum lies in
/// that width's range sum to a cell of that width holding exactly that sum; when the sum leaves
/// the range the failure is "columnar sum overflow"; cells of different widths fail with
/// "columnar sum type mismatch".
pub proof fn law_sums_are_exact_in_their_width(acc: NumericCell, value: NumericCell)
    ensures
        same_width(acc, value) && width_min(acc) <= cell_int(acc) + cell_int(value) <= width_max(acc)
            ==> (numeric_sum(acc, value) matches Ok(s) && same_width(s, acc) && cell_int(s) == cell_int(acc)
            + cell_int(value)),
        same_width(acc, value) && !(width_min(acc) <= cell_int(acc) + cell_int(value) <= width_max(acc))
            ==> numeric_sum(acc, value) == Err::<NumericCell, Seq<char>>("columnar sum overflow"@),
        !same_width(acc, value) ==> numeric_sum(acc, value) == Err::<NumericCell, Seq<char>>(
            "columnar sum type mismatch"@,
        ),
{
}

/// Adds `value` to the running sum `acc`: the exact sum in the same width when it fits;
/// `InvalidArgument` "columnar sum overflow" when it does not, and "columnar sum type mismatch"
/// when the two cells have different widths.
pub fn add_numeric(acc: NumericCell, value: &NumericCell) -> (r: Result<NumericCell, LoomError>)
    ensures
        match numeric_sum(acc, *value) {
            Ok(c) => r matches Ok(x) && x == c,
            Err(m) => r matches Err(e) && e.code == Code::InvalidArgument && e.message@ == m,
        },
        same_width(acc, *value) && width_min(acc) <= cell_int(acc) + cell_int(*value) <= width_max(acc)
            ==> (r matches Ok(s) && same_width(s, acc) && cell_int(s) == cell_int(acc) + cell_int(*value)),
        same_width(acc, *value) && !(width_min(acc) <= cell_int(acc) + cell_int(*value) <= width_max(acc))
            ==> (r matches Err(e) && e.code == Code::InvalidArgument && e.message@ == "columnar sum overflow"@),
        !same_width(acc, *value) ==> (r matches Err(e) && e.code == Code::InvalidArgument && e.message@
            == "columnar sum type mismatch"@),
{
    proof {
        law_sums_are_exact_in_their_width(acc, *value);
    }
    match (acc, value) {
        (NumericCell::Int(a), NumericCell::Int(b)) => match a.checked_add(*b) {
            Some(s) => Ok(NumericCell::Int(s)),
            None => Err(LoomError::invalid("columnar sum overflow")),
        },
        (NumericCell::I8(a), NumericCell::I8(b)) => match a.checked_add(*b) {
            Some(s) => Ok(NumericCell::I8(s)),
            None => Err(LoomError::invalid("columnar sum overflow")),
        },
        (NumericCell::I16(a), NumericCell::I16(b)) => match a.checked_add(*b) {
            Some(s) => Ok(NumericCell::I16(s)),
            None => Err(LoomError::invalid("columnar sum overflow")),
        },
        (NumericCell::I32(a), NumericCell::I32(b)) => match a.checked_add(*b) {
            Some(s) => Ok(NumericCell::I32(s)),
            None => Err(LoomError::invalid("columnar sum overflow")),
        },
        (NumericCell::I128(a), NumericCell::I128(b)) => match a.checked_add(*b) {
            Some(s) => Ok(NumericCell::I128(s)),
            None => Err(LoomError::invalid("columnar sum overflow")),
        },
        (NumericCell::U8(a), NumericCell::U8(b)) => match a.checked_add(*b) {
            Some(s) => Ok(NumericCell::U8(s)),
            None => Err(LoomError::invalid("columnar sum overflow")),
        },
        (NumericCell::U16(a), NumericCell::U16(b)) => match a.checked_add(*b) {
            Some(s) => Ok(NumericCell::U16(s)),
            None => Err(LoomError::invalid("columnar sum overflow")),
        },
        (NumericCell::U32(a), NumericCell::U32(b)) => match a.checked_add(*b) {
            Some(s) => Ok(NumericCell::U32(s)),
            None => Err(LoomError::invalid("columnar sum overflow")),
        },
        (NumericCell::U64(a), NumericCell::U64(b)) => match a.checked_add(*b) {
            Some(s) => Ok(NumericCell::U64(s)),
            None => Err(LoomError::invalid("columnar sum overflow")),
        },
        (NumericCell::U128(a), NumericCell::U128(b)) => match a.checked_add(*b) {
            Some(s) => Ok(NumericCell::U128(s)),
            None => Err(LoomError::invalid("columnar sum overflow")),
        },
        _ => Err(LoomError::invalid("columnar sum type mismatch")),
    }
}

/// The zero of a cell's width.
pub open spec fn numeric_zero_like(value: NumericCell) -> NumericCell {
    match value {
        NumericCell::Int(_) => NumericCell::Int(0),
        NumericCell::I8(_) => NumericCell::I8(0),
        NumericCell::I16(_) => NumericCell::I16(0),
        NumericCell::I32(_) => NumericCell::I32(0),
        NumericCell::I128(_) => NumericCell::I128(0),
        NumericCell::U8(_) => NumericCell::U8(0),
        NumericCell::U16(_) => NumericCell::U16(0),
        NumericCell::U32(_) => NumericCell::U32(0),
        NumericCell::U64(_) => NumericCell::U64(0),
        NumericCell::U128(_) => NumericCell::U128(0),
    }
}

/// A cell as the Sum aggregate sees it: null (skipped), an integer cell, or any other cell.
#[derive(Debug, Clone, Copy, PartialEq, Eq, Structural)]
pub enum SumCell {
    Null,
    Numeric(NumericCell),
    Other,
}

/// The Sum of a column's cells in order: nulls are skipped; the first other cell starts from
/// the zero of its width, and every one after it is added with `numeric_sum`. `None` when every
/// cell is null. A first non-null cell that is not an integer fails with "columnar sum requires
/// a numeric column"; a later one with "columnar sum type mismatch".
pub open spec fn column_sum(cells: Seq<SumCell>) -> Result<Option<NumericCell>, Seq<char>>
    decreases cells.len(),
{
    if cells.len() == 0 {
        Ok(None)
    } else {
        match column_sum(cells.drop_last()) {
            Err(m) => Err(m),
            Ok(acc) => match cells.last() {
                SumCell::Null => Ok(acc),
                SumCell::Other => match acc {
                    None => Err("columnar sum requires a numeric column"@),
                    Some(_) => Err("columnar sum type mismatch"@),
                },
                SumCell::Numeric(c) => {
                    let start = match acc {
                        None => numeric_zero_like(c),
                        Some(a) => a,
                    };
                    match numeric_sum(start, c) {
                        Ok(s) => Ok(Some(s)),
                        Err(m) => Err(m),
                    }
                },
            },
        }
    }
}

/// Once the sum of a beginning of the cells fails, the sum of all of them fails alike.
proof fn lemma_column_sum_failure_stays(cells: Seq<SumCell>, i: int)
    requires
        0 <= i <= cells.len(),
        column_sum(cells.take(i)) is Err,
    ensures
        column_sum(cells) == column_sum(cells.take(i)),
    decreases cells.len() - i,
{
    if i < cells.len() {
        assert(cells.take(i + 1).drop_last() =~= cells.take(i));
        lemma_column_sum_failure_stays(cells, i + 1);
    } else {
        assert(cells.take(i) =~= cells);
    }
}

/// Every cell is null or an `Int`.
pub open spec fn int_cells_only(cells: Seq<SumCell>) -> bool {
    forall|i: int| 0 <= i < cells.len() ==> #[trigger] cells[i] is Null || cells[i] matches SumCell::Numeric(
        NumericCell::Int(_),
    )
}

/// Every cell is null.
pub open spec fn all_null(cells: Seq<SumCell>) -> bool {
    forall|i: int| 0 <= i < cells.len() ==> #[trigger] cells[i] is Null
}

/// The exact total of the `Int` cells.
pub open spec fn int_total(cells: Seq<SumCell>) -> int
    decreases cells.len(),
{
    if cells.len() == 0 {
        0
    } else {
        int_total(cells.drop_last()) + match cells.last() {
            SumCell::Numeric(NumericCell::Int(x)) => x as int,
            _ => 0,
        }
    }
}

/// The Sum of a column of `Int` cells and nulls is the exact total of its integers, so long as
/// every running total fits an `i64`; a column of nulls alone (or no cells) sums to none.
pub proof fn law_int_column_sums_exactly(cells: Seq<SumCell>)
    requires
        int_cells_only(cells),
        forall|k: int| 0 <= k <= cells.len() ==> i64::MIN <= #[trigger] int_total(cells.take(k)) <= i64::MAX,
    ensures
        column_sum(cells) == if all_null(cells) {
            Ok::<Option<NumericCell>, Seq<char>>(None)
        } else {
            Ok(Some(NumericCell::Int(int_total(cells) as i64)))
        },
        all_null(cells) ==> int_total(cells) == 0,
    decreases cells.len(),
{
    if cells.len() > 0 {
        let t = cells.drop_last();
        assert forall|k: int| 0 <= k <= t.len() implies i64::MIN <= #[trigger] int_total(t.take(k)) <= i64::MAX by {
            assert(t.take(k) =~= cells.take(k));
        }
        assert(int_cells_only(t)) by {
            assert forall|i: int| 0 <= i < t.len() implies #[trigger] t[i] is Null || t[i] matches SumCell::Numeric(
                NumericCell::Int(_),
            ) by {
                assert(t[i] == cells[i]);
            }
        }
        law_int_column_sums_exactly(t);
        assert(cells.take(cells.len() as int) =~= cells);
        let c = cells.last();
        assert(c == cells[cells.len() - 1]);
        if c is Null {
            assert(all_null(cells) == all_null(t)) by {
                if all_null(t) {
                    assert forall|i: int| 0 <= i < cells.len() implies #[trigger] cells[i] is Null by {
                        if i < t.len() {
                            assert(cells[i] == t[i]);
                        }
                    }
                } else {
                    let i = choose|i: int| 0 <= i < t.len() && !(#[trigger] t[i] is Null);
                    assert(cells[i] == t[i]);
                }
            }
        } else {
            assert(!all_null(cells));
        }
    }
}

/// Every cell is null or a cell of the width of `w`.
pub open spec fn one_width_only(cells: Seq<SumCell>, w: NumericCell) -> bool {
    forall|i: int|
        0 <= i < cells.len() ==> #[trigger] cells[i] is Null || (cells[i] matches SumCell::Numeric(c)
            && same_width(c, w))
}

/// The exact total of the integers the non-null cells hold.
pub open spec fn cells_total(cells: Seq<SumCell>) -> int
    decreases cells.len(),
{
    if cells.len() == 0 {
        0
    } else {
        cells_total(cells.drop_last()) + match cells.last() {
            SumCell::Numeric(c) => cell_int(c),
            _ => 0,
        }
    }
}

/// The zero of a width is a cell of that width holding 0.
proof fn lemma_zero_like(c: NumericCell)
    ensures
        same_width(numeric_zero_like(c), c),
        cell_int(numeric_zero_like(c)) == 0,
{
}

/// Having the same width is an equivalence, and cells of one width share their range.
proof fn lemma_same_width(a: NumericCell, b: NumericCell, c: NumericCell)
    ensures
        same_width(a, a),
        same_width(a, b) ==> same_width(b, a) && width_min(a) == width_min(b) && width_max(a) == width_max(b),
        same_width(a, b) && same_width(b, c) ==> same_width(a, c),
{
}

/// The Sum of a column whose cells are nulls and integers of one width is a cell of that width
/// holding the exact total, so long as every running total lies in the width's range; a column
/// of nulls alone (or no cells) sums to none.
pub proof fn law_column_sums_exactly(cells: Seq<SumCell>, w: NumericCell)
    requires
        one_width_only(cells, w),
        forall|k: int|
            0 <= k <= cells.len() ==> width_min(w) <= #[trigger] cells_total(cells.take(k)) <= width_max(w),
    ensures
        all_null(cells) ==> column_sum(cells) == Ok::<Option<NumericCell>, Seq<char>>(None),
        !all_null(cells) ==> (column_sum(cells) matches Ok(Some(s)) && same_width(s, w) && cell_int(s)
            == cells_total(cells)),
        all_null(cells) ==> cells_total(cells) == 0,
    decreases cells.len(),
{
    if cells.len() > 0 {
        let t = cells.drop_last();
        assert forall|k: int| 0 <= k <= t.len() implies width_min(w) <= #[trigger] cells_total(t.take(k))
            <= width_max(w) by {
            assert(t.take(k) =~= cells.take(k));
        }
        assert(one_width_only(t, w)) by {
            assert forall|i: int| 0 <= i < t.len() implies #[trigger] t[i] is Null || (t[i] matches SumCell::Numeric(
                c,
            ) && same_width(c, w)) by {
                assert(t[i] == cells[i]);
            }
        }
        law_column_sums_exactly(t, w);
        assert(cells.take(cells.len() as int) =~= cells);
        let x = cells.last();
        assert(x == cells[cells.len() - 1]);
        if x is Null {
            assert(all_null(cells) == all_null(t)) by {
                if all_null(t) {
                    assert forall|i: int| 0 <= i < cells.len() implies #[trigger] cells[i] is Null by {
                        if i < t.len() {
                            assert(cells[i] == t[i]);
                        }
                    }
                } else {
                    let i = choose|i: int| 0 <= i < t.len() && !(#[trigger] t[i] is Null);
                    assert(cells[i] == t[i]);
                }
            }
        } else {
            assert(!all_null(cells));
            if let SumCell::Numeric(c) = x {
                if all_null(t) {
                    lemma_zero_like(c);
                    lemma_same_width(numeric_zero_like(c), c, w);
                    lemma_same_width(c, w, w);
                    law_sums_are_exact_in_their_width(numeric_zero_like(c), c);
                } else {
                    let a = column_sum(t)->Ok_0->0;
                    lemma_same_width(a, w, c);
                    lemma_same_width(c, w, a);
                    lemma_same_width(a, c, w);
                    law_sums_are_exact_in_their_width(a, c);
                    assert(cells_total(cells) == cells_total(t) + cell_int(c));
                    assert(width_min(w) <= cells_total(cells) <= width_max(w));
                    assert(numeric_sum(a, c) is Ok);
                }
                assert(column_sum(cells) matches Ok(Some(s)) && same_width(s, w));
            } else {
                assert(false);
            }
        }
    }
}

/// The zero of a cell's width.
fn zero_like(value: &NumericCell) -> (r: NumericCell)
    ensures
        r == numeric_zero_like(*value),
{
    match value {
        NumericCell::Int(_) => NumericCell::Int(0),
        NumericCell::I8(_) => NumericCell::I8(0),
        NumericCell::I16(_) => NumericCell::I16(0),
        NumericCell::I32(_) => NumericCell::I32(0),
        NumericCell::I128(_) => NumericCell::I128(0),
        NumericCell::U8(_) => NumericCell::U8(0),
        NumericCell::U16(_) => NumericCell::U16(0),
        NumericCell::U32(_) => NumericCell::U32(0),
        NumericCell::U64(_) => NumericCell::U64(0),
        NumericCell::U128(_) => NumericCell::U128(0),
    }
}

/// The Sum aggregate over a column's cells (see `column_sum`): `Ok(None)` when every cell is
/// null, else the sum, or the `InvalidArgument` failure `column_sum` names.
pub fn sum_values(cells: &Vec<SumCell>) -> (r: Result<Option<NumericCell>, LoomError>)
    ensures
        match column_sum(cells@) {
            Ok(o) => r matches Ok(x) && x == o,
            Err(m) => r matches Err(e) && e.code == Code::InvalidArgument && e.message@ == m,
        },
{
    let mut sum: Option<NumericCell> = None;
    let mut i: usize = 0;
    assert(cells@.take(0) =~= Seq::<SumCell>::empty());
    while i < cells.len()
        invariant
            i <= cells.len(),
            column_sum(cells@.take(i as int)) == Ok::<Option<NumericCell>, Seq<char>>(sum),
        decreases cells.len() - i,
    {
        assert(cells@.take(i + 1).drop_last() =~= cells@.take(i as int));
        assert(cells@.take(i + 1).last() == cells@[i as int]);
        match &cells[i] {
            SumCell::Null => {},
            SumCell::Other => {
                proof {
                    lemma_column_sum_failure_stays(cells@, i + 1);
                }
                match sum {
                    None => {
                        return Err(LoomError::invalid("columnar sum requires a numeric column"));
                    },
                    Some(_) => {
                        return Err(LoomError::invalid("columnar sum type mismatch"));
                    },
                }
            },
            SumCell::Numeric(c) => {
                let start = match sum {
                    None => zero_like(c),
                    Some(a) => a,
                };
                match add_numeric(start, c) {
                    Ok(s) => {
                        sum = Some(s);
                    },
                    Err(e) => {
                        proof {
                            lemma_column_sum_failure_stays(cells@, i + 1);
                        }
                        return Err(e);
                    },
                }
            },
        }
        i = i + 1;
    }
    assert(cells@.take(i as int) =~= cells@);
    Ok(sum)
}

} // verus!
