//! A versioned columnar dataset: named, typed columns over rows kept in append order across
//! ordered segments. The dataset is generic in its column type `T` and cell type `V`; what
//! depends on the cells themselves (whether a cell matches its column's type, how cells compare,
//! how they encode) belongs to the cell type and is applied by the caller around the operations
//! here, which decide everything else: the schema, the arity of rows, the segment layout, and
//! the resolution of column names for queries.

use vstd::prelude::*;
use crate::client::str_equals;
use crate::columnar::{ColumnarAggregate, ColumnarAggregateOp};
use crate::error::{Code, LoomError};
use crate::segments::{effective_target, rolled, segment_views, SegmentRange, SegmentedRows};

verus! {

broadcast use {
    vstd::seq::group_seq_axioms,
    vstd::seq_lib::group_seq_properties,
    vstd::seq::Seq::lemma_flatten_push,
    vstd::std_specs::vec::group_vec_axioms,
};

// ---- text of numbers and names --------------------------------------------------------------

/// The character of a decimal digit.
pub open spec fn digit_char(d: nat) -> char {
    if d == 0 {
        '0'
    } else if d == 1 {
        '1'
    } else if d == 2 {
        '2'
    } else if d == 3 {
        '3'
    } else if d == 4 {
        '4'
    } else if d == 5 {
        '5'
    } else if d == 6 {
        '6'
    } else if d == 7 {
        '7'
    } else if d == 8 {
        '8'
    } else {
        '9'
    }
}

/// The decimal text of a number: its digits, most significant first, with no leading zeros.
pub open spec fn decimal_text(n: nat) -> Seq<char>
    decreases n,
{
    if n < 10 {
        seq![digit_char(n)]
    } else {
        decimal_text(n / 10).push(digit_char(n % 10))
    }
}

/// The one-character text of a digit.
fn digit_str(d: u64) -> (r: &'static str)
    requires
        d < 10,
    ensures
        r@ == seq![digit_char(d as nat)],
{
    proof {
        reveal_strlit("0");
        reveal_strlit("1");
        reveal_strlit("2");
        reveal_strlit("3");
        reveal_strlit("4");
        reveal_strlit("5");
        reveal_strlit("6");
        reveal_strlit("7");
        reveal_strlit("8");
        reveal_strlit("9");
    }
    if d == 0 {
        "0"
    } else if d == 1 {
        "1"
    } else if d == 2 {
        "2"
    } else if d == 3 {
        "3"
    } else if d == 4 {
        "4"
    } else if d == 5 {
        "5"
    } else if d == 6 {
        "6"
    } else if d == 7 {
        "7"
    } else if d == 8 {
        "8"
    } else {
        "9"
    }
}

/// The decimal text of a number.
pub fn decimal(n: u64) -> (r: String)
    ensures
        r@ == decimal_text(n as nat),
    decreases n,
{
    if n < 10 {
        String::from_str(digit_str(n))
    } else {
        let mut s = decimal(n / 10);
        s.append(digit_str(n % 10));
        s
    }
}

/// The debug text of a string: the `Debug` rendering of its characters (quoted and escaped).
pub uninterp spec fn debug_text_of(s: Seq<char>) -> Seq<char>;

/// Calls the `Debug` implementation of `str` (through `format!`), which renders the text in
/// double quotes with quotes, backslashes and non-printable characters escaped. The contract
/// names the result as a function of the characters alone and states nothing more of it.
#[verifier::external_body]
fn debug_text(s: &str) -> (r: String)
    ensures
        r@ == debug_text_of(s@),
{
    format!("{s:?}")
}

// ---- column names ---------------------------------------------------------------------------

/// The position of the first of `names` equal to `name`, if any.
pub open spec fn first_position(names: Seq<Seq<char>>, name: Seq<char>) -> Option<int>
    decreases names.len(),
{
    if names.len() == 0 {
        None
    } else if names.last() == name {
        match first_position(names.drop_last(), name) {
            Some(i) => Some(i),
            None => Some(names.len() - 1),
        }
    } else {
        first_position(names.drop_last(), name)
    }
}

/// The message for a name no column carries.
pub open spec fn unknown_column_message(name: Seq<char>) -> Seq<char> {
    "unknown column "@ + debug_text_of(name)
}

/// A column name resolved to its position, or the message for an unknown name.
pub open spec fn resolve_column(names: Seq<Seq<char>>, name: Seq<char>) -> Result<int, Seq<char>> {
    match first_position(names, name) {
        Some(i) => Ok(i),
        None => Err(unknown_column_message(name)),
    }
}

/// Several column names resolved in order, or the message for the first unknown one.
pub open spec fn resolve_columns(names: Seq<Seq<char>>, wanted: Seq<Seq<char>>) -> Result<Seq<int>, Seq<char>>
    decreases wanted.len(),
{
    if wanted.len() == 0 {
        Ok(Seq::empty())
    } else {
        match resolve_columns(names, wanted.drop_last()) {
            Err(m) => Err(m),
            Ok(idx) => match resolve_column(names, wanted.last()) {
                Err(m) => Err(m),
                Ok(i) => Ok(idx.push(i)),
            },
        }
    }
}

/// The column an aggregate reads, resolved: none for `Count`; the position of its column for
/// every other operation, which requires one.
pub open spec fn resolve_aggregate(names: Seq<Seq<char>>, op: ColumnarAggregateOp, column: Option<Seq<char>>) -> Result<
    Option<int>,
    Seq<char>,
> {
    if op == ColumnarAggregateOp::Count {
        Ok(None)
    } else {
        match column {
            None => Err("columnar aggregate column is required"@),
            Some(c) => match resolve_column(names, c) {
                Err(m) => Err(m),
                Ok(i) => Ok(Some(i)),
            },
        }
    }
}

/// The characters of an optional string.
pub open spec fn optional_chars(s: Option<String>) -> Option<Seq<char>> {
    match s {
        Some(t) => Some(t@),
        None => None,
    }
}

/// The aggregates' columns resolved in order, or the message for the first failure.
pub open spec fn resolve_aggregates(names: Seq<Seq<char>>, aggregates: Seq<ColumnarAggregate>) -> Result<
    Seq<Option<int>>,
    Seq<char>,
>
    decreases aggregates.len(),
{
    if aggregates.len() == 0 {
        Ok(Seq::empty())
    } else {
        match resolve_aggregates(names, aggregates.drop_last()) {
            Err(m) => Err(m),
            Ok(idx) => match resolve_aggregate(names, aggregates.last().op, optional_chars(aggregates.last().column)) {
                Err(m) => Err(m),
                Ok(i) => Ok(idx.push(i)),
            },
        }
    }
}

/// An optional filter column resolved.
pub open spec fn resolve_filter(names: Seq<Seq<char>>, filter: Option<Seq<char>>) -> Result<Option<int>, Seq<char>> {
    match filter {
        None => Ok(None),
        Some(f) => match resolve_column(names, f) {
            Err(m) => Err(m),
            Ok(i) => Ok(Some(i)),
        },
    }
}

/// The characters of an optional string slice.
pub open spec fn optional_str_chars(s: Option<&str>) -> Option<Seq<char>> {
    match s {
        Some(t) => Some(t@),
        None => None,
    }
}

/// The characters of each string slice.
pub open spec fn str_views(s: Seq<&str>) -> Seq<Seq<char>> {
    Seq::new(s.len(), |i: int| s[i]@)
}

/// The message for a row whose arity differs from the dataset's.
pub open spec fn arity_message(values: nat, columns: nat) -> Seq<char> {
    "row has "@ + decimal_text(values) + " values, dataset has "@ + decimal_text(columns) + " columns"@
}

/// The positions of a sequence of `usize`s.
/// The position of the first cell that does not fit its column's type, if any.
pub open spec fn first_unfit(fits: Seq<bool>) -> Option<int>
    decreases fits.len(),
{
    if fits.len() == 0 {
        None
    } else if !fits[0] {
        Some(0)
    } else {
        match first_unfit(fits.drop_first()) {
            Some(k) => Some(k + 1),
            None => None,
        }
    }
}

/// The first cell that does not fit is found: `first_unfit` names a cell that does not fit,
/// every cell before it fits, and it names none exactly when every cell fits.
pub proof fn law_first_unfit_is_the_first_cell_that_does_not_fit(fits: Seq<bool>)
    ensures
        first_unfit(fits) matches Some(k) ==> 0 <= k < fits.len() && !fits[k] && forall|j: int|
            0 <= j < k ==> fits[j],
        first_unfit(fits) is None <==> forall|j: int| 0 <= j < fits.len() ==> fits[j],
    decreases fits.len(),
{
    if fits.len() > 0 {
        let t = fits.drop_first();
        law_first_unfit_is_the_first_cell_that_does_not_fit(t);
        assert forall|j: int| 0 <= j < t.len() implies t[j] == fits[j + 1] by {}
        if fits[0] {
            if first_unfit(t) is None {
                assert forall|j: int| 0 <= j < fits.len() implies fits[j] by {
                    if j > 0 {
                        assert(t[j - 1] == fits[j]);
                    }
                }
            } else {
                let k = first_unfit(t)->0;
                assert forall|j: int| 0 <= j < k + 1 implies fits[j] by {
                    if j > 0 {
                        assert(t[j - 1] == fits[j]);
                    }
                }
                assert(!fits[k + 1]);
            }
        }
    }
}

/// The failure message for a cell of column `name` that is not of its type, named `expected`.
pub open spec fn type_message(name: Seq<char>, expected: Seq<char>) -> Seq<char> {
    "column "@ + debug_text_of(name) + " expects "@ + expected
}

pub open spec fn positions(v: Seq<usize>) -> Seq<int> {
    Seq::new(v.len(), |i: int| v[i] as int)
}

/// The positions of a sequence of optional `usize`s.
pub open spec fn optional_positions(v: Seq<Option<usize>>) -> Seq<Option<int>> {
    Seq::new(
        v.len(),
        |i: int|
            match v[i] {
                Some(p) => Some(p as int),
                None => None,
            },
    )
}

/// A position as an optional integer.
pub open spec fn optional_position(v: Option<usize>) -> Option<int> {
    match v {
        Some(p) => Some(p as int),
        None => None,
    }
}

proof fn lemma_first_position_bounds(names: Seq<Seq<char>>, name: Seq<char>)
    ensures
        first_position(names, name) matches Some(i) ==> 0 <= i < names.len() && names[i] == name && forall|
            j: int,
        |
            0 <= j < i ==> names[j] != name,
        first_position(names, name) is None ==> forall|j: int| 0 <= j < names.len() ==> names[j] != name,
    decreases names.len(),
{
    if names.len() > 0 {
        let front = names.drop_last();
        lemma_first_position_bounds(front, name);
        assert forall|j: int| 0 <= j < front.len() implies front[j] == names[j] by {}
    }
}

/// Position `k` holds the first column named `name`.
pub open spec fn first_named(names: Seq<Seq<char>>, name: Seq<char>, k: int) -> bool {
    &&& 0 <= k < names.len()
    &&& names[k] == name
    &&& forall|j: int| 0 <= j < k ==> names[j] != name
}

/// What an aggregate reads once resolved to `idx`: nothing for `Count`; for every other
/// operation the first column carrying the name it gives.
pub open spec fn reads_named_column(names: Seq<Seq<char>>, a: ColumnarAggregate, idx: Option<int>) -> bool {
    &&& a.op == ColumnarAggregateOp::Count ==> idx is None
    &&& a.op != ColumnarAggregateOp::Count ==> (a.column matches Some(c) && idx matches Some(k) && first_named(
        names,
        c@,
        k,
    ))
}

/// Whether an aggregate can be resolved: `Count`, or an operation naming a column the dataset
/// has.
pub open spec fn names_a_known_column(names: Seq<Seq<char>>, a: ColumnarAggregate) -> bool {
    a.op == ColumnarAggregateOp::Count || (a.column matches Some(c) && exists|k: int|
        0 <= k < names.len() && names[k] == c@)
}

/// Each aggregate reads the column it names: when the aggregates resolve, `Count` reads no
/// column and every other operation (`CountNonNull`, `Min`, `Max`, `Sum`) reads the first column
/// carrying the name it gives; and the aggregates resolve exactly when each of them is `Count` or
/// names a column the dataset has.
pub proof fn law_aggregates_read_their_named_columns(names: Seq<Seq<char>>, aggregates: Seq<ColumnarAggregate>)
    ensures
        resolve_aggregates(names, aggregates) matches Ok(idx) ==> idx.len() == aggregates.len() && forall|i: int|
            0 <= i < aggregates.len() ==> reads_named_column(names, #[trigger] aggregates[i], idx[i]),
        resolve_aggregates(names, aggregates) is Ok <==> forall|i: int|
            0 <= i < aggregates.len() ==> names_a_known_column(names, #[trigger] aggregates[i]),
    decreases aggregates.len(),
{
    if aggregates.len() > 0 {
        let t = aggregates.drop_last();
        let a = aggregates.last();
        law_aggregates_read_their_named_columns(names, t);
        assert(a == aggregates[aggregates.len() - 1]);
        assert forall|i: int| 0 <= i < t.len() implies t[i] == aggregates[i] by {}
        if let Some(c) = a.column {
            lemma_first_position_bounds(names, c@);
        }
        if resolve_aggregates(names, aggregates) is Ok {
            let idx = resolve_aggregates(names, aggregates)->Ok_0;
            let tidx = resolve_aggregates(names, t)->Ok_0;
            assert forall|i: int| 0 <= i < aggregates.len() implies reads_named_column(
                names,
                #[trigger] aggregates[i],
                idx[i],
            ) by {
                if i < t.len() {
                    assert(idx[i] == tidx[i]);
                    assert(reads_named_column(names, t[i], tidx[i]));
                }
            }
            assert forall|i: int| 0 <= i < aggregates.len() implies names_a_known_column(
                names,
                #[trigger] aggregates[i],
            ) by {
                if i < t.len() {
                    assert(names_a_known_column(names, t[i]));
                }
            }
        } else {
            if resolve_aggregates(names, t) is Ok {
                assert(!names_a_known_column(names, aggregates[aggregates.len() - 1]));
            } else {
                let i = choose|i: int| 0 <= i < t.len() && !names_a_known_column(names, #[trigger] t[i]);
                assert(!names_a_known_column(names, aggregates[i]));
            }
        }
    }
}

/// A name resolves to the first column carrying it, and fails, naming it, exactly when no
/// column carries it.
pub proof fn law_name_resolves_to_its_first_column(names: Seq<Seq<char>>, name: Seq<char>)
    ensures
        resolve_column(names, name) matches Ok(k) ==> first_named(names, name, k),
        resolve_column(names, name) is Err <==> forall|j: int| 0 <= j < names.len() ==> names[j] != name,
        resolve_column(names, name) is Err ==> resolve_column(names, name) == Err::<int, Seq<char>>(
            "unknown column "@ + debug_text_of(name),
        ),
{
    lemma_first_position_bounds(names, name);
}

/// Names resolve, in order, each to the first column carrying it, and they resolve exactly when
/// every one of them is the name of a column.
pub proof fn law_names_resolve_to_their_first_columns(names: Seq<Seq<char>>, wanted: Seq<Seq<char>>)
    ensures
        resolve_columns(names, wanted) matches Ok(idx) ==> idx.len() == wanted.len() && forall|i: int|
            0 <= i < wanted.len() ==> first_named(names, #[trigger] wanted[i], idx[i]),
        resolve_columns(names, wanted) is Ok <==> forall|i: int|
            0 <= i < wanted.len() ==> exists|k: int| 0 <= k < names.len() && names[k] == #[trigger] wanted[i],
    decreases wanted.len(),
{
    if wanted.len() > 0 {
        let t = wanted.drop_last();
        let w = wanted.last();
        law_names_resolve_to_their_first_columns(names, t);
        lemma_first_position_bounds(names, w);
        assert(w == wanted[wanted.len() - 1]);
        assert forall|i: int| 0 <= i < t.len() implies t[i] == wanted[i] by {}
        if resolve_columns(names, wanted) is Ok {
            let idx = resolve_columns(names, wanted)->Ok_0;
            let tidx = resolve_columns(names, t)->Ok_0;
            assert forall|i: int| 0 <= i < wanted.len() implies first_named(names, #[trigger] wanted[i], idx[i]) by {
                if i < t.len() {
                    assert(idx[i] == tidx[i]);
                    assert(first_named(names, t[i], tidx[i]));
                } else {
                    assert(idx[i] == first_position(names, w)->0);
                }
            }
            assert forall|i: int| 0 <= i < wanted.len() implies exists|k: int|
                0 <= k < names.len() && names[k] == #[trigger] wanted[i] by {
                assert(first_named(names, wanted[i], idx[i]));
            }
        } else {
            if resolve_columns(names, t) is Ok {
                assert(forall|j: int| 0 <= j < names.len() ==> names[j] != wanted[wanted.len() - 1]);
            } else {
                let i = choose|i: int| 0 <= i < t.len() && !(exists|k: int|
                    0 <= k < names.len() && names[k] == #[trigger] t[i]);
                assert(wanted[i] == t[i]);
            }
        }
    }
}

/// Once a prefix of the names fails to resolve, the whole list fails with the same message.
proof fn lemma_resolve_columns_prefix(names: Seq<Seq<char>>, wanted: Seq<Seq<char>>, k: int)
    requires
        0 <= k <= wanted.len(),
        resolve_columns(names, wanted.take(k)) is Err,
    ensures
        resolve_columns(names, wanted) == resolve_columns(names, wanted.take(k)),
    decreases wanted.len(),
{
    if k == wanted.len() {
        assert(wanted.take(k) =~= wanted);
    } else {
        let front = wanted.drop_last();
        assert(front.take(k) =~= wanted.take(k));
        lemma_resolve_columns_prefix(names, front, k);
    }
}

/// Once a prefix of the aggregates fails to resolve, the whole list fails with the same message.
proof fn lemma_resolve_aggregates_prefix(names: Seq<Seq<char>>, aggregates: Seq<ColumnarAggregate>, k: int)
    requires
        0 <= k <= aggregates.len(),
        resolve_aggregates(names, aggregates.take(k)) is Err,
    ensures
        resolve_aggregates(names, aggregates) == resolve_aggregates(names, aggregates.take(k)),
    decreases aggregates.len(),
{
    if k == aggregates.len() {
        assert(aggregates.take(k) =~= aggregates);
    } else {
        let front = aggregates.drop_last();
        assert(front.take(k) =~= aggregates.take(k));
        lemma_resolve_aggregates_prefix(names, front, k);
    }
}

// ---- the dataset ----------------------------------------------------------------------------

/// A columnar dataset: a non-empty list of named columns of type `T`, and rows of cells `V`, each
/// with one cell per column, kept in append order across ordered segments.
#[derive(Debug)]
pub struct ColumnarSet<T, V> {
    columns: Vec<(String, T)>,
    layout: SegmentedRows<Vec<V>>,
}

impl<T, V> ColumnarSet<T, V> {
    /// There is at least one column and every row has one cell per column.
    #[verifier::type_invariant]
    spec fn schema_ok(&self) -> bool {
        &&& self.columns@.len() > 0
        &&& forall|i: int|
            0 <= i < self.layout.scan_view().len() ==> (#[trigger] self.layout.scan_view()[i])@.len()
                == self.columns@.len()
    }

    /// The columns, in order.
    pub closed spec fn columns_view(&self) -> Seq<(String, T)> {
        self.columns@
    }

    /// The column names, in order.
    pub open spec fn names(&self) -> Seq<Seq<char>> {
        Seq::new(self.columns_view().len(), |i: int| self.columns_view()[i].0@)
    }

    /// The rows of each segment, in order.
    pub closed spec fn segments_view(&self) -> Seq<Seq<Vec<V>>> {
        self.layout.segments_view()
    }

    /// The configured rows-per-segment target.
    pub closed spec fn target_view(&self) -> nat {
        self.layout.target_view()
    }

    /// Every row, in append order across the segments.
    pub open spec fn scan_view(&self) -> Seq<Vec<V>> {
        self.segments_view().flatten()
    }

    /// A new dataset over `columns`, rolling to a new segment every `target_segment_rows` rows
    /// (0 selects the default). `InvalidArgument` if `columns` is empty.
    pub fn new(columns: Vec<(String, T)>, target_segment_rows: usize) -> (r: Result<ColumnarSet<T, V>, LoomError>)
        ensures
            columns@.len() == 0 ==> (r matches Err(e) && e.code == Code::InvalidArgument && e.message@
                == "columnar dataset has no columns"@),
            columns@.len() > 0 ==> (r matches Ok(s) && s.columns_view() == columns@ && s.segments_view()
                == Seq::<Seq<Vec<V>>>::empty() && s.target_view() == effective_target(target_segment_rows)),
            columns@.len() > 0 && target_segment_rows > 0 ==> (r matches Ok(s) && s.target_view()
                == target_segment_rows),
            columns@.len() > 0 && target_segment_rows == 0 ==> (r matches Ok(s) && s.target_view()
                == crate::segments::DEFAULT_TARGET_SEGMENT_ROWS),
    {
        if columns.len() == 0 {
            return Err(LoomError::invalid("columnar dataset has no columns"));
        }
        let layout = SegmentedRows::new(target_segment_rows);
        assert(layout.scan_view() =~= Seq::<Vec<V>>::empty());
        Ok(ColumnarSet { columns, layout })
    }

    /// The column `(name, type)` list.
    pub fn columns(&self) -> (r: &Vec<(String, T)>)
        ensures
            r@ == self.columns_view(),
    {
        &self.columns
    }

    /// Total row count across all segments.
    pub fn rows(&self) -> (r: usize)
        ensures
            r == self.scan_view().len(),
    {
        self.layout.rows()
    }

    /// Whether the dataset has no rows.
    pub fn is_empty(&self) -> (r: bool)
        ensures
            r == (self.scan_view().len() == 0),
    {
        self.layout.is_empty()
    }

    /// Number of segments.
    pub fn segment_count(&self) -> (r: usize)
        ensures
            r == self.segments_view().len(),
    {
        self.layout.segment_count()
    }

    /// The configured target rows-per-segment.
    pub fn target_segment_rows(&self) -> (r: usize)
        ensures
            r == self.target_view(),
            r > 0,
    {
        self.layout.target_segment_rows()
    }

    /// The segments, in order; each is a batch of rows.
    pub fn segments(&self) -> (r: &Vec<Vec<Vec<V>>>)
        ensures
            segment_views(r@) == self.segments_view(),
    {
        self.layout.segments()
    }

    /// All rows in append order across the segments: the scan path.
    pub fn scan(&self) -> (r: Vec<&Vec<V>>)
        ensures
            r@.len() == self.scan_view().len(),
            forall|i: int| 0 <= i < r@.len() ==> *r@[i] == self.scan_view()[i],
    {
        let segments = self.layout.segments();
        let ghost sv = segment_views(segments@);
        let mut out: Vec<&Vec<V>> = Vec::new();
        let mut i: usize = 0;
        while i < segments.len()
            invariant
                sv == segment_views(segments@),
                sv == self.segments_view(),
                i <= sv.len(),
                out@.len() == sv.take(i as int).flatten().len(),
                forall|k: int| 0 <= k < out@.len() ==> *out@[k] == sv.take(i as int).flatten()[k],
            decreases sv.len() - i,
        {
            let seg = &segments[i];
            let ghost before = sv.take(i as int).flatten();
            proof {
                assert(sv.take(i + 1) =~= sv.take(i as int).push(sv[i as int]));
                assert(sv[i as int] == seg@);
                assert(sv.take(i + 1).flatten() == before + seg@);
            }
            let mut j: usize = 0;
            while j < seg.len()
                invariant
                    out@.len() == before.len() + j,
                    j <= seg@.len(),
                    forall|k: int| 0 <= k < out@.len() ==> *out@[k] == (before + seg@)[k],
                decreases seg@.len() - j,
            {
                out.push(&seg[j]);
                j = j + 1;
            }
            i = i + 1;
        }
        assert(sv.take(i as int) =~= sv);
        out
    }

    /// Where each segment sits: its ordinal, the index of its first row, and its row count.
    pub fn segment_ranges(&self) -> (r: Vec<SegmentRange>)
        ensures
            r@.len() == self.segments_view().len(),
            forall|i: int|
                0 <= i < r@.len() ==> (#[trigger] r@[i]).ordinal == i && r@[i].row_start
                    == self.segments_view().take(i).flatten().len() && r@[i].row_count
                    == self.segments_view()[i].len(),
    {
        self.layout.segment_ranges()
    }

    /// The arity check a row must pass before it is appended: one value per column
    /// (`InvalidArgument` naming both counts otherwise).
    pub fn check_arity(&self, values: usize) -> (r: Result<(), LoomError>)
        ensures
            values == self.columns_view().len() ==> r is Ok,
            values != self.columns_view().len() ==> (r matches Err(e) && e.code == Code::InvalidArgument
                && e.message@ == arity_message(values as nat, self.columns_view().len())),
    {
        let n = self.columns.len();
        if values == n {
            return Ok(());
        }
        let message = String::from_str("row has ").concat(decimal(values as u64).as_str()).concat(
            " values, dataset has ",
        ).concat(decimal(n as u64).as_str()).concat(" columns");
        Err(LoomError::new(Code::InvalidArgument, message))
    }

    /// Append a row of one cell per column, rolling to a fresh segment when the open one has
    /// reached the target size. The row becomes the last one of the scan.
    pub fn push_row(&mut self, row: Vec<V>)
        requires
            row@.len() == old(self).columns_view().len(),
            old(self).scan_view().len() < usize::MAX,
        ensures
            final(self).columns_view() == old(self).columns_view(),
            final(self).target_view() == old(self).target_view(),
            final(self).segments_view() == rolled(old(self).segments_view(), row, old(self).target_view()),
            final(self).scan_view() == old(self).scan_view().push(row),
    {
        proof {
            use_type_invariant(&*self);
        }
        let ghost before = self.layout.scan_view();
        let ghost n = self.columns@.len();
        let mut layout = SegmentedRows::new(1);
        std::mem::swap(&mut layout, &mut self.layout);
        proof {
            assert(layout.scan_view() == before);
        }
        layout.push(row);
        proof {
            assert forall|i: int| 0 <= i < layout.scan_view().len() implies (#[trigger] layout.scan_view()[i])@.len()
                == n by {
                if i < before.len() {
                    assert(layout.scan_view()[i] == before[i]);
                }
            }
        }
        self.layout = layout;
    }

    /// Append a row after the arity check: `InvalidArgument` naming both counts, with the
    /// dataset unchanged, when the row does not hold one cell per column; otherwise the row is
    /// appended as `push_row` appends it.
    pub fn try_push_row(&mut self, row: Vec<V>) -> (r: Result<(), LoomError>)
        requires
            old(self).scan_view().len() < usize::MAX,
        ensures
            row@.len() != old(self).columns_view().len() ==> (r matches Err(e) && e.code
                == Code::InvalidArgument && e.message@ == arity_message(
                row@.len(),
                old(self).columns_view().len(),
            ) && *final(self) == *old(self)),
            row@.len() == old(self).columns_view().len() ==> (r is Ok && final(self).columns_view()
                == old(self).columns_view() && final(self).target_view() == old(self).target_view()
                && final(self).segments_view() == rolled(old(self).segments_view(), row, old(self).target_view())
                && final(self).scan_view() == old(self).scan_view().push(row)),
    {
        self.check_arity(row.len())?;
        self.push_row(row);
        Ok(())
    }

    /// Append a row after its checks, in order: one value per column (as `try_push_row`), then
    /// each cell against its column's type. `fits[i]` says whether cell `i` is a value of
    /// column `i`'s type, by the cell type's own rule, and `type_names[i]` is the name of that
    /// type as a failure shows it. The first cell that does not fit fails with
    /// `InvalidArgument` "column <name, quoted> expects <type name>", the dataset unchanged;
    /// a row that passes is appended as `push_row` appends it.
    pub fn append_row(&mut self, row: Vec<V>, fits: &[bool], type_names: &[String]) -> (r: Result<(), LoomError>)
        requires
            old(self).scan_view().len() < usize::MAX,
            fits@.len() == row@.len(),
            type_names@.len() == old(self).columns_view().len(),
        ensures
            row@.len() != old(self).columns_view().len() ==> (r matches Err(e) && e.code
                == Code::InvalidArgument && e.message@ == arity_message(
                row@.len(),
                old(self).columns_view().len(),
            ) && *final(self) == *old(self)),
            row@.len() == old(self).columns_view().len() && first_unfit(fits@) is Some ==> (r matches Err(e)
                && e.code == Code::InvalidArgument && e.message@ == type_message(
                old(self).columns_view()[first_unfit(fits@)->0].0@,
                type_names@[first_unfit(fits@)->0]@,
            ) && *final(self) == *old(self)),
            row@.len() == old(self).columns_view().len() && (exists|j: int| 0 <= j < fits@.len() && !fits@[j])
                ==> (r matches Err(e) && exists|k: int|
                0 <= k < fits@.len() && !fits@[k] && (forall|j: int| 0 <= j < k ==> fits@[j]) && e.message@
                    == type_message(old(self).columns_view()[k].0@, type_names@[k]@)),
            row@.len() == old(self).columns_view().len() && (forall|j: int| 0 <= j < fits@.len() ==> fits@[j])
                ==> (r is Ok && final(self).scan_view() == old(self).scan_view().push(row)),
            row@.len() == old(self).columns_view().len() && first_unfit(fits@) is None ==> (r is Ok
                && final(self).columns_view() == old(self).columns_view() && final(self).target_view()
                == old(self).target_view() && final(self).segments_view() == rolled(
                old(self).segments_view(),
                row,
                old(self).target_view(),
            ) && final(self).scan_view() == old(self).scan_view().push(row)),
    {
        proof {
            law_first_unfit_is_the_first_cell_that_does_not_fit(fits@);
        }
        self.check_arity(row.len())?;
        let mut i: usize = 0;
        assert(fits@.skip(0) =~= fits@);
        while i < fits.len()
            invariant
                i <= fits@.len(),
                fits@.len() == self.columns@.len(),
                row@.len() == self.columns@.len(),
                type_names@.len() == self.columns@.len(),
                *self == *old(self),
                match first_unfit(fits@.skip(i as int)) {
                    Some(k) => first_unfit(fits@) == Some(k + i),
                    None => first_unfit(fits@) is None,
                },
                first_unfit(fits@) matches Some(k) ==> 0 <= k < fits@.len() && !fits@[k] && forall|j: int|
                    0 <= j < k ==> fits@[j],
            decreases fits@.len() - i,
        {
            proof {
                assert(fits@.skip(i as int).drop_first() =~= fits@.skip(i + 1));
            }
            if !fits[i] {
                proof {
                    assert(first_unfit(fits@.skip(i as int)) == Some(0int));
                    assert(first_unfit(fits@) == Some(i as int));
                }
                let name = debug_text(self.columns[i].0.as_str());
                let message = String::from_str("column ").concat(name.as_str()).concat(" expects ").concat(
                    type_names[i].as_str(),
                );
                return Err(LoomError::new(Code::InvalidArgument, message));
            }
            i = i + 1;
        }
        assert(fits@.skip(i as int) =~= Seq::<bool>::empty());
        self.push_row(row);
        Ok(())
    }

    /// Merge the segments into target-sized ones: every row in order, re-chunked at the target.
    pub fn compact(&mut self)
        ensures
            final(self).columns_view() == old(self).columns_view(),
            final(self).target_view() == old(self).target_view(),
            final(self).target_view() > 0,
            final(self).segments_view() == crate::client::chunks_of(old(self).scan_view(), old(self).target_view()),
            final(self).scan_view() == old(self).scan_view(),
    {
        proof {
            use_type_invariant(&*self);
        }
        let ghost before = self.layout.scan_view();
        let ghost n = self.columns@.len();
        let mut layout = SegmentedRows::new(1);
        std::mem::swap(&mut layout, &mut self.layout);
        layout.compact();
        proof {
            assert forall|i: int| 0 <= i < layout.scan_view().len() implies (#[trigger] layout.scan_view()[i])@.len()
                == n by {
                assert(layout.scan_view()[i] == before[i]);
            }
        }
        self.layout = layout;
    }

    /// The position of the column named `name`; `InvalidArgument` ("unknown column" and the
    /// name's debug text) when no column carries it.
    pub fn column_index(&self, name: &str) -> (r: Result<usize, LoomError>)
        ensures
            match resolve_column(self.names(), name@) {
                Ok(i) => r matches Ok(k) && k as int == i,
                Err(m) => r matches Err(e) && e.code == Code::InvalidArgument && e.message@ == m,
            },
            r matches Ok(k) ==> first_named(self.names(), name@, k as int),
            r is Err <==> forall|j: int| 0 <= j < self.names().len() ==> self.names()[j] != name@,
    {
        proof {
            law_name_resolves_to_its_first_column(self.names(), name@);
        }
        let ghost names = self.names();
        let mut i: usize = 0;
        while i < self.columns.len()
            invariant
                names == self.names(),
                names.len() == self.columns@.len(),
                i <= names.len(),
                first_position(names.take(i as int), name@) is None,
            decreases names.len() - i,
        {
            proof {
                assert(names.take(i + 1).drop_last() =~= names.take(i as int));
                assert(names.take(i + 1).last() == self.columns@[i as int].0@);
            }
            if str_equals(self.columns[i].0.as_str(), name) {
                proof {
                    lemma_first_position_prefix(names, name@, i as int);
                    law_name_resolves_to_its_first_column(names, name@);
                }
                return Ok(i);
            }
            i = i + 1;
        }
        assert(names.take(i as int) =~= names);
        let message = String::from_str("unknown column ").concat(debug_text(name).as_str());
        Err(LoomError::new(Code::InvalidArgument, message))
    }

    /// The positions of the projected columns, in the requested order, and of the filter column
    /// when there is one; the first unknown name, projection first, is `InvalidArgument`.
    pub fn select_indexes(&self, columns: &[&str], filter: Option<&str>) -> (r: Result<
        (Vec<usize>, Option<usize>),
        LoomError,
    >)
        ensures
            match resolve_columns(self.names(), str_views(columns@)) {
                Err(m) => r matches Err(e) && e.code == Code::InvalidArgument && e.message@ == m,
                Ok(idx) => match resolve_filter(self.names(), optional_str_chars(filter)) {
                    Err(m) => r matches Err(e) && e.code == Code::InvalidArgument && e.message@ == m,
                    Ok(f) => r matches Ok((p, g)) && positions(p@) == idx && optional_position(g) == f,
                },
            },
            r matches Ok((p, g)) ==> p@.len() == columns@.len() && (forall|i: int|
                0 <= i < columns@.len() ==> first_named(self.names(), #[trigger] columns@[i]@, p@[i] as int))
                && (filter matches Some(name) ==> g matches Some(k) && first_named(self.names(), name@, k as int))
                && (filter is None ==> g is None),
    {
        proof {
            law_names_resolve_to_their_first_columns(self.names(), str_views(columns@));
            if let Some(name) = filter {
                law_name_resolves_to_its_first_column(self.names(), name@);
            }
        }
        let ghost names = self.names();
        let ghost wanted = str_views(columns@);
        let mut out: Vec<usize> = Vec::new();
        let mut i: usize = 0;
        assert(wanted.take(0) =~= Seq::<Seq<char>>::empty());
        assert(positions(out@) =~= Seq::<int>::empty());
        while i < columns.len()
            invariant
                names == self.names(),
                wanted == str_views(columns@),
                i <= columns@.len(),
                resolve_columns(names, wanted.take(i as int)) == Ok::<Seq<int>, Seq<char>>(positions(out@)),
            decreases columns@.len() - i,
        {
            proof {
                assert(wanted.take(i + 1).drop_last() =~= wanted.take(i as int));
                assert(wanted.take(i + 1).last() == columns@[i as int]@);
            }
            let ghost before = out@;
            proof {
                lemma_first_position_bounds(names, columns@[i as int]@);
            }
            let idx = match self.column_index(columns[i]) {
                Ok(idx) => idx,
                Err(e) => {
                    proof {
                        lemma_resolve_columns_prefix(names, wanted, i + 1);
                    }
                    return Err(e);
                },
            };
            out.push(idx);
            proof {
                assert(positions(out@) =~= positions(before).push(idx as int));
            }
            i = i + 1;
        }
        assert(wanted.take(i as int) =~= wanted);
        let f = match filter {
            Some(name) => {
                proof {
                    lemma_first_position_bounds(names, name@);
                }
                Some(self.column_index(name)?)
            },
            None => None,
        };
        proof {
            assert forall|i: int| 0 <= i < columns@.len() implies first_named(
                self.names(),
                #[trigger] columns@[i]@,
                out@[i] as int,
            ) by {
                assert(wanted[i] == columns@[i]@);
                assert(positions(out@)[i] == out@[i] as int);
            }
        }
        Ok((out, f))
    }

    /// The position of the filter column when there is one, then the position each aggregate
    /// reads (none for `Count`); the first failure, filter first, is `InvalidArgument`.
    pub fn aggregate_indexes(&self, aggregates: &[ColumnarAggregate], filter: Option<&str>) -> (r: Result<
        (Option<usize>, Vec<Option<usize>>),
        LoomError,
    >)
        ensures
            match resolve_filter(self.names(), optional_str_chars(filter)) {
                Err(m) => r matches Err(e) && e.code == Code::InvalidArgument && e.message@ == m,
                Ok(f) => match resolve_aggregates(self.names(), aggregates@) {
                    Err(m) => r matches Err(e) && e.code == Code::InvalidArgument && e.message@ == m,
                    Ok(idx) => r matches Ok((g, p)) && optional_position(g) == f && optional_positions(p@)
                        == idx,
                },
            },
            r matches Ok((g, p)) ==> p@.len() == aggregates@.len() && forall|i: int|
                0 <= i < aggregates@.len() ==> reads_named_column(
                    self.names(),
                    #[trigger] aggregates@[i],
                    optional_position(p@[i]),
                ),
            r matches Ok((g, p)) ==> (filter matches Some(name) ==> g matches Some(k) && first_named(
                self.names(),
                name@,
                k as int,
            )) && (filter is None ==> g is None),
    {
        proof {
            law_aggregates_read_their_named_columns(self.names(), aggregates@);
            if let Some(name) = filter {
                law_name_resolves_to_its_first_column(self.names(), name@);
            }
        }
        let ghost names = self.names();
        let f = match filter {
            Some(name) => {
                proof {
                    lemma_first_position_bounds(names, name@);
                }
                Some(self.column_index(name)?)
            },
            None => None,
        };
        let mut out: Vec<Option<usize>> = Vec::new();
        let mut i: usize = 0;
        assert(aggregates@.take(0) =~= Seq::<ColumnarAggregate>::empty());
        assert(optional_positions(out@) =~= Seq::<Option<int>>::empty());
        while i < aggregates.len()
            invariant
                names == self.names(),
                resolve_filter(names, optional_str_chars(filter)) == Ok::<Option<int>, Seq<char>>(
                    optional_position(f),
                ),
                i <= aggregates@.len(),
                resolve_aggregates(names, aggregates@.take(i as int)) == Ok::<Seq<Option<int>>, Seq<char>>(
                    optional_positions(out@),
                ),
            decreases aggregates@.len() - i,
        {
            proof {
                assert(aggregates@.take(i + 1).drop_last() =~= aggregates@.take(i as int));
                assert(aggregates@.take(i + 1).last() == aggregates@[i as int]);
            }
            let ghost before = out@;
            let a = &aggregates[i];
            let idx = match a.required_column() {
                Err(e) => {
                    proof {
                        assert(resolve_aggregate(names, a.op, optional_chars(a.column)) == Err::<Option<int>, Seq<char>>(
                            e.message@,
                        ));
                        assert(resolve_aggregates(names, aggregates@.take(i + 1)) == Err::<Seq<Option<int>>, Seq<char>>(
                            e.message@,
                        ));
                        lemma_resolve_aggregates_prefix(names, aggregates@, i + 1);
                    }
                    return Err(e);
                },
                Ok(None) => None,
                Ok(Some(c)) => match {
                    proof {
                        lemma_first_position_bounds(names, c@);
                    }
                    self.column_index(c)
                } {
                    Ok(k) => Some(k),
                    Err(e) => {
                        proof {
                            assert(optional_chars(a.column) == Some(c@));
                            assert(resolve_aggregate(names, a.op, optional_chars(a.column)) == Err::<Option<int>, Seq<char>>(
                                e.message@,
                            ));
                            assert(resolve_aggregates(names, aggregates@.take(i + 1)) == Err::<Seq<Option<int>>, Seq<char>>(
                                e.message@,
                            ));
                            lemma_resolve_aggregates_prefix(names, aggregates@, i + 1);
                        }
                        return Err(e);
                    },
                },
            };
            out.push(idx);
            proof {
                assert(optional_positions(out@) =~= optional_positions(before).push(optional_position(idx)));
            }
            i = i + 1;
        }
        assert(aggregates@.take(i as int) =~= aggregates@);
        Ok((f, out))
    }
}

/// The first position in a prefix that ends at a match is that prefix's last position when no
/// earlier position matches.
proof fn lemma_first_position_prefix(names: Seq<Seq<char>>, name: Seq<char>, i: int)
    requires
        0 <= i < names.len(),
        names[i] == name,
        first_position(names.take(i), name) is None,
    ensures
        first_position(names, name) == Some(i),
{
    lemma_first_position_bounds(names.take(i), name);
    lemma_first_position_bounds(names, name);
    if let Some(j) = first_position(names, name) {
        if j > i {
            assert(names[i] == name);
        } else if j < i {
            assert(names.take(i)[j] == names[j]);
        }
    }
}

} // verus!
