//! Reading stops exactly where a value ends: a value read from the front of some bytes is read
//! the same from any bytes that begin with the ones it spans, and any shorter beginning of
//! them runs out of input.

use vstd::prelude::*;
use crate::canonical::{
    lemma_parse_value_canonical, lemma_parse_value_is_canonical, lemma_parse_value_well_formed,
};
use crate::identity::{lemma_canonical_reads_back, lemma_reads_back_at};
use crate::spec::{parse_arg, parse_entry, parse_items, parse_pairs, parse_value};
use crate::value::{CborValue, CodecError, MAX_DEPTH};

verus! {

broadcast use {vstd::seq::group_seq_axioms, vstd::seq_lib::group_seq_properties};

/// `y` is a beginning of `x`.
pub open spec fn is_prefix(y: Seq<u8>, x: Seq<u8>) -> bool {
    y.len() <= x.len() && y == x.take(y.len() as int)
}

/// An argument read from `x` reads the same from any beginning of `x` that holds its bytes, and
/// runs out of input on any shorter beginning.
proof fn lemma_parse_arg_prefix(ai: u8, x: Seq<u8>, y: Seq<u8>)
    requires
        parse_arg(ai, x) is Ok,
        is_prefix(y, x),
    ensures
        y.len() < parse_arg(ai, x)->Ok_0.1 ==> parse_arg(ai, y) == Err::<(u64, nat), CodecError>(
            CodecError::UnexpectedEof,
        ),
        y.len() >= parse_arg(ai, x)->Ok_0.1 ==> parse_arg(ai, y) == parse_arg(ai, x),
{
    assert forall|i: int| 0 <= i < y.len() implies y[i] == x[i] by {
        assert(y[i] == x.take(y.len() as int)[i]);
    }
}

/// A value read from `x` reads the same from any bytes that begin with the ones it spans.
pub proof fn lemma_parse_value_agrees(x: Seq<u8>, y: Seq<u8>, depth: int)
    requires
        parse_value(x, depth) is Ok,
        y.len() >= parse_value(x, depth)->Ok_0.1,
        y.take(parse_value(x, depth)->Ok_0.1 as int) == x.take(parse_value(x, depth)->Ok_0.1 as int),
    ensures
        parse_value(y, depth) == parse_value(x, depth),
{
    let (v, k) = parse_value(x, depth)->Ok_0;
    lemma_parse_value_canonical(x, depth);
    lemma_parse_value_well_formed(x, depth);
    lemma_parse_value_is_canonical(x, depth);
    lemma_canonical_reads_back(v, depth);
    let b = x.take(k as int);
    lemma_reads_back_at(b, v, depth, y.skip(k as int));
    assert(b + y.skip(k as int) =~= y);
}

/// Any beginning of `x` shorter than a value read from `x` runs out of input.
#[verifier::rlimit(60)]
pub proof fn lemma_parse_value_prefix(x: Seq<u8>, t: Seq<u8>, depth: int)
    requires
        parse_value(x, depth) is Ok,
        is_prefix(t, x),
        t.len() < parse_value(x, depth)->Ok_0.1,
    ensures
        parse_value(t, depth) == Err::<(CborValue, nat), CodecError>(CodecError::UnexpectedEof),
    decreases MAX_DEPTH + 1 - depth, 0int,
{
    reveal(parse_value);
    if t.len() > 0 {
        assert(t[0] == x[0]);
        let ai = x[0] % 32;
        let major = x[0] / 32;
        let rx = x.drop_first();
        let rt = t.drop_first();
        assert(rt =~= rx.take(rt.len() as int));
        if major <= 5 {
            lemma_parse_arg_prefix(ai, rx, rt);
            let (n, ka) = parse_arg(ai, rx)->Ok_0;
            if major == 4 && rt.len() >= ka {
                let bx = x.skip((1 + ka) as int);
                let bt = t.skip((1 + ka) as int);
                assert(bt =~= bx.take(bt.len() as int));
                lemma_parse_items_prefix(bx, bt, depth + 1, n as nat);
            } else if major == 5 && rt.len() >= ka {
                let bx = x.skip((1 + ka) as int);
                let bt = t.skip((1 + ka) as int);
                assert(bt =~= bx.take(bt.len() as int));
                lemma_parse_pairs_prefix(bx, bt, depth + 1, n as nat, None);
            }
        }
    }
}

/// Any beginning of `x` shorter than `n` items read from `x` runs out of input.
pub proof fn lemma_parse_items_prefix(x: Seq<u8>, t: Seq<u8>, depth: int, n: nat)
    requires
        parse_items(x, depth, n) is Ok,
        is_prefix(t, x),
        t.len() < parse_items(x, depth, n)->Ok_0.1,
    ensures
        parse_items(t, depth, n) == Err::<(Seq<CborValue>, nat), CodecError>(CodecError::UnexpectedEof),
    decreases MAX_DEPTH + 1 - depth, n + 1,
{
    reveal(parse_value);
    if n > 0 {
        let (v0, k0) = parse_value(x, depth)->Ok_0;
        if t.len() < k0 {
            lemma_parse_value_prefix(x, t, depth);
        } else {
            assert(t.take(k0 as int) =~= x.take(k0 as int));
            lemma_parse_value_agrees(x, t, depth);
            let xs = x.skip(k0 as int);
            let ts = t.skip(k0 as int);
            assert(ts =~= xs.take(ts.len() as int));
            lemma_parse_items_prefix(xs, ts, depth, (n - 1) as nat);
        }
    }
}

/// Any beginning of `x` shorter than `n` entries read from `x` runs out of input.
#[verifier::rlimit(40)]
pub proof fn lemma_parse_pairs_prefix(x: Seq<u8>, t: Seq<u8>, depth: int, n: nat, prev: Option<Seq<u8>>)
    requires
        parse_pairs(x, depth, n, prev) is Ok,
        is_prefix(t, x),
        t.len() < parse_pairs(x, depth, n, prev)->Ok_0.1,
    ensures
        parse_pairs(t, depth, n, prev) == Err::<(Seq<(CborValue, CborValue)>, nat), CodecError>(
            CodecError::UnexpectedEof,
        ),
    decreases MAX_DEPTH + 1 - depth, n + 1,
{
    reveal(parse_value);
    if n > 0 {
        let (key, val, kk, tt) = parse_entry(x, depth, prev)->Ok_0;
        if t.len() < kk {
            lemma_parse_value_prefix(x, t, depth);
        } else {
            assert(t.take(kk as int) =~= x.take(kk as int));
            lemma_parse_value_agrees(x, t, depth);
            let ax = x.skip(kk as int);
            let at = t.skip(kk as int);
            assert(at =~= ax.take(at.len() as int));
            if t.len() < tt {
                lemma_parse_value_prefix(ax, at, depth);
            } else {
                assert(at.take((tt - kk) as int) =~= ax.take((tt - kk) as int));
                lemma_parse_value_agrees(ax, at, depth);
                assert(parse_entry(t, depth, prev) == parse_entry(x, depth, prev));
                let xs = x.skip(tt as int);
                let ts = t.skip(tt as int);
                assert(ts =~= xs.take(ts.len() as int));
                lemma_parse_pairs_prefix(xs, ts, depth, (n - 1) as nat, Some(x.take(kk as int)));
            }
        }
    }
}

} // verus!
