//! Picking the rows of a hidden state that are to be decoded.
//!
//! A pass over a batch leaves one row per token, query after query. Of each
//! query only the last `num_decode` rows are sampled from. They are gathered
//! in place into one run of rows, in order.

use crate::rows::{lemma_row_bounds, lemma_row_eq, move_bytes_down, row};
use crate::transformer::Transformer;
use vstd::arithmetic::mul::lemma_mul_inequality;
use vstd::prelude::*;

verus! {

/// What is decoded of one query.
#[derive(Clone, Copy, Debug)]
pub struct DecodingMeta {
    /// The number of rows of the query.
    pub num_query: usize,
    /// How many of them, from the end, are decoded.
    pub num_decode: usize,
}

/// No query decodes more rows than it has.
pub open spec fn decoding_ok(metas: Seq<DecodingMeta>) -> bool {
    forall|i: int| 0 <= i < metas.len() ==> (#[trigger] metas[i]).num_decode <= metas[i].num_query
}

/// The number of rows of all queries together.
pub open spec fn total_query(metas: Seq<DecodingMeta>) -> int
    decreases metas.len(),
{
    if metas.len() == 0 {
        0
    } else {
        total_query(metas.drop_last()) + metas.last().num_query
    }
}

/// The rows that are decoded, in order: of each query its last `num_decode`.
pub open spec fn decoded_rows(metas: Seq<DecodingMeta>) -> Seq<int>
    decreases metas.len(),
{
    if metas.len() == 0 {
        Seq::empty()
    } else {
        decoded_rows(metas.drop_last()) + Seq::new(
            metas.last().num_decode as nat,
            |k: int| total_query(metas) - metas.last().num_decode + k,
        )
    }
}

/// Where the gathered rows start: at the first decoded row, or behind the
/// last row if none is decoded.
pub open spec fn decode_begin(metas: Seq<DecodingMeta>) -> int
    decreases metas.len(),
{
    if metas.len() == 0 {
        0
    } else if decoded_rows(metas.drop_last()).len() > 0 {
        decode_begin(metas.drop_last())
    } else {
        total_query(metas) - metas.last().num_decode
    }
}

/// The rows of the first queries are rows of all.
pub proof fn lemma_total_query_take(metas: Seq<DecodingMeta>, i: int)
    requires
        0 <= i <= metas.len(),
    ensures
        0 <= total_query(metas.take(i)) <= total_query(metas),
        i < metas.len() ==> total_query(metas.take(i + 1)) == total_query(metas.take(i))
            + metas[i].num_query,
    decreases metas.len() - i,
{
    if i < metas.len() {
        assert(metas.take(i + 1).drop_last() == metas.take(i));
        lemma_total_query_take(metas, i + 1);
        lemma_total_query_nonnegative(metas.take(i));
    } else {
        assert(metas.take(i) == metas);
        lemma_total_query_nonnegative(metas);
    }
}

proof fn lemma_total_query_nonnegative(metas: Seq<DecodingMeta>)
    ensures
        0 <= total_query(metas),
    decreases metas.len(),
{
    if metas.len() > 0 {
        lemma_total_query_nonnegative(metas.drop_last());
    }
}

/// Every decoded row is a row of the batch, and the gathered run lies
/// within the batch at or before the rows it is taken from.
pub proof fn lemma_decoded_rows_bounds(metas: Seq<DecodingMeta>)
    requires
        decoding_ok(metas),
    ensures
        0 <= decode_begin(metas),
        decode_begin(metas) + decoded_rows(metas).len() <= total_query(metas),
        forall|k: int|
            0 <= k < decoded_rows(metas).len() ==> decode_begin(metas) + k <= (
            #[trigger] decoded_rows(metas)[k]) < total_query(metas),
    decreases metas.len(),
{
    lemma_total_query_nonnegative(metas);
    if metas.len() > 0 {
        assert(decoding_ok(metas.drop_last()));
        lemma_decoded_rows_bounds(metas.drop_last());
        lemma_total_query_nonnegative(metas.drop_last());
    }
}

/// Gathers the decoded rows of `buf`, whose rows are `row_len` bytes long,
/// into the rows from `range.0` up to `range.1`, in order. What the other
/// rows hold afterwards is not specified.
pub fn compact_rows(buf: &mut Vec<u8>, row_len: usize, decoding: &Vec<DecodingMeta>) -> (range: (
    usize,
    usize,
))
    requires
        decoding_ok(decoding@),
        total_query(decoding@) <= usize::MAX,
        total_query(decoding@) * row_len <= old(buf)@.len(),
    ensures
        final(buf)@.len() == old(buf)@.len(),
        range.0 == decode_begin(decoding@),
        range.1 == range.0 + decoded_rows(decoding@).len(),
        range.1 <= total_query(decoding@),
        forall|k: int|
            0 <= k < decoded_rows(decoding@).len() ==> row(final(buf)@, row_len as int, range.0 + k)
                == row(old(buf)@, row_len as int, #[trigger] decoded_rows(decoding@)[k]),
{
    let n: usize = decoding.len();
    let len: usize = buf.len();
    let ghost metas: Seq<DecodingMeta> = decoding@;
    let ghost total: int = total_query(metas);
    let mut i: usize = 0;
    let mut off: usize = 0;
    let mut begin: usize = 0;
    let mut dst: usize = 0;
    proof {
        assert(metas.take(0) == Seq::<DecodingMeta>::empty());
        lemma_total_query_nonnegative(metas);
    }
    while i < n
        invariant
            i <= n == metas.len(),
            metas == decoding@,
            total == total_query(metas),
            decoding_ok(metas),
            total <= usize::MAX,
            total * row_len <= len,
            buf@.len() == len == old(buf)@.len(),
            off == total_query(metas.take(i as int)),
            begin == decode_begin(metas.take(i as int)),
            dst == begin + decoded_rows(metas.take(i as int)).len(),
            dst <= off <= total,
            forall|k: int|
                0 <= k < decoded_rows(metas.take(i as int)).len() ==> row(
                    buf@,
                    row_len as int,
                    begin + k,
                ) == row(old(buf)@, row_len as int, #[trigger] decoded_rows(metas.take(i as int))[k]),
            forall|b: int| off * row_len <= b < len ==> #[trigger] buf@[b] == old(buf)@[b],
        decreases n - i,
    {
        let ghost rows_before: Seq<int> = decoded_rows(metas.take(i as int));
        let ghost rows_after: Seq<int> = decoded_rows(metas.take(i as int + 1));
        let num_query: usize = decoding[i].num_query;
        let num_decode: usize = decoding[i].num_decode;
        proof {
            lemma_total_query_take(metas, i as int);
            lemma_total_query_take(metas, i as int + 1);
            assert(metas.take(i as int + 1).drop_last() == metas.take(i as int));
            assert(metas.take(i as int + 1).last() == metas[i as int]);
        }
        let start: usize = off + (num_query - num_decode);
        if dst == begin {
            begin = start;
            dst = start;
        }
        let ghost gathered: int = rows_before.len() as int;
        let first: usize = dst;
        proof {
            lemma_mul_inequality(off as int, start as int, row_len as int);
        }
        assert(rows_after.len() == gathered + num_decode);
        assert(forall|k: int| 0 <= k < gathered ==> rows_after[k] == rows_before[k]);
        assert(forall|k: int|
            gathered <= k < gathered + num_decode ==> #[trigger] rows_after[k] == start + k
                - gathered);
        let mut k: usize = 0;
        while k < num_decode
            invariant
                k <= num_decode,
                total <= usize::MAX,
                total * row_len <= len,
                buf@.len() == len == old(buf)@.len(),
                start + num_decode <= total,
                first == begin + gathered,
                dst == first + k,
                first <= start,
                rows_after.len() == gathered + num_decode,
                forall|j: int|
                    gathered <= j < gathered + num_decode ==> #[trigger] rows_after[j] == start + j
                        - gathered,
                forall|j: int|
                    0 <= j < gathered + k ==> row(buf@, row_len as int, begin + j) == row(
                        old(buf)@,
                        row_len as int,
                        #[trigger] rows_after[j],
                    ),
                forall|b: int|
                    (start + k) * row_len <= b < len ==> #[trigger] buf@[b] == old(buf)@[b],
            decreases num_decode - k,
        {
            let ghost prev: Seq<u8> = buf@;
            proof {
                lemma_row_bounds(row_len as int, start + k, total);
                lemma_row_bounds(row_len as int, dst as int, total);
                lemma_mul_inequality(dst as int, start + k, row_len as int);
            }
            if start > first {
                move_bytes_down(buf, dst * row_len, (start + k) * row_len, row_len);
            }
            proof {
                lemma_row_eq(buf@, dst as int, old(buf)@, start + k, row_len as int);
                assert forall|j: int| 0 <= j < gathered + k implies row(
                    buf@,
                    row_len as int,
                    begin + j,
                ) == row(old(buf)@, row_len as int, #[trigger] rows_after[j]) by {
                    lemma_row_bounds(row_len as int, begin + j, dst as int);
                    lemma_row_eq(buf@, begin + j, prev, begin + j, row_len as int);
                }
                lemma_row_bounds(row_len as int, start + k, start + k + 1);
            }
            dst += 1;
            k += 1;
        }
        off += num_query;
        i += 1;
        proof {
            lemma_mul_inequality(start + num_decode, off as int, row_len as int);
        }
    }
    proof {
        assert(metas.take(i as int) == metas);
    }
    (begin, dst)
}

impl Transformer {
    /// Gathers the rows of a hidden state that are to be decoded into the
    /// rows from `range.0` up to `range.1`, in order. The logits are
    /// computed from these rows.
    pub fn decode(&self, decoding: &Vec<DecodingMeta>, hidden_state: &mut Vec<u8>) -> (range: (
        usize,
        usize,
    ))
        requires
            decoding_ok(decoding@),
            total_query(decoding@) * (self@.d * self@.elem_size) == old(hidden_state)@.len(),
        ensures
            final(hidden_state)@.len() == old(hidden_state)@.len(),
            range.0 == decode_begin(decoding@),
            range.1 == range.0 + decoded_rows(decoding@).len(),
            range.1 <= total_query(decoding@),
            forall|k: int|
                0 <= k < decoded_rows(decoding@).len() ==> row(
                    final(hidden_state)@,
                    self@.d * self@.elem_size,
                    range.0 + k,
                ) == row(
                    old(hidden_state)@,
                    self@.d * self@.elem_size,
                    #[trigger] decoded_rows(decoding@)[k],
                ),
    {
        let row_len: usize = self.row_bytes();
        let len: usize = hidden_state.len();
        proof {
            lemma_total_query_nonnegative(decoding@);
            assert(total_query(decoding@) <= len) by (nonlinear_arith)
                requires
                    total_query(decoding@) * row_len == len,
                    row_len >= 1,
                    total_query(decoding@) >= 0,
            ;
        }
        compact_rows(hidden_state, row_len, decoding)
    }
}

} // verus!
