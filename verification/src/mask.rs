//! The causal mask of attention.
//!
//! A query of `seq_len` new tokens attends to `att_len` positions, of
//! which the last `seq_len` are its own. Row `q` of the query stands at
//! position `att_len - seq_len + q` and sees the positions up to its own;
//! the positions behind it are masked.

use vstd::prelude::*;

verus! {

/// The first position that is masked for row `q`.
pub open spec fn mask_begin(att_len: int, seq_len: int, q: int) -> int {
    att_len - seq_len + q + 1
}

/// Whether row `q` attends to position `k`.
pub open spec fn visible(att_len: int, seq_len: int, q: int, k: int) -> bool {
    0 <= k < mask_begin(att_len, seq_len, q)
}

/// The range of positions that are masked for row `q` of a query.
pub fn masked_range(att_len: usize, seq_len: usize, q: usize) -> (range: (usize, usize))
    requires
        q < seq_len <= att_len,
    ensures
        range.0 == mask_begin(att_len as int, seq_len as int, q as int),
        range.1 == att_len,
        1 <= range.0 <= range.1,
        forall|k: int|
            0 <= k < att_len ==> (range.0 <= k < range.1 <==> !visible(
                att_len as int,
                seq_len as int,
                q as int,
                k,
            )),
{
    (att_len - seq_len + q + 1, att_len)
}

/// A row sees exactly the positions up to its own.
pub proof fn lemma_sees_up_to_itself(att_len: int, seq_len: int, q: int, k: int)
    requires
        0 <= q < seq_len <= att_len,
        0 <= k < att_len,
    ensures
        visible(att_len, seq_len, q, k) <==> k <= att_len - seq_len + q,
{
}

/// The mask is causal: a row does not see the position of any later row of
/// its query, so what a later token holds cannot reach an earlier row.
pub proof fn lemma_causal(att_len: int, seq_len: int, earlier: int, later: int)
    requires
        0 <= earlier < later < seq_len <= att_len,
    ensures
        !visible(att_len, seq_len, earlier, att_len - seq_len + later),
        visible(att_len, seq_len, later, att_len - seq_len + earlier),
{
}

/// A query that attends to one position sees that position alone: its one
/// row weighs the sole value fully.
pub proof fn lemma_single_position(seq_len: int, q: int)
    requires
        0 <= q < seq_len <= 1,
    ensures
        forall|k: int| #[trigger] visible(1, seq_len, q, k) <==> k == 0,
{
}

} // verus!
