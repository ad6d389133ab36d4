//! Byte buffers read as tables of rows of equal length, and the copies that
//! the engine makes between them.

use vstd::arithmetic::mul::{lemma_mul_inequality, lemma_mul_is_distributive_add_other_way};
use vstd::prelude::*;

verus! {

/// Row `r` of a buffer whose rows are `row_len` bytes long.
pub open spec fn row(buf: Seq<u8>, row_len: int, r: int) -> Seq<u8> {
    buf.subrange(r * row_len, r * row_len + row_len)
}

/// Rows lie one after the other: row `r` ends where row `r + 1` starts, and
/// it ends within any buffer that holds more than `r` rows.
pub proof fn lemma_row_bounds(row_len: int, r: int, rows: int)
    requires
        0 <= row_len,
        0 <= r < rows,
    ensures
        0 <= r * row_len,
        r * row_len + row_len == (r + 1) * row_len,
        (r + 1) * row_len <= rows * row_len,
{
    lemma_mul_is_distributive_add_other_way(row_len, r, 1);
    lemma_mul_inequality(r + 1, rows, row_len);
    lemma_mul_inequality(0, r, row_len);
}

/// Two buffers that agree on the bytes of a row hold the same row.
pub proof fn lemma_row_eq(a: Seq<u8>, ra: int, b: Seq<u8>, rb: int, row_len: int)
    requires
        0 <= row_len,
        0 <= ra,
        0 <= rb,
        (ra + 1) * row_len <= a.len(),
        (rb + 1) * row_len <= b.len(),
        forall|i: int|
            ra * row_len <= i < ra * row_len + row_len ==> #[trigger] a[i] == b[i - ra * row_len
                + rb * row_len],
    ensures
        row(a, row_len, ra) == row(b, row_len, rb),
{
    lemma_row_bounds(row_len, ra, ra + 1);
    lemma_row_bounds(row_len, rb, rb + 1);
    assert(row(a, row_len, ra) =~= row(b, row_len, rb));
}

/// The product of two sizes, if it fits.
pub fn fitting_product(a: usize, b: usize) -> (product: Option<usize>)
    ensures
        product is Some <==> a * b <= usize::MAX,
        product matches Some(p) ==> p == a * b,
{
    a.checked_mul(b)
}

/// The sum of two sizes, if it fits.
pub fn fitting_sum(a: usize, b: usize) -> (sum: Option<usize>)
    ensures
        sum is Some <==> a + b <= usize::MAX,
        sum matches Some(s) ==> s == a + b,
{
    a.checked_add(b)
}

/// Copies `n` bytes from `src`, starting at `src_at`, over the bytes of
/// `dst` that start at `dst_at`.
pub fn copy_bytes(dst: &mut Vec<u8>, dst_at: usize, src: &Vec<u8>, src_at: usize, n: usize)
    requires
        dst_at + n <= old(dst)@.len(),
        src_at + n <= src@.len(),
    ensures
        final(dst)@.len() == old(dst)@.len(),
        forall|b: int|
            0 <= b < old(dst)@.len() ==> #[trigger] final(dst)@[b] == (if dst_at <= b < dst_at + n {
                src@[b - dst_at + src_at]
            } else {
                old(dst)@[b]
            }),
{
    let dst_len: usize = dst.len();
    let src_len: usize = src.len();
    let mut k: usize = 0;
    while k < n
        invariant
            k <= n,
            dst@.len() == old(dst)@.len(),
            dst_at + n <= dst@.len() == dst_len,
            src_at + n <= src@.len() == src_len,
            forall|b: int|
                0 <= b < dst@.len() ==> #[trigger] dst@[b] == (if dst_at <= b < dst_at + k {
                    src@[b - dst_at + src_at]
                } else {
                    old(dst)@[b]
                }),
        decreases n - k,
    {
        let byte: u8 = src[src_at + k];
        dst.set(dst_at + k, byte);
        k += 1;
    }
}

/// Moves `n` bytes of a buffer from `src_at` down to `dst_at`. The two
/// ranges may overlap.
pub fn move_bytes_down(buf: &mut Vec<u8>, dst_at: usize, src_at: usize, n: usize)
    requires
        dst_at <= src_at,
        src_at + n <= old(buf)@.len(),
    ensures
        final(buf)@.len() == old(buf)@.len(),
        forall|b: int|
            0 <= b < old(buf)@.len() ==> #[trigger] final(buf)@[b] == (if dst_at <= b < dst_at + n {
                old(buf)@[b - dst_at + src_at]
            } else {
                old(buf)@[b]
            }),
{
    let len: usize = buf.len();
    let mut k: usize = 0;
    while k < n
        invariant
            k <= n,
            dst_at <= src_at,
            buf@.len() == old(buf)@.len(),
            src_at + n <= buf@.len() == len,
            forall|b: int|
                0 <= b < buf@.len() ==> #[trigger] buf@[b] == (if dst_at <= b < dst_at + k {
                    old(buf)@[b - dst_at + src_at]
                } else {
                    old(buf)@[b]
                }),
        decreases n - k,
    {
        let byte: u8 = buf[src_at + k];
        buf.set(dst_at + k, byte);
        k += 1;
    }
}

} // verus!
