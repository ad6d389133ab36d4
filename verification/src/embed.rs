//! Looking tokens up in the embedding table.

use crate::rows::{copy_bytes, fitting_product, lemma_row_bounds, lemma_row_eq, row};
use crate::transformer::Transformer;
use vstd::arithmetic::mul::lemma_mul_inequality;
use vstd::prelude::*;

verus! {

/// Copies the rows `ids` of `table` into a buffer of their own, in order.
/// `None` if the buffer's size cannot be computed.
pub fn gather(table: &Vec<u8>, row_len: usize, ids: &Vec<u32>) -> (out: Option<Vec<u8>>)
    requires
        forall|i: int| 0 <= i < ids@.len() ==> ((#[trigger] ids@[i]) + 1) * row_len <= table@.len(),
    ensures
        out is Some <==> ids@.len() * row_len <= usize::MAX,
        out matches Some(rows) ==> {
            &&& rows@.len() == ids@.len() * row_len
            &&& forall|i: int|
                0 <= i < ids@.len() ==> #[trigger] row(rows@, row_len as int, i) == row(
                    table@,
                    row_len as int,
                    ids@[i] as int,
                )
        },
{
    let n: usize = ids.len();
    let size: usize = match fitting_product(n, row_len) {
        Some(size) => size,
        None => {
            return None;
        },
    };
    let mut rows: Vec<u8> = vec![0u8; size];
    let table_len: usize = table.len();
    let mut i: usize = 0;
    while i < n
        invariant
            i <= n == ids@.len(),
            table_len == table@.len(),
            size == n * row_len,
            rows@.len() == size,
            forall|k: int|
                0 <= k < ids@.len() ==> ((#[trigger] ids@[k]) + 1) * row_len <= table@.len(),
            forall|k: int|
                0 <= k < i ==> #[trigger] row(rows@, row_len as int, k) == row(
                    table@,
                    row_len as int,
                    ids@[k] as int,
                ),
        decreases n - i,
    {
        let id: usize = ids[i] as usize;
        let ghost before: Seq<u8> = rows@;
        proof {
            lemma_row_bounds(row_len as int, i as int, n as int);
            lemma_row_bounds(row_len as int, id as int, id + 1);
            assert(ids@[i as int] == id);
        }
        copy_bytes(&mut rows, i * row_len, table, id * row_len, row_len);
        proof {
            lemma_row_eq(rows@, i as int, table@, id as int, row_len as int);
            assert forall|k: int| 0 <= k < i implies #[trigger] row(rows@, row_len as int, k) == row(
                table@,
                row_len as int,
                ids@[k] as int,
            ) by {
                lemma_row_bounds(row_len as int, k, i as int);
                lemma_row_eq(rows@, k, before, k, row_len as int);
                assert(row(before, row_len as int, k) == row(table@, row_len as int, ids@[k] as int));
            }
        }
        i += 1;
    }
    Some(rows)
}

impl Transformer {
    /// The embeddings of tokens: for each token its row of the embedding
    /// table, in order. `None` if the size of the result cannot be
    /// computed.
    pub fn token_embed(&self, table: &Vec<u8>, tokens: &Vec<u32>) -> (embedded: Option<Vec<u8>>)
        requires
            table@.len() == self@.voc * (self@.d * self@.elem_size),
            forall|i: int| 0 <= i < tokens@.len() ==> (#[trigger] tokens@[i]) < self@.voc,
        ensures
            embedded is Some <==> tokens@.len() * (self@.d * self@.elem_size) <= usize::MAX,
            embedded matches Some(rows) ==> {
                &&& rows@.len() == tokens@.len() * (self@.d * self@.elem_size)
                &&& forall|i: int|
                    0 <= i < tokens@.len() ==> #[trigger] row(
                        rows@,
                        self@.d * self@.elem_size,
                        i,
                    ) == row(table@, self@.d * self@.elem_size, tokens@[i] as int)
            },
    {
        let row_len: usize = self.row_bytes();
        proof {
            assert forall|i: int| 0 <= i < tokens@.len() implies ((#[trigger] tokens@[i]) + 1)
                * row_len <= table@.len() by {
                lemma_mul_inequality(tokens@[i] + 1, self@.voc as int, row_len as int);
            }
        }
        gather(table, row_len, tokens)
    }
}

} // verus!
