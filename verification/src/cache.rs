//! The key/value cache of one session.
//!
//! A cache holds, for every layer, for keys and for values, and for every
//! key/value head, `max_seq_len` rows of `dh` elements. It is kept as raw
//! bytes, so the element type only shows as a size. The rows of one layer,
//! kind and head form a block; row `t` of a block belongs to position `t` of
//! the session.

use crate::rows::{copy_bytes, fitting_product, lemma_row_bounds, lemma_row_eq, row};
use vstd::arithmetic::mul::{lemma_mul_inequality, lemma_mul_is_associative};
use vstd::prelude::*;
use vstd::slice::slice_subrange;

verus! {

/// The shape and the bytes of a cache.
pub struct KvCacheView {
    pub nlayers: nat,
    pub nkvh: nat,
    pub max_seq_len: nat,
    pub dh: nat,
    pub elem_size: nat,
    pub data: Seq<u8>,
}

impl KvCacheView {
    /// The number of blocks: one per layer, kind and head.
    pub open spec fn blocks(self) -> nat {
        self.nlayers * 2 * self.nkvh
    }

    /// The length of a row in bytes.
    pub open spec fn row_len(self) -> nat {
        self.dh * self.elem_size
    }

    /// The number of the block of a layer, a kind (0 for keys, 1 for
    /// values) and a head.
    pub open spec fn block_of(self, layer: int, kind: int, head: int) -> int {
        (layer * 2 + kind) * self.nkvh + head
    }

    /// Row `t` of block `block`.
    pub open spec fn block_row(self, block: int, t: int) -> Seq<u8> {
        block_row_of(self.data, self.row_len() as int, self.max_seq_len as int, block, t)
    }

    /// The row of position `t` for a layer, a kind and a head.
    pub open spec fn kv_row(self, layer: int, kind: int, head: int, t: int) -> Seq<u8> {
        self.block_row(self.block_of(layer, kind, head), t)
    }

    /// Two caches of the same shape.
    pub open spec fn same_shape(self, other: KvCacheView) -> bool {
        &&& self.nlayers == other.nlayers
        &&& self.nkvh == other.nkvh
        &&& self.max_seq_len == other.max_seq_len
        &&& self.dh == other.dh
        &&& self.elem_size == other.elem_size
        &&& self.data.len() == other.data.len()
    }
}

/// Row `t` of block `block` in a buffer of blocks of `max_seq_len` rows.
pub open spec fn block_row_of(data: Seq<u8>, row_len: int, max_seq_len: int, block: int, t: int) -> Seq<
    u8,
> {
    row(data, row_len, block * max_seq_len + t)
}

/// In a scratch buffer of rows of `width` elements, the `dh` elements of
/// row `row` that start at column `col + c * dh`: head `c` of what the row
/// holds from column `col` on.
pub open spec fn scratch_head(
    scratch: Seq<u8>,
    width: int,
    col: int,
    dh: int,
    elem_size: int,
    row: int,
    c: int,
) -> Seq<u8> {
    scratch.subrange(
        (row * width + col + c * dh) * elem_size,
        (row * width + col + c * dh) * elem_size + dh * elem_size,
    )
}

/// A row of zero bytes.
pub open spec fn zero_row(len: nat) -> Seq<u8> {
    Seq::new(len, |i: int| 0u8)
}

/// The bytes that a cache of the given shape takes.
pub open spec fn cache_bytes(nlayers: nat, nkvh: nat, max_seq_len: nat, dh: nat, elem_size: nat) -> nat {
    nlayers * 2 * nkvh * max_seq_len * (dh * elem_size)
}

/// The key/value cache of one session.
#[derive(Debug)]
pub struct KvCache {
    nlayers: usize,
    nkvh: usize,
    max_seq_len: usize,
    dh: usize,
    elem_size: usize,
    /// `blocks * max_seq_len` rows of `dh * elem_size` bytes.
    data: Vec<u8>,
}

impl View for KvCache {
    type V = KvCacheView;

    closed spec fn view(&self) -> KvCacheView {
        KvCacheView {
            nlayers: self.nlayers as nat,
            nkvh: self.nkvh as nat,
            max_seq_len: self.max_seq_len as nat,
            dh: self.dh as nat,
            elem_size: self.elem_size as nat,
            data: self.data@,
        }
    }
}

impl KvCache {
    #[verifier::type_invariant]
    spec fn inv(&self) -> bool {
        self.data@.len() == cache_bytes(
            self.nlayers as nat,
            self.nkvh as nat,
            self.max_seq_len as nat,
            self.dh as nat,
            self.elem_size as nat,
        )
    }

    /// A cache of the given shape, all zero. `None` if its size in bytes
    /// does not fit the address space.
    pub fn new(nlayers: usize, nkvh: usize, max_seq_len: usize, dh: usize, elem_size: usize) -> (made:
        Option<KvCache>)
        ensures
            made is Some <==> cache_bytes(
                nlayers as nat,
                nkvh as nat,
                max_seq_len as nat,
                dh as nat,
                elem_size as nat,
            ) <= usize::MAX,
            made matches Some(cache) ==> {
                &&& cache@.nlayers == nlayers
                &&& cache@.nkvh == nkvh
                &&& cache@.max_seq_len == max_seq_len
                &&& cache@.dh == dh
                &&& cache@.elem_size == elem_size
                &&& cache@.data == zero_row(
                    cache_bytes(
                        nlayers as nat,
                        nkvh as nat,
                        max_seq_len as nat,
                        dh as nat,
                        elem_size as nat,
                    ),
                )
            },
    {
        let row_len: usize = match fitting_product(dh, elem_size) {
            Some(n) => n,
            None => {
                proof {
                    lemma_bytes_at_least(
                        nlayers as nat,
                        nkvh as nat,
                        max_seq_len as nat,
                        dh as nat,
                        elem_size as nat,
                    );
                }
                return Self::none_or_empty(nlayers, nkvh, max_seq_len, dh, elem_size);
            },
        };
        let len: usize = match size_of_rows(nlayers, nkvh, max_seq_len, row_len) {
            Some(n) => n,
            None => {
                return None;
            },
        };
        let data: Vec<u8> = vec![0u8; len];
        assert(data@ =~= zero_row(len as nat));
        Some(KvCache { nlayers, nkvh, max_seq_len, dh, elem_size, data })
    }

    /// A cache without rows, for a shape whose rows are too long to count
    /// but of which there are none; `None` if there are any.
    fn none_or_empty(nlayers: usize, nkvh: usize, max_seq_len: usize, dh: usize, elem_size: usize) -> (made:
        Option<KvCache>)
        requires
            dh * elem_size > usize::MAX,
        ensures
            made is Some <==> nlayers * 2 * nkvh * max_seq_len == 0,
            made matches Some(cache) ==> {
                &&& cache@.nlayers == nlayers
                &&& cache@.nkvh == nkvh
                &&& cache@.max_seq_len == max_seq_len
                &&& cache@.dh == dh
                &&& cache@.elem_size == elem_size
                &&& cache@.data == Seq::<u8>::empty()
            },
    {
        if nlayers == 0 || nkvh == 0 || max_seq_len == 0 {
            assert(nlayers * 2 * nkvh * max_seq_len == 0) by (nonlinear_arith)
                requires
                    nlayers == 0 || nkvh == 0 || max_seq_len == 0,
            ;
            assert(cache_bytes(
                nlayers as nat,
                nkvh as nat,
                max_seq_len as nat,
                dh as nat,
                elem_size as nat,
            ) == 0) by (nonlinear_arith)
                requires
                    nlayers * 2 * nkvh * max_seq_len == 0,
            ;
            Some(KvCache { nlayers, nkvh, max_seq_len, dh, elem_size, data: Vec::new() })
        } else {
            assert(nlayers * 2 * nkvh * max_seq_len != 0) by (nonlinear_arith)
                requires
                    nlayers > 0,
                    nkvh > 0,
                    max_seq_len > 0,
            ;
            None
        }
    }

    /// A copy that keeps the rows of the first `pos` positions of every
    /// block. The rows behind them are zero in the copy.
    pub fn duplicate(&self, pos: usize) -> (copy: KvCache)
        requires
            pos <= self@.max_seq_len,
        ensures
            copy@.same_shape(self@),
            forall|block: int, t: int|
                0 <= block < self@.blocks() && 0 <= t < self@.max_seq_len ==> #[trigger] copy@.block_row(
                    block,
                    t,
                ) == (if t < pos {
                    self@.block_row(block, t)
                } else {
                    zero_row(self@.row_len())
                }),
    {
        proof {
            use_type_invariant(self);
        }
        let len: usize = self.data.len();
        let mut data: Vec<u8> = vec![0u8; len];
        let ghost msl: int = self.max_seq_len as int;
        let ghost rl: int = self.dh * self.elem_size;
        let ghost nblocks: int = self.nlayers * 2 * self.nkvh;
        proof {
            lemma_mul_is_associative(nblocks, msl, rl);
        }
        if len == 0 {
            assert forall|block: int, t: int| 0 <= block < nblocks && 0 <= t < msl implies #[trigger] block_row_of(
                data@,
                rl,
                msl,
                block,
                t,
            ) == (if t < pos {
                block_row_of(self.data@, rl, msl, block, t)
            } else {
                zero_row(rl as nat)
            }) by {
                assert(rl == 0) by (nonlinear_arith)
                    requires
                        nblocks * msl * rl == 0,
                        0 <= block < nblocks,
                        0 <= t < msl,
                        0 <= rl,
                ;
                assert((block * msl + t) * rl == 0) by (nonlinear_arith)
                    requires
                        rl == 0,
                ;
                assert(block_row_of(data@, rl, msl, block, t) =~= zero_row(0));
                assert(block_row_of(self.data@, rl, msl, block, t) =~= zero_row(0));
            }
            return KvCache {
                nlayers: self.nlayers,
                nkvh: self.nkvh,
                max_seq_len: self.max_seq_len,
                dh: self.dh,
                elem_size: self.elem_size,
                data,
            };
        }
        assert(nblocks >= 1 && msl >= 1 && rl >= 1 && rl <= len && msl * rl <= len && nblocks <= len
            && nblocks * (msl * rl) == len && self.nlayers * 2 <= len) by (nonlinear_arith)
            requires
                nblocks * msl * rl == len,
                nblocks * (msl * rl) == len,
                nblocks == self.nlayers * 2 * self.nkvh,
                len > 0,
                nblocks >= 0,
                msl >= 0,
                rl >= 0,
        ;
        let row_len: usize = self.dh * self.elem_size;
        let block_len: usize = self.max_seq_len * row_len;
        let blocks: usize = self.nlayers * 2 * self.nkvh;
        assert(pos * row_len <= block_len) by (nonlinear_arith)
            requires
                pos <= self.max_seq_len,
                block_len == self.max_seq_len * row_len,
        ;
        let n: usize = pos * row_len;
        let mut b: usize = 0;
        while b < blocks
            invariant
                b <= blocks == nblocks,
                msl == self.max_seq_len,
                rl == row_len,
                1 <= rl,
                block_len == msl * rl,
                n == pos * rl,
                n <= block_len,
                pos <= msl,
                blocks * block_len == len,
                data@.len() == len == self.data@.len(),
                forall|block: int, t: int|
                    0 <= block < b && 0 <= t < msl ==> #[trigger] block_row_of(data@, rl, msl, block, t)
                        == (if t < pos {
                        block_row_of(self.data@, rl, msl, block, t)
                    } else {
                        zero_row(rl as nat)
                    }),
                forall|i: int| b * block_len <= i < len ==> #[trigger] data@[i] == 0,
            decreases blocks - b,
        {
            let ghost before: Seq<u8> = data@;
            proof {
                lemma_row_bounds(block_len as int, b as int, blocks as int);
            }
            copy_bytes(&mut data, b * block_len, &self.data, b * block_len, n);
            proof {
                assert forall|block: int, t: int| 0 <= block < b + 1 && 0 <= t < msl implies #[trigger] block_row_of(
                    data@,
                    rl,
                    msl,
                    block,
                    t,
                ) == (if t < pos {
                    block_row_of(self.data@, rl, msl, block, t)
                } else {
                    zero_row(rl as nat)
                }) by {
                    let r: int = block * msl + t;
                    lemma_block_row_range(msl, rl, block, t);
                    lemma_row_bounds(block_len as int, block, blocks as int);
                    lemma_row_bounds(rl, r, r + 1);
                    if block < b {
                        lemma_mul_inequality(block + 1, b as int, block_len as int);
                        lemma_row_eq(data@, r, before, r, rl);
                        assert(block_row_of(data@, rl, msl, block, t) == block_row_of(
                            before,
                            rl,
                            msl,
                            block,
                            t,
                        ));
                    } else if t < pos {
                        lemma_row_bounds(rl, t, pos as int);
                        lemma_row_eq(data@, r, self.data@, r, rl);
                    } else {
                        lemma_mul_inequality(pos as int, t, rl);
                        assert(block_row_of(data@, rl, msl, block, t) =~= zero_row(rl as nat));
                    }
                }
            }
            b += 1;
        }
        KvCache {
            nlayers: self.nlayers,
            nkvh: self.nkvh,
            max_seq_len: self.max_seq_len,
            dh: self.dh,
            elem_size: self.elem_size,
            data,
        }
    }

    /// Writes row `t` of block `block` with the `row_len` bytes of `src`
    /// that start at `src_at`. Every other row stays.
    pub fn store_row(&mut self, block: usize, t: usize, src: &Vec<u8>, src_at: usize)
        requires
            block < old(self)@.blocks(),
            t < old(self)@.max_seq_len,
            src_at + old(self)@.row_len() <= src@.len(),
        ensures
            final(self)@.same_shape(old(self)@),
            final(self)@.block_row(block as int, t as int) == src@.subrange(
                src_at as int,
                src_at + old(self)@.row_len(),
            ),
            forall|b: int, u: int|
                0 <= b < old(self)@.blocks() && 0 <= u < old(self)@.max_seq_len && !(b == block && u
                    == t) ==> #[trigger] final(self)@.block_row(b, u) == old(self)@.block_row(b, u),
    {
        let mut this: KvCache = KvCache::empty();
        core::mem::swap(self, &mut this);
        proof {
            use_type_invariant(&this);
        }
        let KvCache { nlayers, nkvh, max_seq_len, dh, elem_size, data } = this;
        let mut data: Vec<u8> = data;
        let len: usize = data.len();
        let src_len: usize = src.len();
        let ghost before: Seq<u8> = data@;
        let ghost msl: int = max_seq_len as int;
        let ghost rl: int = dh * elem_size;
        let ghost nblocks: int = nlayers * 2 * nkvh;
        proof {
            lemma_mul_is_associative(nblocks, msl, rl);
            lemma_block_row_range(msl, rl, block as int, t as int);
            lemma_row_bounds(msl * rl, block as int, nblocks);
            assert(0 <= block * (msl * rl)) by (nonlinear_arith)
                requires
                    0 <= block,
                    0 <= msl * rl,
            ;
        }
        proof {
            let r: int = block * msl + t;
            lemma_row_bounds(rl, r, r + 1);
            assert(rl <= (r + 1) * rl && (rl >= 1 ==> r + 1 <= (r + 1) * rl)) by (nonlinear_arith)
                requires
                    0 <= r,
                    0 <= rl,
            ;
            assert(0 <= block * msl <= r) by (nonlinear_arith)
                requires
                    r == block * msl + t,
                    0 <= block,
                    0 <= msl,
                    0 <= t,
            ;
        }
        let row_len: usize = dh * elem_size;
        if row_len > 0 {
            let at: usize = (block * max_seq_len + t) * row_len;
            copy_bytes(&mut data, at, src, src_at, row_len);
        }
        proof {
            let r: int = block * msl + t;
            assert(block_row_of(data@, rl, msl, block as int, t as int) =~= src@.subrange(
                src_at as int,
                src_at + rl,
            ));
            assert forall|b: int, u: int|
                0 <= b < nblocks && 0 <= u < msl && !(b == block && u == t) implies #[trigger] block_row_of(
                data@,
                rl,
                msl,
                b,
                u,
            ) == block_row_of(before, rl, msl, b, u) by {
                let q: int = b * msl + u;
                lemma_block_row_range(msl, rl, b, u);
                lemma_row_bounds(msl * rl, b, nblocks);
                lemma_row_bounds(rl, q, q + 1);
                assert(q != r) by (nonlinear_arith)
                    requires
                        q == b * msl + u,
                        r == block * msl + t,
                        0 <= u < msl,
                        0 <= t < msl,
                        !(b == block && u == t),
                ;
                if q < r {
                    lemma_mul_inequality(q + 1, r, rl);
                } else {
                    lemma_mul_inequality(r + 1, q, rl);
                    lemma_row_bounds(rl, r, r + 1);
                }
                lemma_row_eq(data@, q, before, q, rl);
            }
        }
        *self = KvCache { nlayers, nkvh, max_seq_len, dh, elem_size, data };
    }

    /// Writes the keys and values of one query into a layer: for each of
    /// the `2 * nkvh` blocks of the layer, keys first, and each of the
    /// query's `seq_len` tokens, the row of position `pos + j` is taken from
    /// row `row_begin + j` of the scratch buffer, where the heads stand one
    /// after the other from column `col` on. Every other row stays.
    pub fn store_span(
        &mut self,
        layer: usize,
        scratch: &Vec<u8>,
        width: usize,
        col: usize,
        row_begin: usize,
        pos: usize,
        seq_len: usize,
    )
        requires
            layer < old(self)@.nlayers,
            old(self)@.dh > 0,
            old(self)@.elem_size > 0,
            pos + seq_len <= old(self)@.max_seq_len,
            col + 2 * old(self)@.nkvh * old(self)@.dh <= width,
            (row_begin + seq_len) * width * old(self)@.elem_size <= scratch@.len(),
        ensures
            final(self)@.same_shape(old(self)@),
            forall|b: int, t: int|
                layer * 2 * old(self)@.nkvh <= b < (layer + 1) * 2 * old(self)@.nkvh && pos <= t < pos
                    + seq_len ==> #[trigger] final(self)@.block_row(b, t) == scratch_head(
                    scratch@,
                    width as int,
                    col as int,
                    old(self)@.dh as int,
                    old(self)@.elem_size as int,
                    row_begin + (t - pos),
                    b - layer * 2 * old(self)@.nkvh,
                ),
            forall|b: int, t: int|
                0 <= b < old(self)@.blocks() && 0 <= t < old(self)@.max_seq_len && !(layer * 2 * old(
                    self,
                )@.nkvh <= b < (layer + 1) * 2 * old(self)@.nkvh && pos <= t < pos + seq_len)
                    ==> #[trigger] final(self)@.block_row(b, t) == old(self)@.block_row(b, t),
    {
        proof {
            use_type_invariant(&*self);
        }
        if seq_len == 0 || self.nkvh == 0 {
            return ;
        }
        let data_len: usize = self.data.len();
        let nkvh: usize = self.nkvh;
        let dh: usize = self.dh;
        let elem_size: usize = self.elem_size;
        let scratch_len: usize = scratch.len();
        let ghost nlayers: int = self.nlayers as int;
        let ghost msl: int = self.max_seq_len as int;
        let ghost rl: int = dh * elem_size;
        let ghost nblocks: int = nlayers * 2 * nkvh;
        let ghost len: int = self.data@.len() as int;
        proof {
            assert(rl >= 1 && rl <= len && nblocks <= len && (layer + 1) * 2 * nkvh <= nblocks && 0
                <= layer * 2 <= layer * 2 * nkvh && (layer + 1) * 2 * nkvh == layer * 2 * nkvh + 2
                * nkvh) by (nonlinear_arith)
                requires
                    len == nblocks * msl * rl,
                    nblocks == nlayers * 2 * nkvh,
                    rl == dh * elem_size,
                    dh >= 1,
                    elem_size >= 1,
                    msl >= 1,
                    0 <= layer < nlayers,
                    nkvh >= 1,
            ;
            assert(2 * nkvh * dh >= 1) by (nonlinear_arith)
                requires
                    nkvh >= 1,
                    dh >= 1,
            ;
            assert(row_begin + seq_len <= (row_begin + seq_len) * width * elem_size) by (nonlinear_arith)
                requires
                    width >= 1,
                    elem_size >= 1,
            ;
        }
        let base: usize = layer * 2 * nkvh;
        let heads: usize = 2 * nkvh;
        let row_len: usize = dh * elem_size;
        let mut c: usize = 0;
        while c < heads
            invariant
                c <= heads == 2 * nkvh,
                seq_len >= 1,
                self@.same_shape(old(self)@),
                nkvh == old(self)@.nkvh,
                dh == old(self)@.dh,
                dh >= 1,
                elem_size == old(self)@.elem_size,
                elem_size >= 1,
                msl == old(self)@.max_seq_len,
                nblocks == old(self)@.blocks(),
                rl == old(self)@.row_len() == row_len,
                base == layer * 2 * nkvh,
                base + heads <= nblocks <= usize::MAX,
                pos + seq_len <= msl,
                col + 2 * nkvh * dh <= width,
                row_begin + seq_len <= scratch_len,
                (row_begin + seq_len) * width * elem_size <= scratch@.len() == scratch_len,
                forall|b: int, t: int|
                    base <= b < base + c && pos <= t < pos + seq_len ==> #[trigger] self@.block_row(
                        b,
                        t,
                    ) == scratch_head(
                        scratch@,
                        width as int,
                        col as int,
                        dh as int,
                        elem_size as int,
                        row_begin + (t - pos),
                        b - base,
                    ),
                forall|b: int, t: int|
                    0 <= b < nblocks && 0 <= t < msl && !(base <= b < base + c && pos <= t < pos
                        + seq_len) ==> #[trigger] self@.block_row(b, t) == old(self)@.block_row(b, t),
            decreases heads - c,
        {
            let mut j: usize = 0;
            while j < seq_len
                invariant
                    j <= seq_len,
                    c < heads == 2 * nkvh,
                    self@.same_shape(old(self)@),
                    nkvh == old(self)@.nkvh,
                    dh == old(self)@.dh,
                    dh >= 1,
                    elem_size == old(self)@.elem_size,
                    elem_size >= 1,
                    msl == old(self)@.max_seq_len,
                    nblocks == old(self)@.blocks(),
                    rl == old(self)@.row_len() == row_len,
                    base == layer * 2 * nkvh,
                    base + heads <= nblocks <= usize::MAX,
                    pos + seq_len <= msl,
                    col + 2 * nkvh * dh <= width,
                    row_begin + seq_len <= scratch_len,
                    (row_begin + seq_len) * width * elem_size <= scratch@.len() == scratch_len,
                    forall|b: int, t: int|
                        (base <= b < base + c && pos <= t < pos + seq_len) || (b == base + c && pos
                            <= t < pos + j) ==> #[trigger] self@.block_row(b, t) == scratch_head(
                            scratch@,
                            width as int,
                            col as int,
                            dh as int,
                            elem_size as int,
                            row_begin + (t - pos),
                            b - base,
                        ),
                    forall|b: int, t: int|
                        0 <= b < nblocks && 0 <= t < msl && !(base <= b < base + c && pos <= t < pos
                            + seq_len) && !(b == base + c && pos <= t < pos + j)
                            ==> #[trigger] self@.block_row(b, t) == old(self)@.block_row(b, t),
                decreases seq_len - j,
            {
                let ghost prev: KvCacheView = self@;
                proof {
                    lemma_scratch_head_range(
                        width as int,
                        col as int,
                        dh as int,
                        elem_size as int,
                        2 * nkvh,
                        row_begin + j,
                        row_begin + seq_len,
                        c as int,
                    );
                }
                let at: usize = ((row_begin + j) * width + col + c * dh) * elem_size;
                self.store_row(base + c, pos + j, scratch, at);
                proof {
                    assert forall|b: int, t: int|
                        (base <= b < base + c && pos <= t < pos + seq_len) || (b == base + c && pos
                            <= t < pos + j + 1) implies #[trigger] self@.block_row(b, t) == scratch_head(
                        scratch@,
                        width as int,
                        col as int,
                        dh as int,
                        elem_size as int,
                        row_begin + (t - pos),
                        b - base,
                    ) by {
                        if !(b == base + c && t == pos + j) {
                            assert(self@.block_row(b, t) == prev.block_row(b, t));
                        }
                    }
                    assert forall|b: int, t: int|
                        0 <= b < nblocks && 0 <= t < msl && !(base <= b < base + c && pos <= t < pos
                            + seq_len) && !(b == base + c && pos <= t < pos + j + 1) implies #[trigger] self@.block_row(
                        b,
                        t,
                    ) == old(self)@.block_row(b, t) by {
                        assert(self@.block_row(b, t) == prev.block_row(b, t));
                    }
                }
                j += 1;
            }
            c += 1;
        }
    }

    /// Row `t` of block `block`.
    pub fn block_row(&self, block: usize, t: usize) -> (bytes: &[u8])
        requires
            block < self@.blocks(),
            t < self@.max_seq_len,
        ensures
            bytes@ == self@.block_row(block as int, t as int),
    {
        proof {
            use_type_invariant(self);
        }
        let len: usize = self.data.len();
        let ghost msl: int = self.max_seq_len as int;
        let ghost rl: int = self.dh * self.elem_size;
        let ghost nblocks: int = self.nlayers * 2 * self.nkvh;
        let ghost r: int = block * msl + t;
        proof {
            lemma_mul_is_associative(nblocks, msl, rl);
            lemma_block_row_range(msl, rl, block as int, t as int);
            lemma_row_bounds(msl * rl, block as int, nblocks);
            lemma_row_bounds(rl, r, r + 1);
            assert(rl <= (r + 1) * rl && (rl >= 1 ==> r + 1 <= (r + 1) * rl)) by (nonlinear_arith)
                requires
                    0 <= r,
                    0 <= rl,
            ;
            assert(0 <= block * msl <= r) by (nonlinear_arith)
                requires
                    r == block * msl + t,
                    0 <= block,
                    0 <= msl,
                    0 <= t,
            ;
            assert(0 <= block * (msl * rl)) by (nonlinear_arith)
                requires
                    0 <= block,
                    0 <= msl * rl,
            ;
        }
        let row_len: usize = self.dh * self.elem_size;
        if row_len == 0 {
            assert(r * rl == 0) by (nonlinear_arith)
                requires
                    rl == 0,
            ;
            slice_subrange(self.data.as_slice(), 0, 0)
        } else {
            let at: usize = (block * self.max_seq_len + t) * row_len;
            slice_subrange(self.data.as_slice(), at, at + row_len)
        }
    }

    /// The row of position `t` for a layer, a kind (0 for keys, 1 for
    /// values) and a head.
    pub fn kv_row(&self, layer: usize, kind: usize, head: usize, t: usize) -> (bytes: &[u8])
        requires
            layer < self@.nlayers,
            kind < 2,
            head < self@.nkvh,
            t < self@.max_seq_len,
        ensures
            bytes@ == self@.kv_row(layer as int, kind as int, head as int, t as int),
    {
        proof {
            use_type_invariant(self);
        }
        let len: usize = self.data.len();
        let ghost nblocks: int = self.nlayers * 2 * self.nkvh;
        let ghost msl: int = self.max_seq_len as int;
        let ghost rl: int = self.dh * self.elem_size;
        let ghost block: int = (layer * 2 + kind) * self.nkvh + head;
        if self.dh == 0 || self.elem_size == 0 {
            assert(rl == 0 && (block * msl + t) * rl == 0) by (nonlinear_arith)
                requires
                    rl == self.dh * self.elem_size,
                    self.dh == 0 || self.elem_size == 0,
            ;
            return slice_subrange(self.data.as_slice(), 0, 0);
        }
        proof {
            assert(nblocks <= nblocks * msl * rl) by (nonlinear_arith)
                requires
                    rl == self.dh * self.elem_size,
                    self.dh >= 1,
                    self.elem_size >= 1,
                    msl >= 1,
                    nblocks >= 0,
            ;
            assert(0 <= layer * 2 + kind <= (layer * 2 + kind) * self.nkvh && block < nblocks)
                by (nonlinear_arith)
                requires
                    block == (layer * 2 + kind) * self.nkvh + head,
                    nblocks == self.nlayers * 2 * self.nkvh,
                    0 <= layer < self.nlayers,
                    0 <= kind < 2,
                    0 <= head < self.nkvh,
            ;
        }
        self.block_row((layer * 2 + kind) * self.nkvh + head, t)
    }

    /// A cache without rows.
    pub fn empty() -> (cache: KvCache)
        ensures
            cache@ == (KvCacheView {
                nlayers: 0,
                nkvh: 0,
                max_seq_len: 0,
                dh: 0,
                elem_size: 0,
                data: Seq::empty(),
            }),
    {
        KvCache { nlayers: 0, nkvh: 0, max_seq_len: 0, dh: 0, elem_size: 0, data: Vec::new() }
    }

    /// The number of layers.
    pub fn nlayers(&self) -> (n: usize)
        ensures
            n == self@.nlayers,
    {
        self.nlayers
    }

    /// The number of key/value heads.
    pub fn nkvh(&self) -> (n: usize)
        ensures
            n == self@.nkvh,
    {
        self.nkvh
    }

    /// The number of positions that the cache has room for.
    pub fn max_seq_len(&self) -> (n: usize)
        ensures
            n == self@.max_seq_len,
    {
        self.max_seq_len
    }

    /// The number of elements of a row.
    pub fn dh(&self) -> (n: usize)
        ensures
            n == self@.dh,
    {
        self.dh
    }

    /// The bytes of the cache.
    pub fn as_bytes(&self) -> (bytes: &Vec<u8>)
        ensures
            bytes@ == self@.data,
    {
        &self.data
    }
}

/// The bytes of `nlayers * 2 * nkvh * max_seq_len` rows, if the number fits.
fn size_of_rows(nlayers: usize, nkvh: usize, max_seq_len: usize, row_len: usize) -> (size: Option<usize>)
    ensures
        size is Some <==> nlayers * 2 * nkvh * max_seq_len * row_len <= usize::MAX,
        size matches Some(n) ==> n == nlayers * 2 * nkvh * max_seq_len * row_len,
{
    if nlayers == 0 || nkvh == 0 || max_seq_len == 0 || row_len == 0 {
        assert(nlayers * 2 * nkvh * max_seq_len * row_len == 0) by (nonlinear_arith)
            requires
                nlayers == 0 || nkvh == 0 || max_seq_len == 0 || row_len == 0,
        ;
        return Some(0);
    }
    let a: usize = match fitting_product(nlayers, 2) {
        Some(n) => n,
        None => {
            assert(nlayers * 2 * nkvh * max_seq_len * row_len >= nlayers * 2) by (nonlinear_arith)
                requires
                    nkvh >= 1,
                    max_seq_len >= 1,
                    row_len >= 1,
                    nlayers >= 1,
            ;
            return None;
        },
    };
    let b: usize = match fitting_product(a, nkvh) {
        Some(n) => n,
        None => {
            assert(a * nkvh * max_seq_len * row_len >= a * nkvh) by (nonlinear_arith)
                requires
                    a >= 1,
                    nkvh >= 1,
                    max_seq_len >= 1,
                    row_len >= 1,
            ;
            return None;
        },
    };
    assert(b >= 1) by (nonlinear_arith)
        requires
            b == a * nkvh,
            a >= 1,
            nkvh >= 1,
    ;
    let c: usize = match fitting_product(b, max_seq_len) {
        Some(n) => n,
        None => {
            assert(b * max_seq_len * row_len >= b * max_seq_len) by (nonlinear_arith)
                requires
                    b >= 1,
                    max_seq_len >= 1,
                    row_len >= 1,
            ;
            return None;
        },
    };
    fitting_product(c, row_len)
}

/// Where row `t` of a block lies within the block's bytes.
proof fn lemma_block_row_range(max_seq_len: int, row_len: int, block: int, t: int)
    requires
        0 <= block,
        0 <= t < max_seq_len,
        0 <= row_len,
    ensures
        (block * max_seq_len + t) * row_len == block * (max_seq_len * row_len) + t * row_len,
        0 <= t * row_len,
        t * row_len + row_len <= max_seq_len * row_len,
        0 <= block * max_seq_len + t,
{
    assert((block * max_seq_len + t) * row_len == block * (max_seq_len * row_len) + t * row_len)
        by (nonlinear_arith);
    assert(0 <= t * row_len && t * row_len + row_len <= max_seq_len * row_len) by (nonlinear_arith)
        requires
            0 <= t < max_seq_len,
            0 <= row_len,
    ;
    assert(0 <= block * max_seq_len + t) by (nonlinear_arith)
        requires
            0 <= block,
            0 <= t < max_seq_len,
    ;
}

/// Head `c` of scratch row `row` lies within the row, and the row within
/// the rows up to `rows`.
proof fn lemma_scratch_head_range(
    width: int,
    col: int,
    dh: int,
    elem_size: int,
    heads: int,
    row: int,
    rows: int,
    c: int,
)
    requires
        0 <= row < rows,
        0 <= c < heads,
        0 <= col,
        0 <= dh,
        1 <= elem_size,
        col + heads * dh <= width,
    ensures
        0 <= row * width,
        0 <= c * dh,
        0 <= row * width + col + c * dh,
        row * width <= (row * width + col + c * dh) * elem_size,
        row * width + col + c * dh <= (row * width + col + c * dh) * elem_size,
        (row * width + col + c * dh) * elem_size + dh * elem_size <= rows * width * elem_size,
{
    assert(0 <= c * dh && c * dh + dh <= heads * dh) by (nonlinear_arith)
        requires
            0 <= c < heads,
            0 <= dh,
    ;
    assert(0 <= row * width && row * width + width <= rows * width) by (nonlinear_arith)
        requires
            0 <= row < rows,
            0 <= width,
    ;
    let at = row * width + col + c * dh;
    assert(at <= at * elem_size && at * elem_size + dh * elem_size == (at + dh) * elem_size && (at
        + dh) * elem_size <= (rows * width) * elem_size) by (nonlinear_arith)
        requires
            0 <= at,
            at + dh <= rows * width,
            1 <= elem_size,
            0 <= dh,
    ;
}

/// A cache with rows is at least as large as one row.
proof fn lemma_bytes_at_least(nlayers: nat, nkvh: nat, max_seq_len: nat, dh: nat, elem_size: nat)
    ensures
        nlayers * 2 * nkvh * max_seq_len != 0 ==> cache_bytes(nlayers, nkvh, max_seq_len, dh, elem_size)
            >= dh * elem_size,
        nlayers * 2 * nkvh * max_seq_len == 0 ==> cache_bytes(nlayers, nkvh, max_seq_len, dh, elem_size)
            == 0,
{
    let rows = nlayers * 2 * nkvh * max_seq_len;
    let len = dh * elem_size;
    assert(rows != 0 ==> rows * len >= len) by (nonlinear_arith)
        requires
            rows >= 0,
            len >= 0,
    ;
    assert(rows == 0 ==> rows * len == 0) by (nonlinear_arith);
}

} // verus!
