//! Splicing the keys and values of a pass into the caches of the sessions.
//!
//! A scratch row holds, behind the `d` elements of the normalised
//! activations, the `d` elements of the queries, then the keys and then the
//! values of each key/value head.

use crate::cache::{scratch_head, KvCache};
use crate::forward::{lemma_head_widths, reusing, ForwardPlan, QuerySpan};
use crate::transformer::{Config, Transformer};
use vstd::prelude::*;

verus! {

/// The column of a scratch row at which the keys start: `col_k` of the
/// layout of a pass.
pub open spec fn key_column(config: Config) -> int {
    2 * config.d
}

/// A cache of the model's shape.
pub open spec fn cache_of(cache: crate::cache::KvCacheView, config: Config) -> bool {
    &&& cache.nlayers == config.nlayers
    &&& cache.nkvh == config.nkvh
    &&& cache.max_seq_len == config.max_seq_len
    &&& cache.dh == config.dh()
    &&& cache.elem_size == config.elem_size
}

impl Transformer {
    /// Writes the keys and values that a pass computed for one query into
    /// a layer of the query's cache, at the positions of the query's
    /// tokens. `scratch` is the scratch buffer of the pass after the
    /// projection of that layer. Every other row of the cache stays.
    pub fn store_kv(
        &self,
        cache: &mut KvCache,
        layer: usize,
        scratch: &Vec<u8>,
        plan: &ForwardPlan,
        span: QuerySpan,
    )
        requires
            cache_of(old(cache)@, self@),
            layer < self@.nlayers,
            plan.width == self@.d + reusing(self@),
            span.row_begin + span.seq_len <= plan.nt,
            span.pos + span.seq_len <= self@.max_seq_len,
            scratch@.len() == plan.nt * plan.width * self@.elem_size,
        ensures
            final(cache)@.same_shape(old(cache)@),
            forall|b: int, t: int|
                layer * 2 * self@.nkvh <= b < (layer + 1) * 2 * self@.nkvh && span.pos <= t < span.pos
                    + span.seq_len ==> #[trigger] final(cache)@.block_row(b, t) == scratch_head(
                    scratch@,
                    plan.width as int,
                    key_column(self@),
                    self@.dh(),
                    self@.elem_size as int,
                    span.row_begin + (t - span.pos),
                    b - layer * 2 * self@.nkvh,
                ),
            forall|b: int, t: int|
                0 <= b < old(cache)@.blocks() && 0 <= t < self@.max_seq_len && !(layer * 2
                    * self@.nkvh <= b < (layer + 1) * 2 * self@.nkvh && span.pos <= t < span.pos
                    + span.seq_len) ==> #[trigger] final(cache)@.block_row(b, t) == old(
                    cache,
                )@.block_row(b, t),
    {
        let config: Config = self.config();
        let len: usize = scratch.len();
        proof {
            lemma_head_widths(config);
            let width: int = plan.width as int;
            assert(2 * config.nkvh * config.dh() == 2 * config.dkv()) by (nonlinear_arith)
                requires
                    config.dkv() == config.nkvh * config.dh(),
            ;
            assert(config.dh() >= 1) by (nonlinear_arith)
                requires
                    config.d == config.nh * config.dh(),
                    config.d >= 1,
                    config.nh >= 1,
                    config.dh() >= 0,
            ;
            assert((span.row_begin + span.seq_len) * width * config.elem_size <= plan.nt * width
                * config.elem_size) by (nonlinear_arith)
                requires
                    span.row_begin + span.seq_len <= plan.nt,
                    0 <= width,
                    0 <= config.elem_size,
            ;
            if span.seq_len > 0 {
                assert(width <= plan.nt * width * config.elem_size) by (nonlinear_arith)
                    requires
                        plan.nt >= 1,
                        config.elem_size >= 1,
                        width >= 0,
                ;
            }
        }
        if span.seq_len == 0 {
            return ;
        }
        cache.store_span(
            layer,
            scratch,
            plan.width,
            2 * config.d,
            span.row_begin,
            span.pos,
            span.seq_len,
        );
    }
}

} // verus!
