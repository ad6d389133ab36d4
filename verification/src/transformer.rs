//! The model as the engine's bookkeeping sees it: its hyperparameters, the
//! caches it makes, and the layout of a pass over a batch of queries.
//!
//! The numeric kernels work on the buffers that are laid out here; they are
//! no part of this library.

use crate::cache::{cache_bytes, zero_row, KvCache};
use crate::rows::fitting_product;
use vstd::prelude::*;

verus! {

/// The hyperparameters of a model.
#[derive(Clone, Copy, Debug)]
pub struct Config {
    /// The size of an element in bytes: two for half precision.
    pub elem_size: usize,
    /// The number of layers.
    pub nlayers: usize,
    /// The width of the hidden state.
    pub d: usize,
    /// The number of query heads.
    pub nh: usize,
    /// The number of key/value heads; it divides `nh`.
    pub nkvh: usize,
    /// The width inside the feed-forward block.
    pub di: usize,
    /// The number of positions that a session's cache has room for.
    pub max_seq_len: usize,
    /// The number of tokens of the vocabulary.
    pub voc: usize,
    /// The token that begins a sequence.
    pub bos_token: u32,
    /// The token that ends a sequence.
    pub eos_token: u32,
}

impl Config {
    /// The width of a head.
    pub open spec fn dh(self) -> int {
        self.d as int / self.nh as int
    }

    /// The width of all key heads, or of all value heads, together.
    pub open spec fn dkv(self) -> int {
        self.nkvh * self.dh()
    }

    /// The number of query heads that share a key/value head.
    pub open spec fn head_group(self) -> int {
        self.nh as int / self.nkvh as int
    }

    /// Hyperparameters that a model can have: there are heads, the key/value
    /// heads divide the query heads, the heads divide the hidden state, and
    /// a row of the hidden state and a session's cache fit the address
    /// space.
    pub open spec fn valid(self) -> bool {
        &&& self.elem_size > 0
        &&& self.d > 0
        &&& self.nh > 0
        &&& self.nkvh > 0
        &&& self.nh as int % self.nkvh as int == 0
        &&& self.d as int % self.nh as int == 0
        &&& self.d * self.elem_size <= usize::MAX
        &&& cache_bytes(
            self.nlayers as nat,
            self.nkvh as nat,
            self.max_seq_len as nat,
            self.dh() as nat,
            self.elem_size as nat,
        ) <= usize::MAX
    }
}

/// A model, as far as its hyperparameters go.
pub struct Transformer {
    config: Config,
}

impl View for Transformer {
    type V = Config;

    closed spec fn view(&self) -> Config {
        self.config
    }
}

impl Transformer {
    #[verifier::type_invariant]
    pub closed spec fn inv(&self) -> bool {
        self.config.valid()
    }

    /// The model of the given hyperparameters, if a model can have them.
    pub fn new(config: Config) -> (model: Option<Transformer>)
        ensures
            model is Some <==> config.valid(),
            model matches Some(m) ==> m@ == config,
    {
        if config.elem_size == 0 || config.d == 0 || config.nh == 0 || config.nkvh == 0 {
            return None;
        }
        if config.nh % config.nkvh != 0 || config.d % config.nh != 0 {
            return None;
        }
        if fitting_product(config.d, config.elem_size).is_none() {
            return None;
        }
        match KvCache::new(
            config.nlayers,
            config.nkvh,
            config.max_seq_len,
            config.d / config.nh,
            config.elem_size,
        ) {
            Some(_) => Some(Transformer { config }),
            None => None,
        }
    }

    /// The hyperparameters.
    pub fn config(&self) -> (config: Config)
        ensures
            config == self@,
            config.valid(),
    {
        proof {
            use_type_invariant(self);
        }
        self.config
    }

    /// The size of a row of the hidden state in bytes.
    pub fn row_bytes(&self) -> (len: usize)
        ensures
            len == self@.d * self@.elem_size,
            len >= 1,
    {
        proof {
            use_type_invariant(self);
            assert(self.config.d * self.config.elem_size >= 1) by (nonlinear_arith)
                requires
                    self.config.d >= 1,
                    self.config.elem_size >= 1,
            ;
        }
        self.config.d * self.config.elem_size
    }

    /// The token that ends a reply.
    pub fn eos_token(&self) -> (token: u32)
        ensures
            token == self@.eos_token,
    {
        self.config.eos_token
    }

    /// A cache for one session, all zero.
    pub fn new_cache(&self) -> (cache: KvCache)
        ensures
            cache@.nlayers == self@.nlayers,
            cache@.nkvh == self@.nkvh,
            cache@.max_seq_len == self@.max_seq_len,
            cache@.dh == self@.dh(),
            cache@.elem_size == self@.elem_size,
            cache@.data == zero_row(
                cache_bytes(
                    self@.nlayers as nat,
                    self@.nkvh as nat,
                    self@.max_seq_len as nat,
                    self@.dh() as nat,
                    self@.elem_size as nat,
                ),
            ),
    {
        proof {
            use_type_invariant(self);
        }
        match KvCache::new(
            self.config.nlayers,
            self.config.nkvh,
            self.config.max_seq_len,
            self.config.d / self.config.nh,
            self.config.elem_size,
        ) {
            Some(cache) => cache,
            None => KvCache::empty(),
        }
    }

    /// A copy of a cache that keeps the rows of the first `pos` positions.
    pub fn duplicate_cache(&self, cache: &KvCache, pos: usize) -> (copy: KvCache)
        requires
            pos <= cache@.max_seq_len,
        ensures
            copy@.same_shape(cache@),
            forall|block: int, t: int|
                0 <= block < cache@.blocks() && 0 <= t < cache@.max_seq_len ==> #[trigger] copy@.block_row(
                    block,
                    t,
                ) == (if t < pos {
                    cache@.block_row(block, t)
                } else {
                    zero_row(cache@.row_len())
                }),
    {
        cache.duplicate(pos)
    }
}

} // verus!
