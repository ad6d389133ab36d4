//! The layout of one pass over a batch of queries.
//!
//! The rows of all queries stand one after the other in one hidden state,
//! so that the dense stages run over the whole batch; attention runs query
//! by query, since each attends to its own cache. One scratch buffer serves
//! every layer: beside the normalised activations it holds, in turn, the
//! projected queries, keys and values and the two halves of the
//! feed-forward block.

use crate::rows::{fitting_product, fitting_sum};
use crate::transformer::{Config, Transformer};
use vstd::prelude::*;

verus! {

/// One query of a batch: `seq_len` new tokens of a session whose cache
/// covers `pos` tokens.
#[derive(Clone, Copy, Debug)]
pub struct QueryContext {
    /// The number of tokens that the session's cache covers.
    pub pos: usize,
    /// The number of new tokens.
    pub seq_len: usize,
}

impl QueryContext {
    /// The number of positions that the new tokens attend to.
    pub open spec fn att_len(self) -> int {
        self.pos + self.seq_len
    }
}

/// The number of rows of a batch: the new tokens of all queries.
pub open spec fn total_seq(queries: Seq<QueryContext>) -> int
    decreases queries.len(),
{
    if queries.len() == 0 {
        0
    } else {
        total_seq(queries.drop_last()) + queries.last().seq_len
    }
}

/// The most new tokens of a query.
pub open spec fn longest_seq(queries: Seq<QueryContext>) -> int
    decreases queries.len(),
{
    if queries.len() == 0 {
        0
    } else if queries.last().seq_len > longest_seq(queries.drop_last()) {
        queries.last().seq_len as int
    } else {
        longest_seq(queries.drop_last())
    }
}

/// The most positions that a query attends to.
pub open spec fn longest_att(queries: Seq<QueryContext>) -> int
    decreases queries.len(),
{
    if queries.len() == 0 {
        0
    } else if queries.last().att_len() > longest_att(queries.drop_last()) {
        queries.last().att_len()
    } else {
        longest_att(queries.drop_last())
    }
}

/// The position of each row of a batch: the tokens of a query follow the
/// tokens that its cache covers.
pub open spec fn positions(queries: Seq<QueryContext>) -> Seq<int>
    decreases queries.len(),
{
    if queries.len() == 0 {
        Seq::empty()
    } else {
        positions(queries.drop_last()) + Seq::new(
            queries.last().seq_len as nat,
            |j: int| queries.last().pos + j,
        )
    }
}

/// Every query fits the cache of its session.
pub open spec fn within_capacity(queries: Seq<QueryContext>, max_seq_len: int) -> bool {
    forall|i: int| 0 <= i < queries.len() ==> (#[trigger] queries[i]).att_len() <= max_seq_len
}

/// The width of the part of the scratch buffer that is used in turn for
/// the queries, keys and values and for the feed-forward block.
pub open spec fn reusing(config: Config) -> int {
    if config.d + 2 * config.dkv() >= 2 * config.di {
        config.d + 2 * config.dkv()
    } else {
        2 * config.di
    }
}

/// The sizes of a pass can be computed: none of them, nor a product on
/// the way to one, exceeds the largest number.
pub open spec fn plan_fits(config: Config, queries: Seq<QueryContext>) -> bool {
    &&& total_seq(queries) <= usize::MAX
    &&& config.d + reusing(config) <= usize::MAX
    &&& total_seq(queries) * (config.d + reusing(config)) <= usize::MAX
    &&& total_seq(queries) * (config.d + reusing(config)) * config.elem_size <= usize::MAX
    &&& longest_seq(queries) * config.d <= usize::MAX
    &&& longest_seq(queries) * config.d * config.elem_size <= usize::MAX
    &&& config.nh * longest_seq(queries) <= usize::MAX
    &&& config.nh * longest_seq(queries) * longest_att(queries) <= usize::MAX
    &&& config.nh * longest_seq(queries) * longest_att(queries) * config.elem_size <= usize::MAX
}

/// Where a query stands in the batch.
#[derive(Clone, Copy, Debug)]
pub struct QuerySpan {
    /// The first row of the query in the hidden state.
    pub row_begin: usize,
    /// The position of its first token, which is the first row of the cache
    /// that it writes.
    pub pos: usize,
    /// The number of its rows.
    pub seq_len: usize,
    /// The number of rows of the cache that it attends to, from the first.
    pub att_len: usize,
}

/// The layout of a pass.
#[derive(Debug)]
pub struct ForwardPlan {
    /// The number of rows of the hidden state, going in and coming out.
    pub nt: usize,
    /// The width of the hidden state, going in and coming out.
    pub d: usize,
    /// The most new tokens of a query.
    pub max_seq_len: usize,
    /// The most positions that a query attends to.
    pub max_att_len: usize,
    /// The width of a head.
    pub dh: usize,
    /// The width of all key heads together.
    pub dkv: usize,
    /// The number of query heads that share a key/value head.
    pub head_group: usize,
    /// The width of the reused part of a scratch row.
    pub reusing: usize,
    /// The width of a scratch row, `d + reusing`. Its first `d` columns hold
    /// the normalised activations, and later the output of attention.
    pub width: usize,
    /// The column of a scratch row at which the queries start.
    pub col_q: usize,
    /// The column at which the keys start, behind the queries.
    pub col_k: usize,
    /// The column at which the values start, behind the keys.
    pub col_v: usize,
    /// The column at which the gated half of the feed-forward block starts.
    pub col_gate: usize,
    /// The column at which the other half of the feed-forward block starts,
    /// behind the gated half.
    pub col_up: usize,
    /// The size of the scratch buffer, `nt` rows of `d + reusing` elements,
    /// in bytes.
    pub state_bytes: usize,
    /// The size of the buffer for one query's heads in bytes.
    pub q_buf_bytes: usize,
    /// The size of the buffer for one query's attention weights in bytes.
    pub att_buf_bytes: usize,
    /// The position of each row.
    pub pos: Vec<usize>,
    /// Where each query stands.
    pub spans: Vec<QuerySpan>,
}

/// The shapes that the heads of one query take for attention.
#[derive(Clone, Copy, Debug)]
pub struct AttentionShapes {
    /// The queries by head: `[nh, seq_len, dh]`.
    pub q_by_head: (usize, usize, usize),
    /// The queries by key/value head: `[nkvh, head_group * seq_len, dh]`.
    pub q_by_group: (usize, usize, usize),
    /// The weights by key/value head: `[nkvh, head_group * seq_len, att_len]`.
    pub att_by_group: (usize, usize, usize),
    /// The weights by head: `[nh, seq_len, att_len]`.
    pub att_by_head: (usize, usize, usize),
}

/// The rows of the first queries.
pub proof fn lemma_batch_take(queries: Seq<QueryContext>, i: int)
    requires
        0 <= i < queries.len(),
    ensures
        total_seq(queries.take(i + 1)) == total_seq(queries.take(i)) + queries[i].seq_len,
        longest_seq(queries.take(i + 1)) == (if queries[i].seq_len > longest_seq(queries.take(i)) {
            queries[i].seq_len as int
        } else {
            longest_seq(queries.take(i))
        }),
        longest_att(queries.take(i + 1)) == (if queries[i].att_len() > longest_att(
            queries.take(i),
        ) {
            queries[i].att_len()
        } else {
            longest_att(queries.take(i))
        }),
        positions(queries.take(i + 1)) == positions(queries.take(i)) + Seq::new(
            queries[i].seq_len as nat,
            |j: int| queries[i].pos + j,
        ),
{
    assert(queries.take(i + 1).drop_last() == queries.take(i));
    assert(queries.take(i + 1).last() == queries[i]);
}

/// A batch has as many positions as rows; no query is longer than the
/// longest, and none longer than what it attends to.
pub proof fn lemma_batch_bounds(queries: Seq<QueryContext>)
    ensures
        0 <= total_seq(queries),
        positions(queries).len() == total_seq(queries),
        0 <= longest_seq(queries) <= longest_att(queries),
        longest_seq(queries) <= total_seq(queries),
        forall|i: int|
            0 <= i < queries.len() ==> (#[trigger] queries[i]).seq_len <= longest_seq(queries)
                && queries[i].att_len() <= longest_att(queries),
    decreases queries.len(),
{
    if queries.len() > 0 {
        lemma_batch_bounds(queries.drop_last());
        assert forall|i: int| 0 <= i < queries.len() implies (#[trigger] queries[i]).seq_len
            <= longest_seq(queries) && queries[i].att_len() <= longest_att(queries) by {
            if i < queries.len() - 1 {
                assert(queries.drop_last()[i] == queries[i]);
            }
        }
    }
}

impl Transformer {
    /// Lays out a pass over a batch of queries. `None` if a size of the
    /// pass cannot be computed.
    pub fn forward(&self, queries: &Vec<QueryContext>) -> (plan: Option<ForwardPlan>)
        requires
            within_capacity(queries@, self@.max_seq_len as int),
        ensures
            plan is Some <==> plan_fits(self@, queries@),
            plan matches Some(p) ==> {
                &&& p.nt == total_seq(queries@)
                &&& p.d == self@.d
                &&& p.max_seq_len == longest_seq(queries@)
                &&& p.max_att_len == longest_att(queries@)
                &&& p.max_att_len <= self@.max_seq_len
                &&& p.dh == self@.dh()
                &&& p.dkv == self@.dkv()
                &&& p.head_group == self@.head_group()
                &&& p.reusing == reusing(self@)
                &&& p.width == p.d + p.reusing
                &&& p.col_q == p.d
                &&& p.col_k == p.col_q + p.d
                &&& p.col_v == p.col_k + p.dkv
                &&& p.col_v + p.dkv <= p.width
                &&& p.col_gate == p.d
                &&& p.col_up == p.col_gate + self@.di
                &&& p.col_up + self@.di <= p.width
                &&& p.state_bytes == p.nt * p.width * self@.elem_size
                &&& p.q_buf_bytes == self@.nh * p.max_seq_len * p.dh * self@.elem_size
                &&& p.att_buf_bytes == self@.nh * p.max_seq_len * p.max_att_len * self@.elem_size
                &&& p.pos@.len() == p.nt
                &&& forall|r: int| 0 <= r < p.nt ==> #[trigger] p.pos@[r] == positions(queries@)[r]
                &&& p.spans@.len() == queries@.len()
                &&& forall|i: int|
                    0 <= i < queries@.len() ==> {
                        &&& (#[trigger] p.spans@[i]).row_begin == total_seq(queries@.take(i))
                        &&& p.spans@[i].pos == queries@[i].pos
                        &&& p.spans@[i].seq_len == queries@[i].seq_len
                        &&& p.spans@[i].att_len == queries@[i].pos + queries@[i].seq_len
                        &&& p.spans@[i].att_len <= self@.max_seq_len
                        &&& p.spans@[i].row_begin + p.spans@[i].seq_len <= p.nt
                    }
            },
    {
        let config: Config = self.config();
        let n: usize = queries.len();
        let mut nt: usize = 0;
        let mut max_seq_len: usize = 0;
        let mut max_att_len: usize = 0;
        let mut pos: Vec<usize> = Vec::new();
        let mut spans: Vec<QuerySpan> = Vec::new();
        let mut i: usize = 0;
        proof {
            assert(queries@.take(0) == Seq::<QueryContext>::empty());
            lemma_batch_bounds(queries@);
        }
        while i < n
            invariant
                i <= n == queries@.len(),
                within_capacity(queries@, config.max_seq_len as int),
                nt == total_seq(queries@.take(i as int)),
                max_seq_len == longest_seq(queries@.take(i as int)),
                max_att_len == longest_att(queries@.take(i as int)),
                max_att_len <= config.max_seq_len,
                pos@.len() == nt,
                forall|r: int|
                    0 <= r < nt ==> #[trigger] pos@[r] == positions(queries@.take(i as int))[r],
                spans@.len() == i,
                forall|k: int|
                    0 <= k < i ==> {
                        &&& (#[trigger] spans@[k]).row_begin == total_seq(queries@.take(k))
                        &&& spans@[k].pos == queries@[k].pos
                        &&& spans@[k].seq_len == queries@[k].seq_len
                        &&& spans@[k].att_len == queries@[k].pos + queries@[k].seq_len
                        &&& spans@[k].row_begin + spans@[k].seq_len <= nt
                    },
            decreases n - i,
        {
            let query: QueryContext = queries[i];
            proof {
                lemma_batch_take(queries@, i as int);
                lemma_total_seq_take(queries@, i as int + 1);
                lemma_batch_bounds(queries@.take(i as int));
                lemma_batch_bounds(queries@.take(i as int + 1));
            }
            let ghost before: Seq<usize> = pos@;
            let att_len: usize = query.pos + query.seq_len;
            let next: usize = match fitting_sum(nt, query.seq_len) {
                Some(next) => next,
                None => {
                    return None;
                },
            };
            spans.push(
                QuerySpan { row_begin: nt, pos: query.pos, seq_len: query.seq_len, att_len },
            );
            let mut j: usize = 0;
            while j < query.seq_len
                invariant
                    j <= query.seq_len,
                    query.pos + query.seq_len <= usize::MAX,
                    pos@.len() == before.len() + j,
                    forall|r: int| 0 <= r < before.len() ==> #[trigger] pos@[r] == before[r],
                    forall|r: int|
                        before.len() <= r < before.len() + j ==> #[trigger] pos@[r] == query.pos + (r
                            - before.len()),
                decreases query.seq_len - j,
            {
                pos.push(query.pos + j);
                j += 1;
            }
            assert forall|r: int| 0 <= r < next implies #[trigger] pos@[r] == positions(
                queries@.take(i as int + 1),
            )[r] by {
                if r < before.len() {
                    assert(pos@[r] == before[r]);
                }
            }
            nt = next;
            if query.seq_len > max_seq_len {
                max_seq_len = query.seq_len;
            }
            if att_len > max_att_len {
                max_att_len = att_len;
            }
            i += 1;
        }
        proof {
            assert(queries@.take(n as int) == queries@);
        }
        let dh: usize = config.d / config.nh;
        let head_group: usize = config.nh / config.nkvh;
        proof {
            lemma_head_widths(config);
        }
        let dkv: usize = config.nkvh * dh;
        let qkv: usize = match fitting_product(2, dkv) {
            Some(kv) => match fitting_sum(config.d, kv) {
                Some(w) => w,
                None => {
                    return None;
                },
            },
            None => {
                return None;
            },
        };
        let gate_up: usize = match fitting_product(2, config.di) {
            Some(w) => w,
            None => {
                return None;
            },
        };
        let reused: usize = if qkv >= gate_up {
            qkv
        } else {
            gate_up
        };
        let width: usize = match fitting_sum(config.d, reused) {
            Some(w) => w,
            None => {
                return None;
            },
        };
        let state_bytes: usize = match fitting_product(nt, width) {
            Some(elems) => match fitting_product(elems, config.elem_size) {
                Some(bytes) => bytes,
                None => {
                    return None;
                },
            },
            None => {
                return None;
            },
        };
        let q_buf_bytes: usize = match fitting_product(max_seq_len, config.d) {
            Some(elems) => match fitting_product(elems, config.elem_size) {
                Some(bytes) => bytes,
                None => {
                    return None;
                },
            },
            None => {
                return None;
            },
        };
        proof {
            assert(config.nh * max_seq_len * dh == max_seq_len * config.d) by (nonlinear_arith)
                requires
                    config.d == config.nh * dh,
            ;
        }
        let att_buf_bytes: usize = match fitting_product(config.nh, max_seq_len) {
            Some(rows) => match fitting_product(rows, max_att_len) {
                Some(elems) => match fitting_product(elems, config.elem_size) {
                    Some(bytes) => bytes,
                    None => {
                        return None;
                    },
                },
                None => {
                    return None;
                },
            },
            None => {
                return None;
            },
        };
        Some(
            ForwardPlan {
                nt,
                d: config.d,
                max_seq_len,
                max_att_len,
                dh,
                dkv,
                head_group,
                reusing: reused,
                width,
                col_q: config.d,
                col_k: config.d + config.d,
                col_v: config.d + config.d + dkv,
                col_gate: config.d,
                col_up: config.d + config.di,
                state_bytes,
                q_buf_bytes,
                att_buf_bytes,
                pos,
                spans,
            },
        )
    }

    /// The shapes for the attention of a query of `seq_len` rows that
    /// attends to `att_len` positions. `None` if a dimension cannot be
    /// computed.
    pub fn attention_shapes(&self, seq_len: usize, att_len: usize) -> (shapes: Option<
        AttentionShapes,
    >)
        ensures
            shapes is Some <==> self@.head_group() * seq_len <= usize::MAX,
            shapes matches Some(s) ==> {
                &&& s.q_by_head == (self@.nh, seq_len, self@.dh() as usize)
                &&& s.q_by_group == (
                    self@.nkvh,
                    (self@.head_group() * seq_len) as usize,
                    self@.dh() as usize,
                )
                &&& s.att_by_group == (self@.nkvh, (self@.head_group() * seq_len) as usize, att_len)
                &&& s.att_by_head == (self@.nh, seq_len, att_len)
                &&& s.q_by_head.0 * s.q_by_head.1 == s.q_by_group.0 * s.q_by_group.1
                &&& s.att_by_head.0 * s.att_by_head.1 == s.att_by_group.0 * s.att_by_group.1
            },
    {
        let config: Config = self.config();
        let dh: usize = config.d / config.nh;
        let head_group: usize = config.nh / config.nkvh;
        proof {
            lemma_head_widths(config);
        }
        match fitting_product(head_group, seq_len) {
            Some(rows) => {
                assert(config.nh * seq_len == config.nkvh * rows) by (nonlinear_arith)
                    requires
                        config.nh == config.nkvh * head_group,
                        rows == head_group * seq_len,
                ;
                Some(
                    AttentionShapes {
                        q_by_head: (config.nh, seq_len, dh),
                        q_by_group: (config.nkvh, rows, dh),
                        att_by_group: (config.nkvh, rows, att_len),
                        att_by_head: (config.nh, seq_len, att_len),
                    },
                )
            },
            None => None,
        }
    }
}

/// The rows of the first queries are rows of the batch.
pub proof fn lemma_total_seq_take(queries: Seq<QueryContext>, i: int)
    requires
        0 <= i <= queries.len(),
    ensures
        0 <= total_seq(queries.take(i)) <= total_seq(queries),
    decreases queries.len() - i,
{
    lemma_batch_bounds(queries.take(i));
    if i < queries.len() {
        lemma_batch_take(queries, i);
        lemma_total_seq_take(queries, i + 1);
    } else {
        assert(queries.take(i) == queries);
    }
}

/// The heads make up the hidden state, and the key/value heads, each
/// shared by a group, make up the query heads.
pub proof fn lemma_head_widths(config: Config)
    requires
        config.valid(),
    ensures
        config.d == config.nh * config.dh(),
        config.nh == config.nkvh * config.head_group(),
        0 <= config.dh() <= config.d,
        1 <= config.head_group() <= config.nh,
        0 <= config.dkv() <= config.d,
{
    let dh = config.dh();
    let group = config.head_group();
    assert(config.d == config.nh * dh && 0 <= dh <= config.d) by (nonlinear_arith)
        requires
            config.nh > 0,
            config.d as int % config.nh as int == 0,
            dh == config.d as int / config.nh as int,
    ;
    assert(config.nh == config.nkvh * group && 1 <= group <= config.nh) by (nonlinear_arith)
        requires
            config.nkvh > 0,
            config.nh > 0,
            config.nh as int % config.nkvh as int == 0,
            group == config.nh as int / config.nkvh as int,
    ;
    assert(0 <= config.nkvh * dh <= config.d) by (nonlinear_arith)
        requires
            config.d == config.nh * dh,
            config.nh == config.nkvh * group,
            group >= 1,
            dh >= 0,
            config.nkvh > 0,
    ;
}

/// A batch without new tokens has no rows: the pass has nothing to run,
/// and the hidden state that comes out is as empty as the one going in.
pub proof fn lemma_empty_batch(queries: Seq<QueryContext>)
    requires
        forall|i: int| 0 <= i < queries.len() ==> (#[trigger] queries[i]).seq_len == 0,
    ensures
        total_seq(queries) == 0,
        longest_seq(queries) == 0,
        positions(queries) == Seq::<int>::empty(),
    decreases queries.len(),
{
    if queries.len() > 0 {
        assert forall|i: int| 0 <= i < queries.drop_last().len() implies (
        #[trigger] queries.drop_last()[i]).seq_len == 0 by {
            assert(queries.drop_last()[i] == queries[i]);
        }
        lemma_empty_batch(queries.drop_last());
        assert(queries.last() == queries[queries.len() - 1]);
    }
}

} // verus!
