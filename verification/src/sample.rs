//! Which settings each decoded row is sampled with, and when sampling is
//! greedy.

use crate::session::SampleArgs;
use vstd::prelude::*;

verus! {

/// The settings for the rows that are decoded of one query.
#[derive(Clone, Copy, Debug)]
pub struct SampleMeta {
    /// The number of rows that are decoded of the query.
    pub num_decode: usize,
    /// The settings of its session.
    pub args: SampleArgs,
}

/// The settings of each decoded row: those of a query, once for each of its
/// decoded rows, query after query.
pub open spec fn row_args(metas: Seq<SampleMeta>) -> Seq<SampleArgs>
    decreases metas.len(),
{
    if metas.len() == 0 {
        Seq::empty()
    } else {
        row_args(metas.drop_last()) + Seq::new(
            metas.last().num_decode as nat,
            |k: int| metas.last().args,
        )
    }
}

/// The bits of a single-precision number that is at most zero: a zero of
/// either sign, or a negative number down to negative infinity.
pub open spec fn at_most_zero(bits: u32) -> bool {
    bits == 0 || 0x8000_0000 <= bits <= 0xFF80_0000
}

impl SampleArgs {
    /// Sampling that always takes the most likely token: at a temperature
    /// of at most zero, or with one token to pick from.
    pub open spec fn greedy(self) -> bool {
        at_most_zero(self.temperature) || self.top_k == 1
    }

    /// Whether sampling with these settings is greedy.
    pub fn is_greedy(&self) -> (greedy: bool)
        ensures
            greedy == self.greedy(),
            self.top_k == 1 ==> greedy,
    {
        self.temperature == 0 || (0x8000_0000 <= self.temperature && self.temperature
            <= 0xFF80_0000) || self.top_k == 1
    }
}

/// The settings to sample each decoded row with.
pub fn sample_args(metas: &Vec<SampleMeta>) -> (rows: Vec<SampleArgs>)
    ensures
        rows@ == row_args(metas@),
{
    let mut rows: Vec<SampleArgs> = Vec::new();
    let mut i: usize = 0;
    assert(metas@.take(0) == Seq::<SampleMeta>::empty());
    while i < metas.len()
        invariant
            i <= metas@.len(),
            rows@ == row_args(metas@.take(i as int)),
        decreases metas@.len() - i,
    {
        let meta: SampleMeta = metas[i];
        let ghost before: Seq<SampleArgs> = rows@;
        let mut k: usize = 0;
        while k < meta.num_decode
            invariant
                k <= meta.num_decode,
                rows@ == before + Seq::new(k as nat, |j: int| meta.args),
            decreases meta.num_decode - k,
        {
            rows.push(meta.args);
            k += 1;
        }
        proof {
            assert(metas@.take(i as int + 1).drop_last() == metas@.take(i as int));
            assert(metas@.take(i as int + 1).last() == meta);
        }
        i += 1;
    }
    assert(metas@.take(i as int) == metas@);
    rows
}

} // verus!
