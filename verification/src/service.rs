//! What every session of a service shares: the model and the tokenizer.

use crate::cache::{cache_bytes, zero_row, KvCacheView};
use crate::session::{turn_views, SampleArgs, Session, SessionView};
use crate::forward::lemma_head_widths;
use crate::transformer::{Config, Transformer};
use crate::vocab_txt::{encoding, VocabTxt};
use vstd::prelude::*;
use vstd::utf8::encode_utf8;

verus! {

/// One message of a dialog.
#[derive(Debug)]
pub struct Sentence {
    /// Who speaks.
    pub role: String,
    /// What is said.
    pub content: String,
}

/// The session that is launched for a model: no turns, nothing cached, the
/// settings of a new session, and a cache of the model's shape, all zero.
pub open spec fn fresh_session(model: Config) -> SessionView {
    SessionView {
        tokens: Seq::empty(),
        turn_ends: Seq::empty(),
        cached: 0,
        cache: KvCacheView {
            nlayers: model.nlayers as nat,
            nkvh: model.nkvh as nat,
            max_seq_len: model.max_seq_len as nat,
            dh: model.dh() as nat,
            elem_size: model.elem_size as nat,
            data: zero_row(
                cache_bytes(
                    model.nlayers as nat,
                    model.nkvh as nat,
                    model.max_seq_len as nat,
                    model.dh() as nat,
                    model.elem_size as nat,
                ),
            ),
        },
        sample: SampleArgs { temperature: 0, top_k: usize::MAX, top_p: 0x3F80_0000 },
    }
}

/// The tokens of each message, encoded without sequence markers.
pub open spec fn tokenized(vocab: Seq<Seq<u8>>, messages: Seq<Sentence>) -> Seq<Seq<u32>> {
    Seq::new(
        messages.len(),
        |i: int| encoding(vocab, encode_utf8(messages[i].content@), false, false),
    )
}

/// A model with its tokenizer.
pub struct Service {
    model: Transformer,
    tokenizer: VocabTxt,
}

impl Service {
    /// The hyperparameters of the model.
    pub closed spec fn model(&self) -> Config {
        self.model@
    }

    /// The pieces of the tokenizer.
    pub closed spec fn vocab(&self) -> Seq<Seq<u8>> {
        self.tokenizer@
    }

    /// A service for a model and its tokenizer.
    pub fn new(model: Transformer, tokenizer: VocabTxt) -> (service: Service)
        ensures
            service.model() == model@,
            service.vocab() == tokenizer@,
    {
        Service { model, tokenizer }
    }

    /// The model.
    pub fn transformer(&self) -> (model: &Transformer)
        ensures
            model@ == self.model(),
    {
        &self.model
    }

    /// The tokenizer.
    pub fn tokenizer(&self) -> (tokenizer: &VocabTxt)
        ensures
            tokenizer@ == self.vocab(),
    {
        &self.tokenizer
    }

    /// A new session.
    pub fn launch(&self) -> (session: Session)
        ensures
            session@ == fresh_session(self.model()),
            session@.wf(),
            session@.settled(),
    {
        let config: Config = self.model.config();
        proof {
            lemma_head_widths(config);
        }
        Session::new(self.model.new_cache())
    }

    /// Encodes each message as one turn.
    pub fn tokenize(&self, messages: &Vec<Sentence>) -> (turns: Vec<Vec<u32>>)
        ensures
            turn_views(turns@) == tokenized(self.vocab(), messages@),
    {
        let mut turns: Vec<Vec<u32>> = Vec::new();
        let mut i: usize = 0;
        while i < messages.len()
            invariant
                i <= messages@.len(),
                turns@.len() == i,
                forall|k: int|
                    0 <= k < i ==> (#[trigger] turns@[k])@ == encoding(
                        self.vocab(),
                        encode_utf8(messages@[k].content@),
                        false,
                        false,
                    ),
            decreases messages@.len() - i,
        {
            let turn: Vec<u32> = self.tokenizer.encode(messages[i].content.as_str(), false, false);
            turns.push(turn);
            i += 1;
        }
        assert(turn_views(turns@) =~= tokenized(self.vocab(), messages@));
        turns
    }
}

} // verus!
