//! A chat session: the tokens of its dialog turn by turn, how many of them
//! the key/value cache covers, and the steps by which a reply is generated.
//!
//! The dialog position counts the turns so far. At an even position the
//! next turn is the user's, at an odd one the assistant's. A reply is
//! generated step by step: the session says what to do next, the caller does
//! it and reports back what happened.

use crate::cache::{scratch_head, zero_row, KvCache, KvCacheView};
use vstd::prelude::*;
use vstd::slice::{slice_subrange, slice_to_vec};

verus! {

/// How the next token is picked from the logits. The two real-valued
/// settings are carried as the bit patterns of single-precision numbers;
/// a session hands them on as they are.
#[derive(Clone, Copy, Debug)]
pub struct SampleArgs {
    /// Bits of the temperature.
    pub temperature: u32,
    /// The number of most likely tokens to pick from.
    pub top_k: usize,
    /// Bits of the probability mass to pick from.
    pub top_p: u32,
}

impl SampleArgs {
    /// The settings of a new session: temperature zero, every token
    /// eligible.
    pub fn new() -> (args: SampleArgs)
        ensures
            args == (SampleArgs { temperature: 0, top_k: usize::MAX, top_p: 0x3F80_0000 }),
    {
        SampleArgs { temperature: 0, top_k: usize::MAX, top_p: 0x3F80_0000 }
    }

    /// These settings, with those replaced that are given anew.
    pub open spec fn replaced(
        self,
        temperature: Option<u32>,
        top_k: Option<usize>,
        top_p: Option<u32>,
    ) -> SampleArgs {
        SampleArgs {
            temperature: match temperature {
                Some(t) => t,
                None => self.temperature,
            },
            top_k: match top_k {
                Some(k) => k,
                None => self.top_k,
            },
            top_p: match top_p {
                Some(p) => p,
                None => self.top_p,
            },
        }
    }

    /// These settings, with those replaced that a request gives anew.
    pub fn overridden(self, temperature: Option<u32>, top_k: Option<usize>, top_p: Option<u32>) -> (args:
        SampleArgs)
        ensures
            args == self.replaced(temperature, top_k, top_p),
    {
        SampleArgs {
            temperature: match temperature {
                Some(t) => t,
                None => self.temperature,
            },
            top_k: match top_k {
                Some(k) => k,
                None => self.top_k,
            },
            top_p: match top_p {
                Some(p) => p,
                None => self.top_p,
            },
        }
    }
}

/// What a session holds.
pub struct SessionView {
    /// The tokens of the dialog.
    pub tokens: Seq<u32>,
    /// For each turn, the number of tokens up to its end.
    pub turn_ends: Seq<usize>,
    /// The number of tokens that the cache covers.
    pub cached: nat,
    /// The cache.
    pub cache: KvCacheView,
    /// The sampling settings.
    pub sample: SampleArgs,
}

/// What happened since the last step of a reply.
#[derive(Clone, Copy, Debug)]
pub enum Event {
    /// The reply is to begin.
    Begin,
    /// The token was sampled from the last pass.
    Sampled(u32),
    /// The token was handed to the receiver.
    Sent(u32),
    /// The receiver is gone.
    Closed,
}

/// What to do next for a reply.
#[derive(Debug)]
pub enum Action {
    /// Run a pass over `tokens`, which come at position `pos`, and sample.
    Forward { pos: usize, tokens: Vec<u32> },
    /// Hand the token to the receiver.
    Emit { token: u32 },
    /// The reply is over.
    Stop,
}

/// An action, with its tokens as a sequence.
pub enum ActionView {
    Forward { pos: nat, tokens: Seq<u32> },
    Emit { token: u32 },
    Stop,
}

impl View for Action {
    type V = ActionView;

    open spec fn view(&self) -> ActionView {
        match *self {
            Action::Forward { pos, tokens } => ActionView::Forward { pos: pos as nat, tokens: tokens@ },
            Action::Emit { token } => ActionView::Emit { token },
            Action::Stop => ActionView::Stop,
        }
    }
}

impl SessionView {
    /// The number of turns so far.
    pub open spec fn dialog_pos(self) -> nat {
        self.turn_ends.len()
    }

    /// The number of tokens in the first `p` turns.
    pub open spec fn turn_boundary(self, p: int) -> int {
        if p <= 0 {
            0
        } else {
            self.turn_ends[p - 1] as int
        }
    }

    /// What holds of every session: turns end one after the other, the
    /// tokens are those of the turns, and the cache covers no more than the
    /// tokens nor than it has room for.
    pub open spec fn wf(self) -> bool {
        &&& forall|i: int, j: int|
            0 <= i <= j < self.turn_ends.len() ==> self.turn_ends[i] <= self.turn_ends[j]
        &&& self.tokens.len() == self.turn_boundary(self.dialog_pos() as int)
        &&& self.cached <= self.tokens.len()
        &&& self.cached <= self.cache.max_seq_len <= usize::MAX
    }

    /// The cache covers every token.
    pub open spec fn settled(self) -> bool {
        self.cached == self.tokens.len()
    }

    /// The session taken back to its first `p` turns.
    pub open spec fn reverted(self, p: int) -> SessionView {
        SessionView {
            tokens: self.tokens.take(self.turn_boundary(p)),
            turn_ends: self.turn_ends.take(p),
            cached: if self.cached <= self.turn_boundary(p) {
                self.cached
            } else {
                self.turn_boundary(p) as nat
            },
            cache: self.cache,
            sample: self.sample,
        }
    }

    /// The session with one more turn.
    pub open spec fn with_turn(self, turn: Seq<u32>) -> SessionView {
        SessionView {
            tokens: self.tokens + turn,
            turn_ends: self.turn_ends.push((self.tokens.len() + turn.len()) as usize),
            cached: self.cached,
            cache: self.cache,
            sample: self.sample,
        }
    }

    /// The session with more turns, one after the other.
    pub open spec fn with_turns(self, turns: Seq<Seq<u32>>) -> SessionView
        decreases turns.len(),
    {
        if turns.len() == 0 {
            self
        } else {
            self.with_turns(turns.drop_last()).with_turn(turns.last())
        }
    }

    /// The tokens of turn `k`.
    pub open spec fn turn(self, k: int) -> Seq<u32> {
        self.tokens.subrange(self.turn_boundary(k), self.turn_boundary(k + 1))
    }

    /// The turns from turn `p` up to turn `q`.
    pub open spec fn turns_between(self, p: int, q: int) -> Seq<Seq<u32>> {
        Seq::new((q - p) as nat, |k: int| self.turn(p + k))
    }

    /// Two sessions with the same dialog, settings and room.
    pub open spec fn same_dialog(self, other: SessionView) -> bool {
        &&& self.tokens == other.tokens
        &&& self.turn_ends == other.turn_ends
        &&& self.cached == other.cached
        &&& self.sample == other.sample
        &&& self.cache.max_seq_len == other.cache.max_seq_len
    }

    /// The tokens that the cache does not cover yet.
    pub open spec fn pending(self) -> Seq<u32> {
        self.tokens.subrange(self.cached as int, self.tokens.len() as int)
    }

    /// A reply can begin: it is the assistant's turn, there are tokens to
    /// run a pass over, and the cache has room for all tokens.
    pub open spec fn can_begin(self) -> bool {
        &&& self.dialog_pos() % 2 == 1
        &&& self.cached < self.tokens.len()
        &&& self.tokens.len() <= self.cache.max_seq_len
    }

    /// One more token can be fed: a turn is open and the cache has room.
    pub open spec fn can_feed(self) -> bool {
        &&& self.dialog_pos() > 0
        &&& self.tokens.len() < self.cache.max_seq_len
    }

    /// The session after a step.
    pub open spec fn after(self, event: Event) -> SessionView {
        match event {
            Event::Begin => if self.can_begin() {
                SessionView {
                    turn_ends: self.turn_ends.push(self.tokens.len() as usize),
                    cached: self.tokens.len(),
                    ..self
                }
            } else {
                self
            },
            Event::Sent(token) => if self.can_feed() {
                SessionView {
                    tokens: self.tokens.push(token),
                    turn_ends: self.turn_ends.update(
                        self.turn_ends.len() - 1,
                        (self.tokens.len() + 1) as usize,
                    ),
                    cached: self.tokens.len() + 1,
                    ..self
                }
            } else {
                self
            },
            Event::Sampled(_) => self,
            Event::Closed => self,
        }
    }

    /// What a step asks for.
    pub open spec fn action(self, event: Event, eos: u32) -> ActionView {
        match event {
            Event::Begin => if self.can_begin() {
                ActionView::Forward { pos: self.cached, tokens: self.pending() }
            } else {
                ActionView::Stop
            },
            Event::Sampled(token) => if token == eos {
                ActionView::Stop
            } else {
                ActionView::Emit { token }
            },
            Event::Sent(token) => if self.can_feed() {
                ActionView::Forward { pos: self.cached, tokens: self.pending().push(token) }
            } else {
                ActionView::Stop
            },
            Event::Closed => ActionView::Stop,
        }
    }
}

/// A copy of a session: the same dialog and settings, and a cache of the
/// same shape that holds the rows of the positions that the cache of the
/// session copied covers, and zeros elsewhere.
pub open spec fn is_fork_of(copy: SessionView, origin: SessionView) -> bool {
    &&& copy.tokens == origin.tokens
    &&& copy.turn_ends == origin.turn_ends
    &&& copy.cached == origin.cached
    &&& copy.sample == origin.sample
    &&& copy.cache.same_shape(origin.cache)
    &&& forall|block: int, t: int|
        0 <= block < origin.cache.blocks() && 0 <= t < origin.cache.max_seq_len
            ==> #[trigger] copy.cache.block_row(block, t) == (if t < origin.cached {
            origin.cache.block_row(block, t)
        } else {
            zero_row(origin.cache.row_len())
        })
}

/// The token sequences held by a vector of turns.
pub open spec fn turn_views(turns: Seq<Vec<u32>>) -> Seq<Seq<u32>> {
    Seq::new(turns.len(), |i: int| turns[i]@)
}

/// A chat session.
#[derive(Debug)]
pub struct Session {
    tokens: Vec<u32>,
    turn_ends: Vec<usize>,
    cached: usize,
    cache: KvCache,
    sample: SampleArgs,
}

impl View for Session {
    type V = SessionView;

    closed spec fn view(&self) -> SessionView {
        SessionView {
            tokens: self.tokens@,
            turn_ends: self.turn_ends@,
            cached: self.cached as nat,
            cache: self.cache@,
            sample: self.sample,
        }
    }
}

impl Session {
    #[verifier::type_invariant]
    pub closed spec fn inv(&self) -> bool {
        self@.wf()
    }

    /// A session without turns over the given cache.
    pub fn new(cache: KvCache) -> (session: Session)
        ensures
            session@.wf(),
            session@.settled(),
            session@.tokens == Seq::<u32>::empty(),
            session@.turn_ends == Seq::<usize>::empty(),
            session@.cached == 0,
            session@.cache == cache@,
            session@.sample == (SampleArgs { temperature: 0, top_k: usize::MAX, top_p: 0x3F80_0000 }),
    {
        let capacity: usize = cache.max_seq_len();
        assert(cache@.max_seq_len == capacity);
        Session {
            tokens: Vec::new(),
            turn_ends: Vec::new(),
            cached: 0,
            cache,
            sample: SampleArgs::new(),
        }
    }

    /// Moves the session out, leaving one without turns or cache behind.
    fn take_out(&mut self) -> (this: Session)
        ensures
            this == *old(self),
    {
        let mut this: Session = Session::new(KvCache::empty());
        core::mem::swap(self, &mut this);
        this
    }

    /// The number of turns so far.
    pub fn dialog_pos(&self) -> (pos: usize)
        ensures
            pos == self@.dialog_pos(),
            self@.wf(),
    {
        proof {
            use_type_invariant(self);
        }
        self.turn_ends.len()
    }

    /// The tokens of the dialog.
    pub fn tokens(&self) -> (tokens: &Vec<u32>)
        ensures
            tokens@ == self@.tokens,
    {
        &self.tokens
    }

    /// The number of tokens that the cache covers.
    pub fn cached(&self) -> (cached: usize)
        ensures
            cached == self@.cached,
            self@.wf(),
    {
        proof {
            use_type_invariant(self);
        }
        self.cached
    }

    /// The cache.
    pub fn cache(&self) -> (cache: &KvCache)
        ensures
            cache@ == self@.cache,
    {
        &self.cache
    }

    /// The sampling settings.
    pub fn sample(&self) -> (args: SampleArgs)
        ensures
            args == self@.sample,
    {
        self.sample
    }

    /// Replaces the sampling settings.
    pub fn set_sample(&mut self, args: SampleArgs)
        ensures
            final(self)@ == (SessionView { sample: args, ..old(self)@ }),
            final(self)@.wf(),
    {
        let this: Session = self.take_out();
        proof {
            use_type_invariant(&this);
        }
        let Session { tokens, turn_ends, cached, cache, sample } = this;
        *self = Session { tokens, turn_ends, cached, cache, sample: args };
    }

    /// Takes the session back to its first `dialog_pos` turns: the tokens of
    /// later turns go, and the cache covers no more than what is left. Fails,
    /// and changes nothing, when there are fewer turns than that.
    pub fn revert(&mut self, dialog_pos: usize) -> (done: Result<(), ()>)
        ensures
            done is Ok <==> dialog_pos <= old(self)@.dialog_pos(),
            done is Ok ==> final(self)@ == old(self)@.reverted(dialog_pos as int),
            done is Err ==> final(self)@ == old(self)@,
            final(self)@.wf(),
            final(self)@.dialog_pos() == (if done is Ok {
                dialog_pos as nat
            } else {
                old(self)@.dialog_pos()
            }),
            old(self)@.settled() ==> final(self)@.settled(),
    {
        proof {
            use_type_invariant(&*self);
        }
        if dialog_pos > self.turn_ends.len() {
            return Err(());
        }
        let Session { tokens, turn_ends, cached, cache, sample } = self.take_out();
        let mut tokens: Vec<u32> = tokens;
        let mut turn_ends: Vec<usize> = turn_ends;
        let boundary: usize = if dialog_pos == 0 {
            0
        } else {
            turn_ends[dialog_pos - 1]
        };
        tokens.truncate(boundary);
        turn_ends.truncate(dialog_pos);
        let cached: usize = if cached > boundary {
            boundary
        } else {
            cached
        };
        *self = Session { tokens, turn_ends, cached, cache, sample };
        Ok(())
    }

    /// Appends one turn that holds the given tokens.
    pub fn push_turn(&mut self, turn: &Vec<u32>)
        ensures
            final(self)@ == old(self)@.with_turn(turn@),
            final(self)@.wf(),
    {
        let this: Session = self.take_out();
        proof {
            use_type_invariant(&this);
        }
        let Session { tokens, turn_ends, cached, cache, sample } = this;
        let ghost before: Seq<u32> = tokens@;
        let mut tokens: Vec<u32> = tokens;
        let mut turn_ends: Vec<usize> = turn_ends;
        let mut i: usize = 0;
        while i < turn.len()
            invariant
                i <= turn@.len(),
                tokens@ == before + turn@.take(i as int),
            decreases turn@.len() - i,
        {
            tokens.push(turn[i]);
            assert(turn@.take(i as int).push(turn@[i as int]) == turn@.take(i as int + 1));
            i += 1;
        }
        assert(turn@.take(i as int) == turn@);
        let end: usize = tokens.len();
        turn_ends.push(end);
        *self = Session { tokens, turn_ends, cached, cache, sample };
    }

    /// Appends the given turns, one after the other.
    pub fn extend(&mut self, turns: &Vec<Vec<u32>>)
        ensures
            final(self)@ == old(self)@.with_turns(turn_views(turns@)),
            final(self)@.wf(),
            final(self)@.dialog_pos() == old(self)@.dialog_pos() + turns@.len(),
    {
        proof {
            use_type_invariant(&*self);
        }
        let ghost all: Seq<Seq<u32>> = turn_views(turns@);
        let mut i: usize = 0;
        assert(all.take(0) == Seq::<Seq<u32>>::empty());
        while i < turns.len()
            invariant
                i <= turns@.len(),
                all == turn_views(turns@),
                self@ == old(self)@.with_turns(all.take(i as int)),
                self@.wf(),
                self@.dialog_pos() == old(self)@.dialog_pos() + i,
            decreases turns@.len() - i,
        {
            self.push_turn(&turns[i]);
            assert(all.take(i as int + 1).drop_last() == all.take(i as int));
            assert(all.take(i as int + 1).last() == turns@[i as int]@);
            i += 1;
        }
        assert(all.take(i as int) == all);
    }

    /// A session of its own with the same dialog and settings. Its cache
    /// holds a copy of the rows that this session's cache covers, and zeros
    /// elsewhere.
    pub fn fork(&self) -> (forked: Session)
        ensures
            forked@.wf(),
            is_fork_of(forked@, self@),
    {
        proof {
            use_type_invariant(self);
        }
        Session {
            tokens: self.tokens.clone(),
            turn_ends: self.turn_ends.clone(),
            cached: self.cached,
            cache: self.cache.duplicate(self.cached),
            sample: self.sample,
        }
    }

    /// Writes the keys and values of this session's query into a layer of
    /// its cache, as `KvCache::store_span` does. The dialog stays.
    pub fn store_kv(
        &mut self,
        layer: usize,
        scratch: &Vec<u8>,
        width: usize,
        col: usize,
        row_begin: usize,
        pos: usize,
        seq_len: usize,
    )
        requires
            layer < old(self)@.cache.nlayers,
            old(self)@.cache.dh > 0,
            old(self)@.cache.elem_size > 0,
            pos + seq_len <= old(self)@.cache.max_seq_len,
            col + 2 * old(self)@.cache.nkvh * old(self)@.cache.dh <= width,
            (row_begin + seq_len) * width * old(self)@.cache.elem_size <= scratch@.len(),
        ensures
            final(self)@ == (SessionView { cache: final(self)@.cache, ..old(self)@ }),
            final(self)@.wf(),
            final(self)@.cache.same_shape(old(self)@.cache),
            forall|b: int, t: int|
                layer * 2 * old(self)@.cache.nkvh <= b < (layer + 1) * 2 * old(self)@.cache.nkvh && pos
                    <= t < pos + seq_len ==> #[trigger] final(self)@.cache.block_row(b, t)
                    == scratch_head(
                    scratch@,
                    width as int,
                    col as int,
                    old(self)@.cache.dh as int,
                    old(self)@.cache.elem_size as int,
                    row_begin + (t - pos),
                    b - layer * 2 * old(self)@.cache.nkvh,
                ),
            forall|b: int, t: int|
                0 <= b < old(self)@.cache.blocks() && 0 <= t < old(self)@.cache.max_seq_len && !(
                layer * 2 * old(self)@.cache.nkvh <= b < (layer + 1) * 2 * old(self)@.cache.nkvh
                    && pos <= t < pos + seq_len) ==> #[trigger] final(self)@.cache.block_row(b, t)
                    == old(self)@.cache.block_row(b, t),
    {
        let this: Session = self.take_out();
        proof {
            use_type_invariant(&this);
        }
        let Session { tokens, turn_ends, cached, cache, sample } = this;
        let mut cache: KvCache = cache;
        cache.store_span(layer, scratch, width, col, row_begin, pos, seq_len);
        *self = Session { tokens, turn_ends, cached, cache, sample };
    }

    /// Takes one step of a reply: given what happened, changes the session
    /// and says what to do next. `eos` is the token that ends a reply.
    ///
    /// A reply begins only at the assistant's turn and only with tokens to
    /// run; it then opens the assistant's turn. Every pass that is asked for
    /// covers all tokens that the cache lacks, and fits the cache. A token
    /// joins the dialog when it is fed back, so the end token and a token
    /// that could not be delivered stay out.
    pub fn step(&mut self, event: Event, eos: u32) -> (action: Action)
        ensures
            final(self)@ == old(self)@.after(event),
            action@ == old(self)@.action(event, eos),
            final(self)@.wf(),
            action@ matches ActionView::Forward { pos, tokens } ==> {
                &&& tokens.len() > 0
                &&& pos + tokens.len() == final(self)@.tokens.len()
                &&& pos + tokens.len() <= final(self)@.cache.max_seq_len
                &&& final(self)@.settled()
            },
    {
        proof {
            use_type_invariant(&*self);
        }
        let len: usize = self.tokens.len();
        let capacity: usize = self.cache.max_seq_len();
        match event {
            Event::Begin => {
                if self.turn_ends.len() % 2 == 1 && self.cached < len && len <= capacity {
                    let pos: usize = self.cached;
                    let pending: Vec<u32> = slice_to_vec(
                        slice_subrange(self.tokens.as_slice(), pos, len),
                    );
                    let Session { tokens, turn_ends, cached, cache, sample } = self.take_out();
                    let mut turn_ends: Vec<usize> = turn_ends;
                    turn_ends.push(len);
                    *self = Session { tokens, turn_ends, cached: len, cache, sample };
                    Action::Forward { pos, tokens: pending }
                } else {
                    Action::Stop
                }
            },
            Event::Sampled(token) => {
                if token == eos {
                    Action::Stop
                } else {
                    Action::Emit { token }
                }
            },
            Event::Sent(token) => {
                if self.turn_ends.len() > 0 && len < capacity {
                    let pos: usize = self.cached;
                    let mut pending: Vec<u32> = slice_to_vec(
                        slice_subrange(self.tokens.as_slice(), pos, len),
                    );
                    pending.push(token);
                    let Session { tokens, turn_ends, cached, cache, sample } = self.take_out();
                    let mut tokens: Vec<u32> = tokens;
                    let mut turn_ends: Vec<usize> = turn_ends;
                    tokens.push(token);
                    let last: usize = turn_ends.len() - 1;
                    turn_ends.set(last, len + 1);
                    *self = Session { tokens, turn_ends, cached: len + 1, cache, sample };
                    Action::Forward { pos, tokens: pending }
                } else {
                    Action::Stop
                }
            },
            Event::Closed => Action::Stop,
        }
    }
}

/// Taking a session back keeps it well formed: it then has `p` turns and
/// the tokens of these turns, and where the cache covered every token
/// before, it covers every token that is left.
pub proof fn lemma_reverted(s: SessionView, p: int)
    requires
        s.wf(),
        0 <= p <= s.dialog_pos(),
    ensures
        s.reverted(p).wf(),
        s.reverted(p).dialog_pos() == p,
        s.reverted(p).tokens.len() == s.turn_boundary(p),
        s.settled() ==> s.reverted(p).settled(),
{
    if p > 0 {
        assert(s.turn_ends[p - 1] <= s.turn_ends[s.turn_ends.len() - 1]);
    }
}

/// Appending a turn keeps a session well formed and adds one turn.
pub proof fn lemma_with_turn(s: SessionView, turn: Seq<u32>)
    requires
        s.wf(),
        s.tokens.len() + turn.len() <= usize::MAX,
    ensures
        s.with_turn(turn).wf(),
        s.with_turn(turn).dialog_pos() == s.dialog_pos() + 1,
{
    let after = s.with_turn(turn);
    assert forall|i: int, j: int| 0 <= i <= j < after.turn_ends.len() implies after.turn_ends[i]
        <= after.turn_ends[j] by {
        if j == s.turn_ends.len() && i < j {
            assert(s.turn_ends[i] <= s.turn_ends[s.turn_ends.len() - 1]);
        }
    }
}

/// Every step keeps a session well formed. A pass that a step asks for has
/// tokens, starts where the cache ends, covers all tokens that the cache
/// lacked, and fits the cache; after it the cache covers every token. A
/// step never leaves the cache behind where it covered every token.
pub proof fn lemma_step(s: SessionView, event: Event, eos: u32)
    requires
        s.wf(),
    ensures
        s.after(event).wf(),
        s.action(event, eos) matches ActionView::Forward { pos, tokens } ==> {
            &&& tokens.len() > 0
            &&& pos == s.cached
            &&& pos + tokens.len() == s.after(event).tokens.len()
            &&& pos + tokens.len() <= s.cache.max_seq_len
            &&& s.after(event).settled()
        },
        s.settled() ==> s.after(event).settled(),
{
    let after = s.after(event);
    match event {
        Event::Begin => {
            if s.can_begin() {
                assert forall|i: int, j: int|
                    0 <= i <= j < after.turn_ends.len() implies after.turn_ends[i]
                    <= after.turn_ends[j] by {
                    if j == s.turn_ends.len() && i < j {
                        assert(s.turn_ends[i] <= s.turn_ends[s.turn_ends.len() - 1]);
                    }
                }
            }
        },
        Event::Sent(token) => {
            if s.can_feed() {
                assert forall|i: int, j: int|
                    0 <= i <= j < after.turn_ends.len() implies after.turn_ends[i]
                    <= after.turn_ends[j] by {
                    if j == s.turn_ends.len() - 1 && i < j {
                        assert(s.turn_ends[i] <= s.turn_ends[j]);
                    }
                }
            }
        },
        _ => {},
    }
}

/// Two sessions with the same dialog take the same steps: they ask for the
/// same action, and have the same dialog afterwards.
pub proof fn lemma_same_steps(a: SessionView, b: SessionView, event: Event, eos: u32)
    requires
        a.same_dialog(b),
    ensures
        a.action(event, eos) == b.action(event, eos),
        a.after(event).same_dialog(b.after(event)),
{
}

/// A copy of a session and the session it was made from take the same
/// steps as long as the same happens to both.
pub proof fn lemma_fork_takes_same_steps(
    copy: SessionView,
    origin: SessionView,
    event: Event,
    eos: u32,
)
    requires
        is_fork_of(copy, origin),
    ensures
        copy.same_dialog(origin),
        copy.action(event, eos) == origin.action(event, eos),
        copy.after(event).same_dialog(origin.after(event)),
{
    lemma_same_steps(copy, origin, event, eos);
}

/// Appending again the turns that were taken back gives the turns up to
/// `q` back: their tokens and where each turn ends.
pub proof fn lemma_reappend(s: SessionView, p: int, q: int)
    requires
        s.wf(),
        0 <= p <= q <= s.dialog_pos(),
    ensures
        s.reverted(p).with_turns(s.turns_between(p, q)).tokens == s.reverted(q).tokens,
        s.reverted(p).with_turns(s.turns_between(p, q)).turn_ends == s.reverted(q).turn_ends,
        s.reverted(p).with_turns(s.turns_between(p, q)).cached == s.reverted(p).cached,
    decreases q - p,
{
    let turns = s.turns_between(p, q);
    if q == p {
        assert(turns.len() == 0);
    } else {
        lemma_reappend(s, p, q - 1);
        assert(turns.drop_last() == s.turns_between(p, q - 1));
        assert(turns.last() == s.turn(q - 1));
        let before = s.reverted(p).with_turns(s.turns_between(p, q - 1));
        let after = before.with_turn(s.turn(q - 1));
        let lo = s.turn_boundary(q - 1);
        let hi = s.turn_boundary(q);
        assert(lo <= hi) by {
            if q - 1 > 0 {
                assert(s.turn_ends[q - 2] <= s.turn_ends[q - 1]);
            }
        }
        assert(hi <= s.tokens.len()) by {
            assert(s.turn_ends[q - 1] <= s.turn_ends[s.turn_ends.len() - 1]);
        }
        assert(after.tokens == s.tokens.take(hi));
        assert(after.turn_ends == s.turn_ends.take(q));
    }
}

/// Taking a session back to `p` turns and appending the turns that were
/// taken back gives back its dialog: the same tokens in the same turns.
pub proof fn lemma_revert_then_extend(s: SessionView, p: int)
    requires
        s.wf(),
        0 <= p <= s.dialog_pos(),
    ensures
        s.reverted(p).with_turns(s.turns_between(p, s.dialog_pos() as int)).tokens == s.tokens,
        s.reverted(p).with_turns(s.turns_between(p, s.dialog_pos() as int)).turn_ends
            == s.turn_ends,
{
    lemma_reappend(s, p, s.dialog_pos() as int);
    assert(s.tokens.take(s.tokens.len() as int) == s.tokens);
    assert(s.turn_ends.take(s.turn_ends.len() as int) == s.turn_ends);
}

} // verus!
