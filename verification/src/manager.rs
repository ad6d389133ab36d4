//! The registry of sessions of a service, bounded and kept by recency, and
//! the decisions by which a request gets hold of a session.
//!
//! A session is lent to one task at a time: lending empties its slot, and
//! only `restore` fills it again.

use crate::lru_map::{
    lru_cap, lru_contains, lru_entries, lru_get_mut, lru_get_or_insert_mut, lru_new, lru_peek,
    lru_pop, lru_push, lru_unbounded, MAX_CAP,
};
use crate::registry::{
    busy, entries_wf, holds, idle, index_of, inserted, lemma_index_of, lemma_inserted,
    lemma_promoted, lemma_removed, promoted, removed, slot_of, slot_view, Entries,
};
use crate::schemas::{Drop, DropSuccess, Error, Fork, ForkSuccess, Infer};
use crate::service::{fresh_session, tokenized, Service};
use crate::session::{is_fork_of, SampleArgs, Session, SessionView};
use crate::transformer::Config;
use lru::LruCache;
use vstd::prelude::*;

verus! {

/// What a request to infer leads to.
#[derive(Debug)]
pub enum Inference {
    /// A reply is to be generated on the session, which is then restored
    /// under its id, if it has one.
    Run { session_id: Option<String>, session: Session },
    /// Nothing is generated.
    Empty,
}

/// The turns to keep of the session.
pub open spec fn kept_turns(request: Infer) -> nat {
    match request.dialog_pos {
        Some(p) => p as nat,
        None => 0,
    }
}

/// The session on which a request runs, given the session it starts from:
/// the settings replaced that the request gives, and its messages appended.
pub open spec fn prepared(base: SessionView, request: Infer, vocab: Seq<Seq<u8>>) -> SessionView {
    (SessionView {
        sample: base.sample.replaced(request.temperature, request.top_k, request.top_p),
        ..base
    }).with_turns(tokenized(vocab, request.inputs@))
}

/// Using an id twice in a row leaves the entries as using it once, with
/// the later slot.
pub proof fn lemma_promoted_twice(
    entries: Entries,
    cap: nat,
    id: Seq<char>,
    first: Option<SessionView>,
    second: Option<SessionView>,
)
    requires
        entries_wf(entries, cap),
        holds(entries, id),
    ensures
        promoted(promoted(entries, id, first), id, second) == promoted(entries, id, second),
{
    lemma_promoted(entries, cap, id, first);
    let once = promoted(entries, id, first);
    assert(once[0].0 == id);
    lemma_index_of(once, cap, id, 0);
    assert(once.remove(0) == entries.remove(index_of(entries, id)));
}

/// The sessions of a service.
pub struct ServiceManager {
    service: Service,
    pending: LruCache<String, Option<Session>>,
}

impl ServiceManager {
    /// The entries, most recently used first.
    pub closed spec fn entries(&self) -> Entries {
        lru_entries(self.pending)
    }

    /// The most sessions that are kept.
    pub closed spec fn cap(&self) -> nat {
        lru_cap(self.pending)
    }

    /// The hyperparameters of the model.
    pub closed spec fn model(&self) -> Config {
        self.service.model()
    }

    /// The pieces of the tokenizer.
    pub closed spec fn vocab(&self) -> Seq<Seq<u8>> {
        self.service.vocab()
    }

    /// What holds of every manager: no id is registered twice, and the
    /// sessions are no more than the bound, which is at least one.
    pub open spec fn wf(&self) -> bool {
        &&& self.cap() >= 1
        &&& entries_wf(self.entries(), self.cap())
    }

    /// Whether the same service stands behind two states of a manager.
    pub open spec fn same_service(&self, other: &ServiceManager) -> bool {
        &&& self.cap() == other.cap()
        &&& self.model() == other.model()
        &&& self.vocab() == other.vocab()
    }

    /// A manager without sessions that keeps up to `capacity` of them, or
    /// any number. A capacity is at least one, and no more than a registry
    /// can set aside room for.
    pub fn new(service: Service, capacity: Option<usize>) -> (manager: ServiceManager)
        requires
            capacity matches Some(c) ==> 0 < c <= MAX_CAP,
        ensures
            manager.wf(),
            manager.entries() == Entries::empty(),
            manager.cap() == (match capacity {
                Some(c) => c,
                None => usize::MAX,
            }),
            manager.model() == service.model(),
            manager.vocab() == service.vocab(),
    {
        let pending: LruCache<String, Option<Session>> = match capacity {
            Some(c) => lru_new(c),
            None => lru_unbounded(),
        };
        ServiceManager { service, pending }
    }

    /// The service.
    pub fn service(&self) -> (service: &Service)
        ensures
            service.model() == self.model(),
            service.vocab() == self.vocab(),
    {
        &self.service
    }

    /// Whether the id is registered.
    pub fn contains(&self, session_id: &String) -> (found: bool)
        ensures
            found == holds(self.entries(), session_id@),
    {
        lru_contains(&self.pending, session_id)
    }

    /// Whether the id is registered with its session idle.
    pub fn is_idle(&self, session_id: &String) -> (found: bool)
        requires
            self.wf(),
        ensures
            found == idle(self.entries(), session_id@),
    {
        match lru_peek(&self.pending, session_id) {
            Some(slot) => slot.is_some(),
            None => false,
        }
    }

    /// Gets hold of the session for a request and prepares it.
    ///
    /// With an id and no turns to keep, the session of that id is used, or
    /// a new one registered; it is taken back to no turns. With turns to
    /// keep the session must exist and have that many turns. In both cases
    /// the id comes to the front, and the session is lent: its slot is
    /// empty until `restore`. Without an id the request runs on a session
    /// of its own, and only if it keeps no turns and its messages end with
    /// one of the user's, that is, if they are odd in number.
    pub fn infer(&mut self, request: Infer) -> (started: Result<Inference, Error>)
        requires
            old(self).wf(),
        ensures
            final(self).wf(),
            final(self).same_service(old(self)),
            // Without an id.
            request.session_id is None && kept_turns(request) > 0 ==> started == Err::<Inference, Error>(
                Error::InvalidDialogPos(0),
            ),
            request.session_id is None && kept_turns(request) == 0 && request.inputs@.len() % 2 == 0
                ==> started matches Ok(Inference::Empty),
            request.session_id is None && kept_turns(request) == 0 && request.inputs@.len() % 2 == 1
                ==> {
                &&& started matches Ok(Inference::Run { session_id, session })
                &&& session_id is None
                &&& session@ == prepared(
                    fresh_session(old(self).model()),
                    request,
                    old(self).vocab(),
                )
            },
            request.session_id is None ==> final(self).entries() == old(self).entries(),
            // With an id that is not registered.
            request.session_id matches Some(id) ==> !holds(old(self).entries(), id@) ==> {
                if kept_turns(request) > 0 {
                    &&& started == Err::<Inference, Error>(Error::SessionNotFound)
                    &&& final(self).entries() == old(self).entries()
                } else {
                    &&& started matches Ok(Inference::Run { session_id, session })
                    &&& session_id matches Some(lent)
                    &&& lent@ == id@
                    &&& session@ == prepared(
                        fresh_session(old(self).model()),
                        request,
                        old(self).vocab(),
                    )
                    &&& final(self).entries() == inserted(
                        old(self).entries(),
                        old(self).cap(),
                        id@,
                        None,
                    )
                }
            },
            // With an id whose session is lent.
            request.session_id matches Some(id) ==> busy(old(self).entries(), id@) ==> {
                &&& started == Err::<Inference, Error>(Error::SessionBusy)
                &&& final(self).entries() == promoted(old(self).entries(), id@, None)
            },
            // With an id whose session is idle.
            request.session_id matches Some(id) ==> idle(old(self).entries(), id@) ==> {
                let origin = slot_of(old(self).entries(), id@).unwrap();
                if kept_turns(request) > origin.dialog_pos() {
                    &&& started == Err::<Inference, Error>(
                        Error::InvalidDialogPos(origin.dialog_pos() as usize),
                    )
                    &&& final(self).entries() == promoted(old(self).entries(), id@, Some(origin))
                } else {
                    &&& started matches Ok(Inference::Run { session_id, session })
                    &&& session_id matches Some(lent)
                    &&& lent@ == id@
                    &&& session@ == prepared(
                        origin.reverted(kept_turns(request) as int),
                        request,
                        old(self).vocab(),
                    )
                    &&& final(self).entries() == promoted(old(self).entries(), id@, None)
                }
            },
            // A session that is lent is lent to the caller alone.
            request.session_id matches Some(id) ==> started is Ok ==> busy(final(self).entries(), id@),
    {
        let keep: usize = match request.dialog_pos {
            Some(p) => p,
            None => 0,
        };
        match &request.session_id {
            None => {
                if keep > 0 {
                    Err(Error::InvalidDialogPos(0))
                } else if request.inputs.len() % 2 == 1 {
                    let fresh: Session = self.service.launch();
                    let session: Session = self.prepare(fresh, &request);
                    Ok(Inference::Run { session_id: None, session })
                } else {
                    Ok(Inference::Empty)
                }
            },
            Some(id) => {
                match self.acquire(id, keep) {
                    Ok(base) => {
                        let session: Session = self.prepare(base, &request);
                        Ok(Inference::Run { session_id: Some(id.clone()), session })
                    },
                    Err(error) => Err(error),
                }
            },
        }
    }

    /// Applies a request to the session it starts from: replaces the
    /// settings that the request gives and appends its messages.
    fn prepare(&self, session: Session, request: &Infer) -> (ready: Session)
        ensures
            ready@ == prepared(session@, *request, self.vocab()),
            ready@.wf(),
    {
        let mut session: Session = session;
        let turns: Vec<Vec<u32>> = self.service.tokenize(&request.inputs);
        let args: SampleArgs = session.sample().overridden(
            request.temperature,
            request.top_k,
            request.top_p,
        );
        session.set_sample(args);
        session.extend(&turns);
        session
    }

    /// Borrows the session of an id and takes it back to `keep` turns. With
    /// no turns to keep, an id that is not registered gets a new session.
    fn acquire(&mut self, id: &String, keep: usize) -> (lent: Result<Session, Error>)
        requires
            old(self).wf(),
        ensures
            final(self).wf(),
            final(self).same_service(old(self)),
            !holds(old(self).entries(), id@) ==> {
                if keep > 0 {
                    &&& lent == Err::<Session, Error>(Error::SessionNotFound)
                    &&& final(self).entries() == old(self).entries()
                } else {
                    &&& lent matches Ok(session)
                    &&& session@ == fresh_session(old(self).model())
                    &&& final(self).entries() == inserted(
                        old(self).entries(),
                        old(self).cap(),
                        id@,
                        None,
                    )
                }
            },
            busy(old(self).entries(), id@) ==> {
                &&& lent == Err::<Session, Error>(Error::SessionBusy)
                &&& final(self).entries() == promoted(old(self).entries(), id@, None)
            },
            idle(old(self).entries(), id@) ==> {
                let origin = slot_of(old(self).entries(), id@).unwrap();
                if keep > origin.dialog_pos() {
                    &&& lent == Err::<Session, Error>(
                        Error::InvalidDialogPos(origin.dialog_pos() as usize),
                    )
                    &&& final(self).entries() == promoted(old(self).entries(), id@, Some(origin))
                } else {
                    &&& lent matches Ok(session)
                    &&& session@ == origin.reverted(keep as int)
                    &&& final(self).entries() == promoted(old(self).entries(), id@, None)
                }
            },
            lent is Ok ==> busy(final(self).entries(), id@),
    {
        let ghost before: Entries = self.entries();
        let ghost cap: nat = self.cap();
        let taken: Option<Session> = if keep == 0 {
            let slot: &mut Option<Session> = lru_get_or_insert_mut(
                &mut self.pending,
                id.clone(),
                &self.service,
            );
            slot.take()
        } else {
            match lru_get_mut(&mut self.pending, id) {
                Some(slot) => slot.take(),
                None => {
                    return Err(Error::SessionNotFound);
                },
            }
        };
        proof {
            if holds(before, id@) {
                lemma_promoted(before, cap, id@, None);
            } else {
                lemma_inserted(before, cap, id@, None);
            }
        }
        let mut session: Session = match taken {
            Some(session) => session,
            None => {
                return Err(Error::SessionBusy);
            },
        };
        let ghost origin: SessionView = session@;
        if session.revert(keep).is_err() {
            let current: usize = session.dialog_pos();
            proof {
                lemma_promoted_twice(before, cap, id@, None, Some(origin));
                lemma_promoted(before, cap, id@, Some(origin));
            }
            self.restore(id.clone(), session);
            return Err(Error::InvalidDialogPos(current));
        }
        proof {
            if !holds(before, id@) {
                assert(origin.tokens.take(0) =~= origin.tokens);
                assert(origin.turn_ends.take(0) =~= origin.turn_ends);
                assert(session@ == origin);
            }
        }
        Ok(session)
    }

    /// Puts a session back into the slot of its id, where the id is still
    /// registered; the id comes to the front. A session whose id is gone is
    /// dropped.
    pub fn restore(&mut self, session_id: String, session: Session)
        requires
            old(self).wf(),
            !idle(old(self).entries(), session_id@),
        ensures
            final(self).wf(),
            final(self).same_service(old(self)),
            final(self).entries() == (if holds(old(self).entries(), session_id@) {
                promoted(old(self).entries(), session_id@, Some(session@))
            } else {
                old(self).entries()
            }),
            holds(old(self).entries(), session_id@) ==> idle(final(self).entries(), session_id@),
    {
        proof {
            if holds(self.entries(), session_id@) {
                lemma_promoted(self.entries(), self.cap(), session_id@, Some(session@));
            }
        }
        match lru_get_mut(&mut self.pending, &session_id) {
            Some(slot) => {
                *slot = Some(session);
            },
            None => {},
        }
    }

    /// Registers a copy of an idle session under a new id, which comes to
    /// the front. The session copied comes second. A full registry loses
    /// its least recently used entry.
    pub fn fork(&mut self, request: Fork) -> (forked: Result<ForkSuccess, Error>)
        requires
            old(self).wf(),
        ensures
            final(self).wf(),
            final(self).same_service(old(self)),
            holds(old(self).entries(), request.new_session_id@) ==> {
                &&& forked == Err::<ForkSuccess, Error>(Error::SessionDuplicate)
                &&& final(self).entries() == old(self).entries()
            },
            !holds(old(self).entries(), request.new_session_id@) && !holds(
                old(self).entries(),
                request.session_id@,
            ) ==> {
                &&& forked == Err::<ForkSuccess, Error>(Error::SessionNotFound)
                &&& final(self).entries() == old(self).entries()
            },
            !holds(old(self).entries(), request.new_session_id@) && busy(
                old(self).entries(),
                request.session_id@,
            ) ==> {
                &&& forked == Err::<ForkSuccess, Error>(Error::SessionBusy)
                &&& final(self).entries() == promoted(old(self).entries(), request.session_id@, None)
            },
            !holds(old(self).entries(), request.new_session_id@) && idle(
                old(self).entries(),
                request.session_id@,
            ) ==> {
                let origin = slot_of(old(self).entries(), request.session_id@);
                &&& forked == Ok::<ForkSuccess, Error>(ForkSuccess)
                &&& final(self).entries().len() > 0
                &&& final(self).entries()[0].1 matches Some(copy)
                &&& is_fork_of(copy, origin.unwrap())
                &&& final(self).entries() == inserted(
                    promoted(old(self).entries(), request.session_id@, origin),
                    old(self).cap(),
                    request.new_session_id@,
                    Some(copy),
                )
            },
    {
        let ghost before: Entries = self.entries();
        let ghost cap: nat = self.cap();
        if lru_contains(&self.pending, &request.new_session_id) {
            return Err(Error::SessionDuplicate);
        }
        let copy: Session = match lru_get_mut(&mut self.pending, &request.session_id) {
            None => {
                return Err(Error::SessionNotFound);
            },
            Some(slot) => {
                proof {
                    lemma_promoted(before, cap, request.session_id@, slot_view(*slot));
                }
                match slot.as_ref() {
                    None => {
                        return Err(Error::SessionBusy);
                    },
                    Some(session) => session.fork(),
                }
            },
        };
        proof {
            let origin = slot_of(before, request.session_id@);
            let mid = promoted(before, request.session_id@, origin);
            if request.new_session_id@ != request.session_id@ {
                assert(!holds(mid, request.new_session_id@));
            }
            lemma_inserted(mid, cap, request.new_session_id@, Some(copy@));
            assert(inserted(mid, cap, request.new_session_id@, Some(copy@))[0].1 == Some(copy@));
        }
        let _ = lru_push(&mut self.pending, request.new_session_id, Some(copy));
        Ok(ForkSuccess)
    }

    /// Forgets a session, idle or lent.
    pub fn drop_(&mut self, request: Drop) -> (dropped: Result<DropSuccess, Error>)
        requires
            old(self).wf(),
        ensures
            final(self).wf(),
            final(self).same_service(old(self)),
            holds(old(self).entries(), request.session_id@) ==> {
                &&& dropped == Ok::<DropSuccess, Error>(DropSuccess)
                &&& final(self).entries() == removed(old(self).entries(), request.session_id@)
                &&& !holds(final(self).entries(), request.session_id@)
            },
            !holds(old(self).entries(), request.session_id@) ==> {
                &&& dropped == Err::<DropSuccess, Error>(Error::SessionNotFound)
                &&& final(self).entries() == old(self).entries()
            },
    {
        proof {
            if holds(self.entries(), request.session_id@) {
                lemma_removed(self.entries(), self.cap(), request.session_id@);
            }
        }
        match lru_pop(&mut self.pending, &request.session_id) {
            Some(_) => Ok(DropSuccess),
            None => Err(Error::SessionNotFound),
        }
    }
}

} // verus!
