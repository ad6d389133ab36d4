//! The requests that a service answers, and the errors it reports.

use crate::service::Sentence;
use vstd::prelude::*;

verus! {

/// A request to continue a dialog and generate a reply.
#[derive(Debug)]
pub struct Infer {
    /// The messages to append, one turn each.
    pub inputs: Vec<Sentence>,
    /// The session to use; without one, a session for this request alone.
    pub session_id: Option<String>,
    /// The number of turns to keep of the session before appending; zero
    /// without one.
    pub dialog_pos: Option<usize>,
    /// Bits of a new temperature.
    pub temperature: Option<u32>,
    /// A new number of most likely tokens to pick from.
    pub top_k: Option<usize>,
    /// Bits of a new probability mass to pick from.
    pub top_p: Option<u32>,
}

/// A request to copy a session under a new id.
#[derive(Debug)]
pub struct Fork {
    pub session_id: String,
    pub new_session_id: String,
}

/// A request to forget a session.
#[derive(Debug)]
pub struct Drop {
    pub session_id: String,
}

/// The answer to a fork that was made.
#[derive(Clone, Copy, Debug, PartialEq, Eq, Structural)]
pub struct ForkSuccess;

/// The answer to a drop that was made.
#[derive(Clone, Copy, Debug, PartialEq, Eq, Structural)]
pub struct DropSuccess;

/// Why a request was not carried out.
#[derive(Clone, Copy, Debug, PartialEq, Eq, Structural)]
pub enum Error {
    /// No session has the id.
    SessionNotFound,
    /// The session is lent to a running task.
    SessionBusy,
    /// The id of the copy is taken.
    SessionDuplicate,
    /// The session has fewer turns than asked for; it has this many.
    InvalidDialogPos(usize),
}

} // verus!
