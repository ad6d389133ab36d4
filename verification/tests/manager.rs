use inference_core::manager::{Inference, ServiceManager};
use inference_core::schemas::{Drop, DropSuccess, Error, Fork, ForkSuccess, Infer};
use inference_core::service::{Sentence, Service};
use inference_core::session::{Action, Event, Session};
use inference_core::transformer::{Config, Transformer};
use inference_core::vocab_txt::VocabTxt;

fn service() -> Service {
    let mut text = String::from("\"<unk>\"\n\"<s>\"\n\"</s>\"\n");
    for b in 0..256u32 {
        text.push_str(&format!("\"<0x{:02X}>\"\n", b));
    }
    text.push_str("\"Hi\"\n\"Hello\"\n");
    let model = Transformer::new(Config {
        elem_size: 2,
        nlayers: 1,
        d: 4,
        nh: 2,
        nkvh: 1,
        di: 8,
        max_seq_len: 32,
        voc: 261,
        bos_token: 1,
        eos_token: 2,
    })
    .unwrap();
    Service::new(model, VocabTxt::new(text.as_bytes()))
}

fn manager(capacity: Option<usize>) -> ServiceManager {
    ServiceManager::new(service(), capacity)
}

fn user(content: &str) -> Sentence {
    Sentence { role: String::from("user"), content: String::from(content) }
}

fn request(id: Option<&str>, dialog_pos: Option<usize>, inputs: Vec<Sentence>) -> Infer {
    Infer {
        inputs,
        session_id: id.map(String::from),
        dialog_pos,
        temperature: None,
        top_k: None,
        top_p: None,
    }
}

fn run(started: Result<Inference, Error>) -> (Option<String>, Session) {
    match started {
        Ok(Inference::Run { session_id, session }) => (session_id, session),
        other => panic!("expected a session to run, got {:?}", other),
    }
}

fn error(started: Result<Inference, Error>) -> Error {
    match started {
        Err(error) => error,
        Ok(other) => panic!("expected an error, got {:?}", other),
    }
}

fn id(name: &str) -> String {
    String::from(name)
}

/// Generates a reply of the given tokens and hands the session back.
fn reply(m: &mut ServiceManager, session_id: Option<String>, mut session: Session, reply: &[u32]) {
    let mut action = session.step(Event::Begin, 2);
    let mut next = reply.iter();
    loop {
        action = match action {
            Action::Forward { .. } => match next.next() {
                Some(token) => session.step(Event::Sampled(*token), 2),
                None => session.step(Event::Sampled(2), 2),
            },
            Action::Emit { token } => session.step(Event::Sent(token), 2),
            Action::Stop => break,
        };
    }
    if let Some(session_id) = session_id {
        assert!(!m.is_idle(&session_id));
        m.restore(session_id, session);
    }
}

#[test]
fn infer_with_id_creates_and_lends_the_session() {
    let mut m = manager(None);
    assert!(!m.contains(&id("s1")));
    let (session_id, session) = run(m.infer(request(Some("s1"), None, vec![user("Hi")])));
    assert_eq!(session_id, Some(id("s1")));
    assert_eq!(session.tokens(), &vec![259]);
    assert_eq!(session.dialog_pos(), 1);
    assert_eq!(session.cached(), 0);
    assert!(m.contains(&id("s1")));
    assert!(!m.is_idle(&id("s1")));
}

#[test]
fn session_busy_while_lent() {
    let mut m = manager(None);
    let (session_id, session) = run(m.infer(request(Some("s1"), Some(0), vec![user("Hi")])));
    assert_eq!(error(m.infer(request(Some("s1"), Some(0), vec![user("Hi")]))), Error::SessionBusy);
    assert_eq!(error(m.infer(request(Some("s1"), Some(1), vec![user("Hi")]))), Error::SessionBusy);
    assert_eq!(
        m.fork(Fork { session_id: id("s1"), new_session_id: id("s2") }),
        Err(Error::SessionBusy)
    );
    assert!(!m.contains(&id("s2")));
    m.restore(session_id.unwrap(), session);
    assert!(m.is_idle(&id("s1")));
    let (_, again) = run(m.infer(request(Some("s1"), Some(1), vec![])));
    assert_eq!(again.tokens(), &vec![259]);
}

#[test]
fn infer_without_id() {
    let mut m = manager(None);
    assert!(matches!(m.infer(request(None, None, vec![])), Ok(Inference::Empty)));
    assert!(matches!(m.infer(request(None, Some(0), vec![])), Ok(Inference::Empty)));
    assert!(matches!(
        m.infer(request(None, None, vec![user("Hi"), user("Hello")])),
        Ok(Inference::Empty)
    ));
    let (session_id, session) =
        run(m.infer(request(None, None, vec![user("Hi"), user("Hello"), user("Hi")])));
    assert_eq!(session_id, None);
    assert_eq!(session.tokens(), &vec![259, 260, 259]);
    assert_eq!(session.dialog_pos(), 3);
    assert_eq!(error(m.infer(request(None, Some(1), vec![user("Hi")]))), Error::InvalidDialogPos(0));
    assert_eq!(error(m.infer(request(None, Some(7), vec![]))), Error::InvalidDialogPos(0));
}

#[test]
fn infer_with_turns_to_keep() {
    let mut m = manager(None);
    assert_eq!(error(m.infer(request(Some("s1"), Some(1), vec![user("Hi")]))), Error::SessionNotFound);
    assert!(!m.contains(&id("s1")));
    let (session_id, session) = run(m.infer(request(Some("s1"), None, vec![user("Hi")])));
    reply(&mut m, session_id, session, &[70, 71]);
    assert!(m.is_idle(&id("s1")));

    assert_eq!(
        error(m.infer(request(Some("s1"), Some(3), vec![user("Hi")]))),
        Error::InvalidDialogPos(2)
    );
    // The session went back into its slot.
    assert!(m.is_idle(&id("s1")));

    let (_, session) = run(m.infer(request(Some("s1"), Some(2), vec![user("Hello")])));
    assert_eq!(session.tokens(), &vec![259, 70, 71, 260]);
    assert_eq!((session.dialog_pos(), session.cached()), (3, 3));
    m.restore(id("s1"), session);

    let (_, session) = run(m.infer(request(Some("s1"), Some(1), vec![])));
    assert_eq!(session.tokens(), &vec![259]);
    assert_eq!((session.dialog_pos(), session.cached()), (1, 1));
    m.restore(id("s1"), session);

    // Without turns to keep the session starts over.
    let (_, session) = run(m.infer(request(Some("s1"), None, vec![user("Hello")])));
    assert_eq!(session.tokens(), &vec![260]);
    assert_eq!((session.dialog_pos(), session.cached()), (1, 0));
}

#[test]
fn greedy_repeatability_of_the_prompt() {
    let mut m = manager(None);
    let (session_id, session) = run(m.infer(request(Some("s1"), Some(0), vec![user("Hi")])));
    let first = session.tokens().clone();
    reply(&mut m, session_id, session, &[70, 71, 72]);
    let (_, session) = run(m.infer(request(Some("s1"), Some(0), vec![user("Hi")])));
    assert_eq!(session.tokens(), &first);
    assert_eq!((session.dialog_pos(), session.cached()), (1, 0));
}

#[test]
fn request_replaces_settings() {
    let mut m = manager(None);
    let mut r = request(Some("s1"), None, vec![user("Hi")]);
    r.temperature = Some(0.5f32.to_bits());
    r.top_k = Some(40);
    let (session_id, session) = run(m.infer(r));
    assert_eq!(session.sample().temperature, 0.5f32.to_bits());
    assert_eq!(session.sample().top_k, 40);
    assert_eq!(session.sample().top_p, 1f32.to_bits());
    m.restore(session_id.unwrap(), session);
    let mut r = request(Some("s1"), Some(1), vec![]);
    r.top_p = Some(0.9f32.to_bits());
    let (_, session) = run(m.infer(r));
    assert_eq!(session.sample().temperature, 0.5f32.to_bits());
    assert_eq!(session.sample().top_k, 40);
    assert_eq!(session.sample().top_p, 0.9f32.to_bits());
}

#[test]
fn fork_makes_an_independent_copy() {
    let mut m = manager(None);
    let (session_id, session) = run(m.infer(request(Some("s1"), None, vec![user("Hi")])));
    reply(&mut m, session_id, session, &[70]);
    assert_eq!(m.fork(Fork { session_id: id("s1"), new_session_id: id("s2") }), Ok(ForkSuccess));
    assert!(m.is_idle(&id("s1")));
    assert!(m.is_idle(&id("s2")));
    assert_eq!(
        m.fork(Fork { session_id: id("s1"), new_session_id: id("s2") }),
        Err(Error::SessionDuplicate)
    );
    assert_eq!(
        m.fork(Fork { session_id: id("s1"), new_session_id: id("s1") }),
        Err(Error::SessionDuplicate)
    );
    assert_eq!(
        m.fork(Fork { session_id: id("nobody"), new_session_id: id("s3") }),
        Err(Error::SessionNotFound)
    );
    assert_eq!(
        m.fork(Fork { session_id: id("nobody"), new_session_id: id("nobody") }),
        Err(Error::SessionNotFound)
    );

    // A different prompt on the copy leaves the first session as it was.
    let (session_id, session) = run(m.infer(request(Some("s2"), Some(2), vec![user("Hello")])));
    assert_eq!(session.tokens(), &vec![259, 70, 260]);
    reply(&mut m, session_id, session, &[80, 81]);
    let (_, first) = run(m.infer(request(Some("s1"), Some(2), vec![])));
    assert_eq!(first.tokens(), &vec![259, 70]);
    assert_eq!((first.dialog_pos(), first.cached()), (2, 2));
    let (_, copy) = run(m.infer(request(Some("s2"), Some(4), vec![])));
    assert_eq!(copy.tokens(), &vec![259, 70, 260, 80, 81]);
}

#[test]
fn drop_forgets_a_session() {
    let mut m = manager(None);
    assert_eq!(m.drop_(Drop { session_id: id("s1") }), Err(Error::SessionNotFound));
    let (session_id, session) = run(m.infer(request(Some("s1"), None, vec![user("Hi")])));
    // A lent session can be dropped; handing it back then does nothing.
    assert_eq!(m.drop_(Drop { session_id: id("s1") }), Ok(DropSuccess));
    assert!(!m.contains(&id("s1")));
    m.restore(session_id.unwrap(), session);
    assert!(!m.contains(&id("s1")));
    assert_eq!(m.drop_(Drop { session_id: id("s1") }), Err(Error::SessionNotFound));
}

#[test]
fn least_recently_used_session_is_dropped_when_full() {
    let mut m = manager(Some(2));
    for name in ["a", "b"] {
        let (session_id, session) = run(m.infer(request(Some(name), None, vec![user("Hi")])));
        m.restore(session_id.unwrap(), session);
    }
    // Using `a` makes `b` the least recently used.
    let (session_id, session) = run(m.infer(request(Some("a"), Some(1), vec![])));
    m.restore(session_id.unwrap(), session);
    let _ = run(m.infer(request(Some("c"), None, vec![user("Hi")])));
    assert!(m.contains(&id("a")));
    assert!(!m.contains(&id("b")));
    assert!(m.contains(&id("c")));
    // A fork into a full registry drops the least recently used, here `c`.
    assert_eq!(m.fork(Fork { session_id: id("a"), new_session_id: id("d") }), Ok(ForkSuccess));
    assert!(m.contains(&id("a")));
    assert!(!m.contains(&id("c")));
    assert!(m.is_idle(&id("d")));
}

#[test]
fn fork_into_a_registry_of_one_drops_the_source() {
    let mut m = manager(Some(1));
    let (session_id, session) = run(m.infer(request(Some("a"), None, vec![user("Hi")])));
    m.restore(session_id.unwrap(), session);
    assert_eq!(m.fork(Fork { session_id: id("a"), new_session_id: id("b") }), Ok(ForkSuccess));
    assert!(!m.contains(&id("a")));
    assert!(m.is_idle(&id("b")));
}

#[test]
fn messages_are_tokenized_with_byte_fallback() {
    let m = manager(None);
    let turns = m.service().tokenize(&vec![user("Hiα"), user("")]);
    assert_eq!(turns, vec![vec![259, 0xCE + 3, 0xB1 + 3], vec![]]);
    let session = m.service().launch();
    assert_eq!((session.dialog_pos(), session.cached()), (0, 0));
    assert_eq!(session.cache().max_seq_len(), 32);
    assert_eq!(m.service().transformer().eos_token(), 2);
    assert_eq!(m.service().tokenizer().vocab_size(), 261);
}
