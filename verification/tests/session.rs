use inference_core::cache::KvCache;
use inference_core::session::{Action, Event, SampleArgs, Session};

const EOS: u32 = 2;

fn session(capacity: usize) -> Session {
    Session::new(KvCache::new(1, 1, capacity, 1, 2).unwrap())
}

fn forward(action: Action) -> (usize, Vec<u32>) {
    match action {
        Action::Forward { pos, tokens } => (pos, tokens),
        other => panic!("expected a pass, got {:?}", other),
    }
}

fn is_stop(action: Action) -> bool {
    matches!(action, Action::Stop)
}

#[test]
fn new_session_is_empty() {
    let s = session(8);
    assert_eq!(s.dialog_pos(), 0);
    assert_eq!(s.cached(), 0);
    assert!(s.tokens().is_empty());
    assert_eq!(s.sample().top_k, usize::MAX);
    assert_eq!(s.cache().max_seq_len(), 8);
}

#[test]
fn reply_step_by_step() {
    let mut s = session(8);
    s.extend(&vec![vec![5, 6, 7]]);
    assert_eq!((s.dialog_pos(), s.cached(), s.tokens().len()), (1, 0, 3));
    assert_eq!(forward(s.step(Event::Begin, EOS)), (0, vec![5, 6, 7]));
    assert_eq!((s.dialog_pos(), s.cached(), s.tokens().len()), (2, 3, 3));
    match s.step(Event::Sampled(9), EOS) {
        Action::Emit { token } => assert_eq!(token, 9),
        other => panic!("{:?}", other),
    }
    assert_eq!(s.tokens(), &vec![5, 6, 7]);
    assert_eq!(forward(s.step(Event::Sent(9), EOS)), (3, vec![9]));
    assert_eq!(s.tokens(), &vec![5, 6, 7, 9]);
    assert_eq!((s.dialog_pos(), s.cached()), (2, 4));
    assert!(is_stop(s.step(Event::Sampled(EOS), EOS)));
    assert_eq!(s.tokens(), &vec![5, 6, 7, 9]);
    assert_eq!(s.cached(), s.tokens().len());
}

#[test]
fn closed_receiver_stops_and_keeps_the_token_out() {
    let mut s = session(8);
    s.extend(&vec![vec![5]]);
    let _ = s.step(Event::Begin, EOS);
    let _ = s.step(Event::Sampled(9), EOS);
    assert!(is_stop(s.step(Event::Closed, EOS)));
    assert_eq!(s.tokens(), &vec![5]);
    assert_eq!((s.dialog_pos(), s.cached()), (2, 1));
}

#[test]
fn reply_stops_when_the_cache_is_full() {
    let mut s = session(3);
    s.extend(&vec![vec![5, 6]]);
    assert_eq!(forward(s.step(Event::Begin, EOS)), (0, vec![5, 6]));
    assert_eq!(forward(s.step(Event::Sent(7), EOS)), (2, vec![7]));
    assert!(is_stop(s.step(Event::Sent(8), EOS)));
    assert_eq!(s.tokens(), &vec![5, 6, 7]);
    assert_eq!(s.cached(), 3);
}

#[test]
fn reply_does_not_begin_out_of_turn() {
    let mut s = session(8);
    assert!(is_stop(s.step(Event::Begin, EOS)));
    s.extend(&vec![vec![5], vec![6]]);
    assert_eq!(s.dialog_pos(), 2);
    assert!(is_stop(s.step(Event::Begin, EOS)));
    assert_eq!((s.dialog_pos(), s.cached(), s.tokens().len()), (2, 0, 2));
    // A token cannot be fed to a session without turns.
    let mut empty = session(8);
    assert!(is_stop(empty.step(Event::Sent(4), EOS)));
    assert!(empty.tokens().is_empty());
}

#[test]
fn reply_does_not_begin_beyond_the_cache() {
    let mut s = session(2);
    s.extend(&vec![vec![5, 6, 7]]);
    assert!(is_stop(s.step(Event::Begin, EOS)));
    assert_eq!((s.dialog_pos(), s.cached()), (1, 0));
}

#[test]
fn revert_truncates_tokens_and_cache() {
    let mut s = session(16);
    s.extend(&vec![vec![1, 2, 3]]);
    let _ = s.step(Event::Begin, EOS);
    let _ = s.step(Event::Sent(4), EOS);
    let _ = s.step(Event::Sent(5), EOS);
    s.extend(&vec![vec![6, 7]]);
    assert_eq!((s.dialog_pos(), s.tokens().len(), s.cached()), (3, 7, 5));
    assert_eq!(s.revert(4), Err(()));
    assert_eq!((s.dialog_pos(), s.tokens().len(), s.cached()), (3, 7, 5));
    assert_eq!(s.revert(3), Ok(()));
    assert_eq!((s.dialog_pos(), s.tokens().len(), s.cached()), (3, 7, 5));
    assert_eq!(s.revert(2), Ok(()));
    assert_eq!((s.dialog_pos(), s.cached()), (2, 5));
    assert_eq!(s.tokens(), &vec![1, 2, 3, 4, 5]);
    assert_eq!(s.revert(1), Ok(()));
    assert_eq!((s.dialog_pos(), s.cached()), (1, 3));
    assert_eq!(s.tokens(), &vec![1, 2, 3]);
    // Every token is covered: there is nothing to run a pass over.
    assert!(is_stop(s.step(Event::Begin, EOS)));
    assert_eq!(s.revert(0), Ok(()));
    assert_eq!((s.dialog_pos(), s.cached(), s.tokens().len()), (0, 0, 0));
}

#[test]
fn revert_then_append_again_restores_the_dialog() {
    let mut s = session(16);
    s.extend(&vec![vec![1, 2], vec![3], vec![], vec![4, 5, 6]]);
    let tokens = s.tokens().clone();
    assert_eq!(s.revert(1), Ok(()));
    s.extend(&vec![vec![3], vec![], vec![4, 5, 6]]);
    assert_eq!(s.tokens(), &tokens);
    assert_eq!(s.dialog_pos(), 4);
    assert_eq!(s.revert(3), Ok(()));
    assert_eq!(s.tokens(), &vec![1, 2, 3]);
}

#[test]
fn fork_copies_dialog_and_covered_rows() {
    let mut s = session(4);
    s.extend(&vec![vec![1, 2]]);
    let _ = s.step(Event::Begin, EOS);
    s.store_kv(0, &vec![11, 12, 21, 22, 31, 32, 41, 42], 2, 0, 0, 0, 2);
    s.set_sample(SampleArgs { temperature: 3, top_k: 4, top_p: 5 });
    let mut f = s.fork();
    assert_eq!(f.tokens(), s.tokens());
    assert_eq!((f.dialog_pos(), f.cached()), (2, 2));
    assert_eq!(f.sample().top_k, 4);
    assert_eq!(f.cache().as_bytes(), s.cache().as_bytes());
    assert_eq!(&s.cache().as_bytes()[..4], &[11, 12, 31, 32]);
    assert_eq!(&s.cache().as_bytes()[8..12], &[21, 22, 41, 42]);
    // The copy goes its own way.
    assert_eq!(forward(f.step(Event::Sent(9), EOS)), (2, vec![9]));
    assert_eq!(forward(s.step(Event::Sent(9), EOS)), (2, vec![9]));
    f.store_kv(0, &vec![1, 1, 1, 1], 2, 0, 0, 2, 1);
    assert_eq!(&s.cache().as_bytes()[4..6], &[0, 0]);
    assert_eq!(&f.cache().as_bytes()[4..6], &[1, 1]);
}

#[test]
fn fork_leaves_uncovered_rows_behind() {
    let mut s = session(4);
    s.store_kv(0, &vec![7, 7, 8, 8], 2, 0, 0, 0, 1);
    assert_eq!(&s.cache().as_bytes()[..2], &[7, 7]);
    let f = s.fork();
    assert_eq!(f.cache().as_bytes(), &vec![0u8; 16]);
}

#[test]
fn settings_are_replaced_where_given() {
    let args = SampleArgs { temperature: 1, top_k: 2, top_p: 3 };
    let same = args.overridden(None, None, None);
    assert_eq!((same.temperature, same.top_k, same.top_p), (1, 2, 3));
    let all = args.overridden(Some(7), Some(8), Some(9));
    assert_eq!((all.temperature, all.top_k, all.top_p), (7, 8, 9));
    let one = args.overridden(None, Some(8), None);
    assert_eq!((one.temperature, one.top_k, one.top_p), (1, 8, 3));
}
