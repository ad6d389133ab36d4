use inference_core::cache::KvCache;
use inference_core::decoding::DecodingMeta;
use inference_core::forward::QueryContext;
use inference_core::sample::{sample_args, SampleMeta};
use inference_core::session::{Action, Event, Session};
use inference_core::transformer::{Config, Transformer};

/// Runs the bookkeeping of a chat over a prompt: every pass is laid out,
/// its keys and values are spliced into the cache, and the row to sample
/// from is picked. In place of the numeric kernels, the scratch buffer is
/// filled with the tokens themselves and the next token is read off the
/// picked row.
#[test]
fn test_infer() {
    let prompt: Vec<u32> = vec![
        29966, 29989, 1792, 29989, 29958, 13, 29903, 388, 376, 18567, 29908, 304, 592, 21106,
        29879, 5299, 29989, 465, 22137, 29989, 29958, 13,
    ];
    let model = Transformer::new(Config {
        elem_size: 2,
        nlayers: 2,
        d: 4,
        nh: 2,
        nkvh: 1,
        di: 8,
        max_seq_len: 32,
        voc: 32000,
        bos_token: 1,
        eos_token: 2,
    })
    .unwrap();
    let eos = model.eos_token();
    let mut session = Session::new(model.new_cache());
    session.extend(&vec![prompt.clone()]);

    let mut passes = 0;
    let mut emitted: Vec<u32> = Vec::new();
    let mut action = session.step(Event::Begin, eos);
    loop {
        action = match action {
            Action::Forward { pos, tokens } => {
                passes += 1;
                let queries = vec![QueryContext { pos, seq_len: tokens.len() }];
                let plan = model.forward(&queries).unwrap();
                assert_eq!(plan.nt, tokens.len());
                assert_eq!(plan.pos, (pos..pos + tokens.len()).collect::<Vec<_>>());
                assert_eq!(plan.spans[0].att_len, session.cached());
                assert!(plan.spans[0].att_len <= 32);

                // Each scratch row holds the low byte of its token everywhere.
                let width = plan.d + plan.reusing;
                let mut scratch = vec![0u8; plan.state_bytes];
                for (r, token) in tokens.iter().enumerate() {
                    for b in &mut scratch[r * width * 2..(r + 1) * width * 2] {
                        *b = *token as u8;
                    }
                }
                for layer in 0..2 {
                    session.store_kv(layer, &scratch, width, 2 * plan.d, 0, pos, tokens.len());
                }

                // The row of the last token is the one to sample from.
                let mut hidden: Vec<u8> = Vec::new();
                for token in &tokens {
                    hidden.extend(vec![*token as u8; model.row_bytes()]);
                }
                let decoding = vec![DecodingMeta { num_query: tokens.len(), num_decode: 1 }];
                let (begin, end) = model.decode(&decoding, &mut hidden);
                assert_eq!((begin, end), (tokens.len() - 1, tokens.len()));
                let row = hidden[begin * model.row_bytes()];
                assert_eq!(row, *tokens.last().unwrap() as u8);
                let args = sample_args(&vec![SampleMeta { num_decode: 1, args: session.sample() }]);
                assert_eq!(args.len(), 1);
                assert!(args[0].is_greedy());

                let sampled = if passes < 5 { 1000 + passes as u32 } else { eos };
                session.step(Event::Sampled(sampled), eos)
            },
            Action::Emit { token } => {
                emitted.push(token);
                session.step(Event::Sent(token), eos)
            },
            Action::Stop => break,
        };
    }

    assert_eq!(passes, 5);
    assert_eq!(emitted, vec![1001, 1002, 1003, 1004]);
    let mut expected = prompt.clone();
    expected.extend(&emitted);
    assert_eq!(session.tokens(), &expected);
    assert_eq!(session.dialog_pos(), 2);
    assert_eq!(session.cached(), expected.len());

    // Every covered position of every block holds the row of its token.
    let cache: &KvCache = session.cache();
    let bytes = cache.as_bytes();
    for block in 0..4 {
        for (t, token) in expected.iter().enumerate() {
            let at = (block * 32 + t) * 4;
            assert_eq!(&bytes[at..at + 4], &[*token as u8; 4]);
        }
        for t in expected.len()..32 {
            let at = (block * 32 + t) * 4;
            assert_eq!(&bytes[at..at + 4], &[0u8; 4]);
        }
    }
}
