use inference_core::embed::gather;
use inference_core::forward::QueryContext;
use inference_core::mask::masked_range;
use inference_core::sample::{sample_args, SampleMeta};
use inference_core::session::SampleArgs;
use inference_core::transformer::{Config, Transformer};

fn config() -> Config {
    Config {
        elem_size: 2,
        nlayers: 2,
        d: 8,
        nh: 4,
        nkvh: 2,
        di: 12,
        max_seq_len: 16,
        voc: 10,
        bos_token: 1,
        eos_token: 2,
    }
}

#[test]
fn config_is_checked() {
    assert!(Transformer::new(config()).is_some());
    assert!(Transformer::new(Config { nh: 3, ..config() }).is_none());
    assert!(Transformer::new(Config { nkvh: 3, ..config() }).is_none());
    assert!(Transformer::new(Config { nkvh: 0, ..config() }).is_none());
    assert!(Transformer::new(Config { nh: 0, ..config() }).is_none());
    assert!(Transformer::new(Config { d: 0, ..config() }).is_none());
    assert!(Transformer::new(Config { elem_size: 0, ..config() }).is_none());
    assert!(Transformer::new(Config { max_seq_len: usize::MAX, ..config() }).is_none());
    assert!(Transformer::new(Config { nlayers: 0, ..config() }).is_some());
    let model = Transformer::new(config()).unwrap();
    assert_eq!(model.eos_token(), 2);
    assert_eq!(model.config().d, 8);
    assert_eq!(model.new_cache().as_bytes().len(), 2 * 2 * 2 * 16 * 2 * 2);
}

#[test]
fn plan_of_a_batch() {
    let model = Transformer::new(config()).unwrap();
    let queries = vec![QueryContext { pos: 0, seq_len: 3 }, QueryContext { pos: 5, seq_len: 1 }];
    let plan = model.forward(&queries).unwrap();
    assert_eq!(plan.nt, 4);
    assert_eq!(plan.d, 8);
    assert_eq!(plan.max_seq_len, 3);
    assert_eq!(plan.max_att_len, 6);
    assert_eq!((plan.dh, plan.dkv, plan.head_group), (2, 4, 2));
    assert_eq!(plan.reusing, 24);
    assert_eq!(plan.width, 32);
    assert_eq!((plan.col_q, plan.col_k, plan.col_v), (8, 16, 20));
    assert_eq!((plan.col_gate, plan.col_up), (8, 20));
    assert_eq!(plan.state_bytes, 4 * 32 * 2);
    assert_eq!(plan.q_buf_bytes, 4 * 3 * 2 * 2);
    assert_eq!(plan.att_buf_bytes, 4 * 3 * 6 * 2);
    assert_eq!(plan.pos, vec![0, 1, 2, 5]);
    assert_eq!(plan.spans.len(), 2);
    assert_eq!((plan.spans[0].row_begin, plan.spans[0].pos, plan.spans[0].seq_len), (0, 0, 3));
    assert_eq!(plan.spans[0].att_len, 3);
    assert_eq!((plan.spans[1].row_begin, plan.spans[1].pos, plan.spans[1].seq_len), (3, 5, 1));
    assert_eq!(plan.spans[1].att_len, 6);
    // The rows of the queries add up to the rows of the batch.
    assert_eq!(plan.spans.iter().map(|s| s.seq_len).sum::<usize>(), plan.nt);
    assert!(plan.spans.iter().all(|s| s.att_len == s.pos + s.seq_len && s.att_len <= 16));
}

#[test]
fn reused_width_is_the_wider_of_the_two_uses() {
    let model = Transformer::new(Config { di: 4, ..config() }).unwrap();
    let plan = model.forward(&vec![QueryContext { pos: 0, seq_len: 1 }]).unwrap();
    assert_eq!(plan.reusing, 16);
    assert_eq!(plan.width, 24);
    assert_eq!((plan.col_q, plan.col_k, plan.col_v), (8, 16, 20));
    assert_eq!((plan.col_gate, plan.col_up), (8, 12));
    assert_eq!(plan.state_bytes, 24 * 2);
}

#[test]
fn pass_without_new_tokens_is_empty() {
    let model = Transformer::new(config()).unwrap();
    let plan = model
        .forward(&vec![QueryContext { pos: 4, seq_len: 0 }, QueryContext { pos: 0, seq_len: 0 }])
        .unwrap();
    assert_eq!(plan.nt, 0);
    assert_eq!(plan.state_bytes, 0);
    assert_eq!(plan.q_buf_bytes, 0);
    assert!(plan.pos.is_empty());
    assert_eq!(plan.max_att_len, 4);
    let none = model.forward(&Vec::new()).unwrap();
    assert_eq!((none.nt, none.max_seq_len, none.max_att_len), (0, 0, 0));
    assert!(none.spans.is_empty());
}

#[test]
fn plan_that_does_not_fit() {
    let model = Transformer::new(Config { di: usize::MAX / 2 + 1, ..config() }).unwrap();
    assert!(model.forward(&vec![QueryContext { pos: 0, seq_len: 1 }]).is_none());
    let wide = Transformer::new(Config { di: usize::MAX / 4, ..config() }).unwrap();
    assert!(wide.forward(&vec![QueryContext { pos: 0, seq_len: 4 }]).is_none());
    assert!(wide.forward(&Vec::new()).is_some());
}

#[test]
fn attention_shapes_share_heads_by_group() {
    let model = Transformer::new(config()).unwrap();
    let shapes = model.attention_shapes(3, 6).unwrap();
    assert_eq!(shapes.q_by_head, (4, 3, 2));
    assert_eq!(shapes.q_by_group, (2, 6, 2));
    assert_eq!(shapes.att_by_group, (2, 6, 6));
    assert_eq!(shapes.att_by_head, (4, 3, 6));
    assert!(model.attention_shapes(usize::MAX, 1).is_none());
}

#[test]
fn mask_is_causal() {
    assert_eq!(masked_range(6, 3, 0), (4, 6));
    assert_eq!(masked_range(6, 3, 1), (5, 6));
    assert_eq!(masked_range(6, 3, 2), (6, 6));
    // Rows at adjacent positions: the earlier does not see the later.
    let (begin, end) = masked_range(6, 3, 1);
    let later_position = 6 - 3 + 2;
    assert!((begin..end).contains(&later_position));
    // One position to attend to: nothing is masked.
    assert_eq!(masked_range(1, 1, 0), (1, 1));
}

#[test]
fn gather_copies_rows_of_the_table() {
    let table: Vec<u8> = (0..40).collect();
    let rows = gather(&table, 4, &vec![3, 0, 9, 3]).unwrap();
    assert_eq!(
        rows,
        vec![12, 13, 14, 15, 0, 1, 2, 3, 36, 37, 38, 39, 12, 13, 14, 15]
    );
    assert_eq!(gather(&table, 4, &Vec::new()).unwrap(), Vec::<u8>::new());
}

#[test]
fn token_embed_looks_tokens_up() {
    let model = Transformer::new(config()).unwrap();
    let table: Vec<u8> = (0..160).map(|i| i as u8).collect();
    let embedded = model.token_embed(&table, &vec![9, 1]).unwrap();
    assert_eq!(embedded.len(), 2 * 16);
    assert_eq!(&embedded[..16], &table[144..160]);
    assert_eq!(&embedded[16..], &table[16..32]);
}

#[test]
fn settings_per_decoded_row() {
    let a = SampleArgs { temperature: 0, top_k: 3, top_p: 7 };
    let b = SampleArgs { temperature: 5, top_k: 1, top_p: 9 };
    let rows = sample_args(&vec![
        SampleMeta { num_decode: 2, args: a },
        SampleMeta { num_decode: 0, args: b },
        SampleMeta { num_decode: 1, args: b },
    ]);
    assert_eq!(rows.len(), 3);
    assert_eq!((rows[0].top_k, rows[1].top_k, rows[2].top_k), (3, 3, 1));
    assert_eq!((rows[0].top_p, rows[2].top_p), (7, 9));
    assert!(sample_args(&Vec::new()).is_empty());
}

#[test]
fn greedy_at_no_temperature_or_one_candidate() {
    let args = |t: f32, k: usize| SampleArgs { temperature: t.to_bits(), top_k: k, top_p: 1f32.to_bits() };
    assert!(args(0.0, 50).is_greedy());
    assert!(args(-0.0, 50).is_greedy());
    assert!(args(-1.5, 50).is_greedy());
    assert!(args(f32::NEG_INFINITY, 50).is_greedy());
    assert!(args(0.7, 1).is_greedy());
    assert!(!args(0.7, 50).is_greedy());
    assert!(!args(f32::MIN_POSITIVE, 2).is_greedy());
    assert!(!args(f32::NAN, 2).is_greedy());
    assert!(!args(-f32::NAN, 2).is_greedy());
    assert!(!args(f32::INFINITY, 0).is_greedy());
    assert!(SampleArgs::new().is_greedy());
    assert_eq!(SampleArgs::new().top_p, 1f32.to_bits());
    assert_eq!(SampleArgs::new().top_k, usize::MAX);
}
