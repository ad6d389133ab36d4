use inference_core::cache::KvCache;
use inference_core::forward::{QueryContext, QuerySpan};
use inference_core::transformer::{Config, Transformer};

fn config() -> Config {
    Config {
        elem_size: 2,
        nlayers: 2,
        d: 8,
        nh: 4,
        nkvh: 2,
        di: 12,
        max_seq_len: 4,
        voc: 10,
        bos_token: 1,
        eos_token: 2,
    }
}

fn scratch(len: usize) -> Vec<u8> {
    (0..len).map(|i| (i % 251) as u8).collect()
}

#[test]
fn new_cache_is_zero_and_has_the_shape() {
    let cache = KvCache::new(2, 2, 4, 2, 2).unwrap();
    assert_eq!(cache.as_bytes().len(), 2 * 2 * 2 * 4 * 2 * 2);
    assert!(cache.as_bytes().iter().all(|b| *b == 0));
    assert_eq!((cache.nlayers(), cache.nkvh(), cache.max_seq_len(), cache.dh()), (2, 2, 4, 2));
    assert!(KvCache::new(usize::MAX, 2, 4, 2, 2).is_none());
    assert!(KvCache::new(usize::MAX, 0, 4, 2, 2).is_some());
    assert!(KvCache::new(0, 1, 1, usize::MAX, 2).unwrap().as_bytes().is_empty());
    assert!(KvCache::new(1, 1, 1, usize::MAX, 2).is_none());
    assert!(KvCache::empty().as_bytes().is_empty());
}

#[test]
fn store_row_writes_one_row() {
    let mut cache = KvCache::new(1, 1, 4, 2, 2).unwrap();
    let src = vec![9u8, 8, 7, 6, 5, 4];
    cache.store_row(1, 2, &src, 1);
    let mut expected = vec![0u8; 32];
    expected[(4 + 2) * 4..(4 + 2) * 4 + 4].copy_from_slice(&[8, 7, 6, 5]);
    assert_eq!(cache.as_bytes(), &expected);
}

#[test]
fn duplicate_keeps_the_covered_rows_only() {
    let mut cache = KvCache::new(1, 1, 4, 1, 2).unwrap();
    for block in 0..2 {
        for t in 0..4 {
            cache.store_row(block, t, &vec![(10 * block + t) as u8 + 1; 2], 0);
        }
    }
    let copy = cache.duplicate(3);
    assert_eq!(
        copy.as_bytes(),
        &vec![1, 1, 2, 2, 3, 3, 0, 0, 11, 11, 12, 12, 13, 13, 0, 0]
    );
    assert_eq!(cache.duplicate(0).as_bytes(), &vec![0u8; 16]);
    assert_eq!(cache.duplicate(4).as_bytes(), cache.as_bytes());
    assert_eq!(copy.max_seq_len(), 4);
}

#[test]
fn store_span_splices_keys_and_values() {
    let mut cache = KvCache::new(2, 2, 4, 2, 2).unwrap();
    let width = 32;
    let scratch = scratch(4 * width * 2);
    cache.store_span(1, &scratch, width, 16, 1, 1, 2);
    let bytes = cache.as_bytes();
    for block in 0..8usize {
        for t in 0..4usize {
            let at = (block * 4 + t) * 4;
            let row = &bytes[at..at + 4];
            if block >= 4 && (1..3).contains(&t) {
                let from = ((1 + (t - 1)) * width + 16 + (block - 4) * 2) * 2;
                assert_eq!(row, &scratch[from..from + 4]);
            } else {
                assert_eq!(row, &[0u8; 4]);
            }
        }
    }
    // Keys of head 0 for the first token, and values of head 1 for the second.
    assert_eq!(&bytes[68..72], &[96, 97, 98, 99]);
    assert_eq!(cache.kv_row(1, 0, 0, 1), &[96, 97, 98, 99]);
    assert_eq!(cache.kv_row(1, 1, 1, 2), &[172, 173, 174, 175]);
    assert_eq!(cache.kv_row(0, 1, 1, 2), &[0, 0, 0, 0]);
    assert_eq!(cache.block_row(7, 2), &[172, 173, 174, 175]);
    assert_eq!(cache.block_row(4, 0), &[0, 0, 0, 0]);
    let second_row_values_head1 = (2 * 32 + 16 + 3 * 2) * 2;
    assert_eq!(second_row_values_head1, 172);
    assert_eq!(&bytes[(7 * 4 + 2) * 4..(7 * 4 + 2) * 4 + 4], &[172, 173, 174, 175]);
}

#[test]
fn transformer_store_kv_follows_the_plan() {
    let model = Transformer::new(config()).unwrap();
    let queries = vec![QueryContext { pos: 0, seq_len: 1 }, QueryContext { pos: 1, seq_len: 2 }];
    let plan = model.forward(&queries).unwrap();
    assert_eq!(plan.state_bytes, 3 * 32 * 2);
    let scratch = scratch(plan.state_bytes);
    let mut cache = model.new_cache();
    let span: QuerySpan = plan.spans[1];
    model.store_kv(&mut cache, 0, &scratch, &plan, span);
    let bytes = cache.as_bytes();
    for block in 0..8usize {
        for t in 0..4usize {
            let at = (block * 4 + t) * 4;
            let row = &bytes[at..at + 4];
            if block < 4 && (1..3).contains(&t) {
                let from = ((1 + (t - 1)) * 32 + 16 + block * 2) * 2;
                assert_eq!(row, &scratch[from..from + 4]);
            } else {
                assert_eq!(row, &[0u8; 4]);
            }
        }
    }
    assert_eq!(plan.col_k, 16);
    let copy = model.duplicate_cache(&cache, 2);
    assert_eq!(&copy.as_bytes()[4..8], &bytes[4..8]);
    assert_eq!(&copy.as_bytes()[8..12], &[0u8; 4]);
}
