use inference_core::decoding::{compact_rows, DecodingMeta};
use inference_core::transformer::{Config, Transformer};

fn buffer(rows: usize, row_len: usize) -> Vec<u8> {
    let mut buf = Vec::new();
    for r in 0..rows {
        for _ in 0..row_len {
            buf.push(r as u8);
        }
    }
    buf
}

fn meta(num_query: usize, num_decode: usize) -> DecodingMeta {
    DecodingMeta { num_query, num_decode }
}

fn rows_of(buf: &[u8], row_len: usize, begin: usize, end: usize) -> Vec<u8> {
    (begin..end).map(|r| buf[r * row_len]).collect()
}

#[test]
fn gathers_last_rows_of_each_query() {
    let mut buf = buffer(6, 2);
    let range = compact_rows(&mut buf, 2, &vec![meta(2, 1), meta(3, 0), meta(1, 1)]);
    assert_eq!(range, (1, 3));
    assert_eq!(&buf[2..6], &[1, 1, 5, 5]);
    assert_eq!(buf.len(), 12);
}

#[test]
fn rows_in_place_are_not_moved() {
    let mut buf = buffer(5, 3);
    let before = buf.clone();
    let range = compact_rows(&mut buf, 3, &vec![meta(3, 0), meta(2, 2)]);
    assert_eq!(range, (3, 5));
    assert_eq!(buf, before);
}

#[test]
fn nothing_decoded_gives_an_empty_run() {
    let mut buf = buffer(3, 2);
    assert_eq!(compact_rows(&mut buf, 2, &vec![meta(2, 0), meta(1, 0)]), (3, 3));
    let mut none: Vec<u8> = Vec::new();
    assert_eq!(compact_rows(&mut none, 2, &Vec::new()), (0, 0));
}

#[test]
fn several_rows_per_query_keep_their_order() {
    let mut buf = buffer(6, 1);
    let range = compact_rows(&mut buf, 1, &vec![meta(2, 2), meta(2, 1), meta(2, 2)]);
    assert_eq!(range, (0, 5));
    assert_eq!(rows_of(&buf, 1, 0, 5), vec![0, 1, 3, 4, 5]);
}

#[test]
fn one_row_per_query() {
    let mut buf = buffer(9, 4);
    let range = compact_rows(&mut buf, 4, &vec![meta(4, 1), meta(1, 1), meta(4, 1)]);
    assert_eq!(range, (3, 6));
    assert_eq!(rows_of(&buf, 4, 3, 6), vec![3, 4, 8]);
}

#[test]
fn transformer_decode_uses_the_row_of_the_hidden_state() {
    let model = Transformer::new(Config {
        elem_size: 2,
        nlayers: 1,
        d: 4,
        nh: 2,
        nkvh: 1,
        di: 8,
        max_seq_len: 8,
        voc: 16,
        bos_token: 1,
        eos_token: 2,
    })
    .unwrap();
    assert_eq!(model.row_bytes(), 8);
    let mut hidden = buffer(5, 8);
    let range = model.decode(&vec![meta(3, 1), meta(2, 1)], &mut hidden);
    assert_eq!(range, (2, 4));
    assert_eq!(rows_of(&hidden, 8, 2, 4), vec![2, 4]);
}
