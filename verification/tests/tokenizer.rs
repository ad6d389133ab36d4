use inference_core::piece::decode_piece;
use inference_core::vocab_text::parse_vocab;
use inference_core::vocab_txt::VocabTxt;

fn vocab_text(extra: &[&str]) -> Vec<u8> {
    let mut text = String::new();
    text.push_str("\"<unk>\"\n\"<s>\"\n\"</s>\"\n");
    for b in 0..256u32 {
        text.push_str(&format!("\"<0x{:02X}>\"\n", b));
    }
    for piece in extra {
        text.push_str(&format!("\"{}\"\n", piece));
    }
    text.into_bytes()
}

fn vocab(extra: &[&str]) -> VocabTxt {
    let text = vocab_text(extra);
    assert!(parse_vocab(&text).is_some());
    VocabTxt::new(&text)
}

fn decode_all(vocab: &VocabTxt, tokens: &[u32]) -> Vec<u8> {
    let mut out = Vec::new();
    for &t in tokens {
        out.extend(vocab.decode(t));
    }
    out
}

#[test]
fn byte_fallback_of_alpha() {
    let v = vocab(&["a", "b"]);
    assert_eq!(v.encode("α", false, false), vec![0xCE + 3, 0xB1 + 3]);
    assert_eq!(v.encode("α", false, false), vec![209, 180]);
}

#[test]
fn longest_prefix_wins() {
    let v = vocab(&["foo", "foobar", "ba", "r"]);
    assert_eq!(v.encode("foobar", false, false), vec![260]);
    assert_eq!(v.encode("fooba", false, false), vec![259, 261]);
    assert_eq!(v.encode("foobarr", true, true), vec![1, 260, 262, 2]);
    assert_eq!(v.max_piece_len(), 6);
    assert_eq!(v.vocab_size(), 263);
}

#[test]
fn markers_only_for_empty_text() {
    let v = vocab(&["a"]);
    assert_eq!(v.encode("", false, false), Vec::<u32>::new());
    assert_eq!(v.encode("", true, false), vec![1]);
    assert_eq!(v.encode("", false, true), vec![2]);
    assert_eq!(v.encode("", true, true), vec![1, 2]);
    assert_eq!(v.bos(), 1);
    assert_eq!(v.eos(), 2);
}

#[test]
fn round_trip_through_fallback() {
    let v = vocab(&["he", "hello", " wor", "ld"]);
    let text = "hello world, héllo wörld — 你好 🎉";
    let tokens = v.encode(text, false, false);
    assert_eq!(decode_all(&v, &tokens), text.as_bytes().to_vec());
}

#[test]
fn placeholder_piece_decodes_to_its_byte() {
    let v = vocab(&["x"]);
    // The placeholder of 'A' is itself a piece, so it is matched as text and
    // decoded as the byte it stands for.
    let tokens = v.encode("<0x41>", false, false);
    assert_eq!(tokens, vec![0x41 + 3]);
    assert_eq!(decode_all(&v, &tokens), b"A".to_vec());
}

#[test]
fn decode_piece_forms() {
    assert_eq!(decode_piece(b"<0x0A>"), vec![0x0A]);
    assert_eq!(decode_piece(b"<0xff>"), vec![0xFF]);
    assert_eq!(decode_piece(b"<0xG0>"), b"<0xG0>".to_vec());
    assert_eq!(decode_piece(b"<0x123>"), b"<0x123>".to_vec());
    assert_eq!(decode_piece(b"hello"), b"hello".to_vec());
    assert_eq!(decode_piece(b""), Vec::<u8>::new());
}

#[test]
fn parse_lines_and_endings() {
    let words = parse_vocab(b"\"a\"\r\n\"bc\"\n\"\"\n\"d\"").unwrap();
    assert_eq!(words, vec![b"a".to_vec(), b"bc".to_vec(), b"".to_vec(), b"d".to_vec()]);
    assert_eq!(parse_vocab(b"").unwrap(), Vec::<Vec<u8>>::new());
    assert!(parse_vocab(b"\"a\"\nb\n").is_none());
    assert!(parse_vocab(b"\"\n").is_none());
    assert!(parse_vocab(b"\"a\"\n\n").is_none());
    assert!(parse_vocab(b"\"a\"\r").is_none());
}

#[test]
fn empty_piece_is_never_matched() {
    let text = b"\"\"\n\"a\"\n".to_vec();
    let v = VocabTxt::new(&text);
    assert_eq!(v.encode("ab", false, false), vec![1, b'b' as u32 + 3]);
}

#[test]
fn repeated_piece_takes_last_id() {
    let text = b"\"a\"\n\"b\"\n\"a\"\n".to_vec();
    let v = VocabTxt::new(&text);
    assert_eq!(v.encode("ab", false, false), vec![2, 1]);
}

#[test]
fn byte_fallback_is_checked() {
    assert!(vocab(&["a"]).has_byte_fallback());
    assert!(vocab(&[]).has_byte_fallback());
    let short = VocabTxt::new(b"\"a\"\n\"b\"\n");
    assert!(!short.has_byte_fallback());
    let mut text = vocab_text(&[]);
    // Turn the placeholder of byte 0x10 into that of byte 0x11.
    let at = text.windows(6).position(|w| w == b"<0x10>").unwrap();
    text[at + 4] = b'1';
    assert!(!VocabTxt::new(&text).has_byte_fallback());
    let lower = String::from_utf8(vocab_text(&[])).unwrap().replace("<0xAB>", "<0xab>");
    assert!(VocabTxt::new(lower.as_bytes()).has_byte_fallback());
}

#[test]
fn decode_of_each_kind_of_token() {
    let v = vocab(&["hello"]);
    assert_eq!(v.decode(259), b"hello".to_vec());
    assert_eq!(v.decode(3), vec![0u8]);
    assert_eq!(v.decode(258), vec![255u8]);
    assert_eq!(v.decode(0), b"<unk>".to_vec());
    assert_eq!(v.decode(1), b"<s>".to_vec());
}

#[test]
fn fallback_takes_one_character_at_a_time() {
    let v = vocab(&["b"]);
    // Four bytes, three bytes, two bytes, one byte.
    let tokens = v.encode("🎉你éab", false, false);
    let expected: Vec<u32> = "🎉你éa"
        .bytes()
        .map(|b| b as u32 + 3)
        .chain(std::iter::once(259))
        .collect();
    assert_eq!(tokens, expected);
}
