//! A tokenizer over a plain vocabulary: greedy longest-prefix matching of
//! pieces, with a fallback that spells an unmatched character byte by byte.

use crate::piece::{decode_piece, piece_bytes, placeholder_byte, placeholder_value};
use crate::trie::{trie_entries, trie_insert, trie_longest_prefix, trie_new};
use crate::vocab_text::{lines, max_pieces, parse_vocab, piece_views, pieces, well_formed};
use patricia_tree::PatriciaMap;
use vstd::prelude::*;
use vstd::slice::slice_subrange;
use vstd::string::StringSliceAdditionalSpecFns;
use vstd::utf8::{length_of_first_scalar, pop_first_scalar, valid_utf8};

verus! {

/// Token id of the unknown token.
pub const UNK: u32 = 0;

/// Token id that begins a sequence.
pub const BOS: u32 = 1;

/// Token id that ends a sequence.
pub const EOS: u32 = 2;

/// The first of the 256 ids that stand for raw bytes: byte `b` is `b + 3`.
pub const BYTE_BASE: u32 = 3;

/// The pieces that can be matched, each with its token id. A piece that
/// occurs on several lines has the id of the last one; the empty piece
/// cannot be matched and is left out.
pub open spec fn vocab_map(pieces: Seq<Seq<u8>>) -> Map<Seq<u8>, u32>
    decreases pieces.len(),
{
    if pieces.len() == 0 {
        Map::empty()
    } else if pieces.last().len() > 0 {
        vocab_map(pieces.drop_last()).insert(pieces.last(), (pieces.len() - 1) as u32)
    } else {
        vocab_map(pieces.drop_last())
    }
}

/// The length of the longest piece.
pub open spec fn longest_piece(pieces: Seq<Seq<u8>>) -> nat
    decreases pieces.len(),
{
    if pieces.len() == 0 {
        0
    } else if pieces.last().len() > longest_piece(pieces.drop_last()) {
        pieces.last().len()
    } else {
        longest_piece(pieces.drop_last())
    }
}

/// The length of the longest piece of `vocab` that `text` continues with at
/// `pos`, among lengths up to `upto`; zero if there is none.
pub open spec fn match_len(vocab: Map<Seq<u8>, u32>, text: Seq<u8>, pos: int, upto: int) -> int
    decreases upto,
{
    if upto <= 0 {
        0
    } else if vocab.contains_key(text.subrange(pos, pos + upto)) {
        upto
    } else {
        match_len(vocab, text, pos, upto - 1)
    }
}

/// How many bytes the character at `pos` takes, going by its leading byte
/// and by what is left of the text. In UTF-8 text this is the length of the
/// code point that starts at `pos`.
pub open spec fn char_width(text: Seq<u8>, pos: int) -> int {
    let lead: u8 = text[pos];
    let width: int = if lead < 0xC0 {
        1
    } else if lead < 0xE0 {
        2
    } else if lead < 0xF0 {
        3
    } else {
        4
    };
    if pos + width <= text.len() {
        width
    } else {
        text.len() - pos
    }
}

/// The fallback tokens of some bytes: each byte plus three.
pub open spec fn byte_tokens(bytes: Seq<u8>) -> Seq<u32> {
    Seq::new(bytes.len(), |i: int| (bytes[i] + BYTE_BASE) as u32)
}

/// The tokens of `text` from `pos` on. At each step the longest matching
/// piece is taken; where none matches, one character is spelled out in byte
/// tokens.
pub open spec fn encode_from(vocab: Map<Seq<u8>, u32>, text: Seq<u8>, pos: int) -> Seq<u32>
    decreases text.len() - pos,
{
    if pos < 0 || pos >= text.len() {
        Seq::empty()
    } else if match_len(vocab, text, pos, text.len() - pos) > 0 {
        proof {
            lemma_match_len_bounds(vocab, text, pos, text.len() - pos);
        }
        seq![vocab[text.subrange(pos, pos + match_len(vocab, text, pos, text.len() - pos))]]
            + encode_from(vocab, text, pos + match_len(vocab, text, pos, text.len() - pos))
    } else {
        byte_tokens(text.subrange(pos, pos + char_width(text, pos))) + encode_from(
            vocab,
            text,
            pos + char_width(text, pos),
        )
    }
}

/// The tokens of a whole text, with the sequence markers asked for.
pub open spec fn encoding(pieces: Seq<Seq<u8>>, text: Seq<u8>, bos: bool, eos: bool) -> Seq<u32> {
    (if bos {
        seq![BOS]
    } else {
        Seq::empty()
    }) + encode_from(vocab_map(pieces), text, 0) + (if eos {
        seq![EOS]
    } else {
        Seq::empty()
    })
}

/// The longest match is no longer than the lengths it is sought among, and
/// where it is not zero it is the length of a piece.
pub proof fn lemma_match_len_bounds(vocab: Map<Seq<u8>, u32>, text: Seq<u8>, pos: int, upto: int)
    ensures
        0 <= match_len(vocab, text, pos, upto),
        upto >= 0 ==> match_len(vocab, text, pos, upto) <= upto,
        match_len(vocab, text, pos, upto) > 0 ==> vocab.contains_key(
            text.subrange(pos, pos + match_len(vocab, text, pos, upto)),
        ),
    decreases upto,
{
    if upto > 0 && !vocab.contains_key(text.subrange(pos, pos + upto)) {
        lemma_match_len_bounds(vocab, text, pos, upto - 1);
    }
}

/// A length is the longest match when it matches, or is zero, and no longer
/// length up to `upto` matches.
proof fn lemma_match_len_is(vocab: Map<Seq<u8>, u32>, text: Seq<u8>, pos: int, upto: int, n: int)
    requires
        0 <= n <= upto,
        n > 0 ==> vocab.contains_key(text.subrange(pos, pos + n)),
        forall|m: int| n < m <= upto ==> !vocab.contains_key(#[trigger] text.subrange(pos, pos + m)),
    ensures
        match_len(vocab, text, pos, upto) == n,
    decreases upto,
{
    if upto > n {
        lemma_match_len_is(vocab, text, pos, upto - 1, n);
    }
}

/// What holds of every piece that can be matched.
pub proof fn lemma_vocab_map_entry(pieces: Seq<Seq<u8>>, key: Seq<u8>)
    requires
        pieces.len() <= max_pieces(),
        vocab_map(pieces).contains_key(key),
    ensures
        0 < key.len() <= longest_piece(pieces),
        vocab_map(pieces)[key] < pieces.len(),
        pieces[vocab_map(pieces)[key] as int] == key,
    decreases pieces.len(),
{
    if pieces.len() > 0 {
        if pieces.last().len() > 0 && key == pieces.last() {
        } else {
            lemma_vocab_map_entry(pieces.drop_last(), key);
        }
    }
}

/// A tokenizer built from a vocabulary text.
pub struct VocabTxt {
    /// The pieces, by token id.
    words: Vec<Vec<u8>>,
    /// The pieces that can be matched, each with its token id.
    trie: PatriciaMap<u32>,
    /// The length of the longest piece.
    max_piece_len: usize,
}

impl View for VocabTxt {
    type V = Seq<Seq<u8>>;

    /// The pieces, by token id.
    closed spec fn view(&self) -> Seq<Seq<u8>> {
        piece_views(self.words@)
    }
}

impl VocabTxt {
    #[verifier::type_invariant]
    spec fn inv(&self) -> bool {
        &&& self.words@.len() <= max_pieces()
        &&& trie_entries(self.trie) == vocab_map(piece_views(self.words@))
        &&& self.max_piece_len == longest_piece(piece_views(self.words@))
    }

    /// Builds the tokenizer of a vocabulary text: the piece of line `i`
    /// gets the token id `i`. What can be matched of these pieces is
    /// `vocab_map` of them.
    pub fn new(text: &[u8]) -> (vocab: VocabTxt)
        requires
            well_formed(text@),
        ensures
            vocab@ == pieces(text@),
    {
        let words: Vec<Vec<u8>> = match parse_vocab(text) {
            Some(words) => words,
            // Not reached: the text is well formed.
            None => Vec::new(),
        };
        let ghost all: Seq<Seq<u8>> = piece_views(words@);
        assert(all.len() == words@.len() && all.len() == lines(text@).len());
        let mut trie: PatriciaMap<u32> = trie_new();
        let mut max_piece_len: usize = 0;
        let mut i: usize = 0;
        while i < words.len()
            invariant
                i <= words@.len() <= max_pieces(),
                all == piece_views(words@),
                trie_entries(trie) == vocab_map(all.take(i as int)),
                max_piece_len == longest_piece(all.take(i as int)),
            decreases words@.len() - i,
        {
            let word: &Vec<u8> = &words[i];
            proof {
                assert(all.take(i as int + 1).drop_last() == all.take(i as int));
                assert(all.take(i as int + 1).last() == word@);
            }
            if word.len() > 0 {
                trie_insert(&mut trie, word.as_slice(), i as u32);
            }
            if word.len() > max_piece_len {
                max_piece_len = word.len();
            }
            i += 1;
        }
        assert(all.take(i as int) == all);
        VocabTxt { words, trie, max_piece_len }
    }

    /// The token that begins a sequence.
    pub fn bos(&self) -> (token: u32)
        ensures
            token == BOS,
    {
        BOS
    }

    /// The token that ends a sequence.
    pub fn eos(&self) -> (token: u32)
        ensures
            token == EOS,
    {
        EOS
    }

    /// The length of the longest piece.
    pub fn max_piece_len(&self) -> (len: usize)
        ensures
            len == longest_piece(self@),
    {
        proof {
            use_type_invariant(self);
        }
        self.max_piece_len
    }

    /// The number of pieces, which is the number of token ids in use.
    pub fn vocab_size(&self) -> (len: usize)
        ensures
            len == self@.len(),
    {
        self.words.len()
    }

    /// Turns text into tokens, with the token that begins a sequence in
    /// front and the one that ends a sequence behind, where asked for.
    ///
    /// The text is matched from the left. At each position the longest
    /// piece that the text continues with gives its token. Where no piece
    /// matches, the bytes of one character give one token each, byte `b`
    /// the token `b + 3`, and matching goes on behind that character.
    pub fn encode(&self, text: &str, bos: bool, eos: bool) -> (tokens: Vec<u32>)
        ensures
            tokens@ == encoding(self@, text.spec_bytes(), bos, eos),
    {
        proof {
            use_type_invariant(self);
        }
        let bytes: &[u8] = text.as_bytes();
        let len: usize = bytes.len();
        let ghost vocab: Map<Seq<u8>, u32> = vocab_map(self@);
        let mut tokens: Vec<u32> = Vec::new();
        if bos {
            tokens.push(BOS);
        }
        let ghost head: Seq<u32> = tokens@;
        let mut pos: usize = 0;
        while pos < len
            invariant
                len == bytes@.len(),
                pos <= len,
                vocab == vocab_map(self@),
                self@.len() <= max_pieces(),
                trie_entries(self.trie) == vocab,
                self.max_piece_len == longest_piece(self@),
                head + encode_from(vocab, bytes@, 0) == tokens@ + encode_from(vocab, bytes@, pos as int),
            decreases len - pos,
        {
            let end: usize = if len - pos > self.max_piece_len {
                pos + self.max_piece_len
            } else {
                len
            };
            let window: &[u8] = slice_subrange(bytes, pos, end);
            let ghost before: Seq<u32> = tokens@;
            let ghost rest: Seq<u32> = encode_from(vocab, bytes@, pos as int);
            match trie_longest_prefix(&self.trie, window) {
                Some((n, token)) => {
                    proof {
                        assert(window@.subrange(0, n as int) == bytes@.subrange(
                            pos as int,
                            pos + n,
                        ));
                        lemma_vocab_map_entry(self@, window@.subrange(0, n as int));
                        assert forall|m: int| n < m <= len - pos implies !vocab.contains_key(
                            #[trigger] bytes@.subrange(pos as int, pos + m),
                        ) by {
                            if m <= end - pos {
                                assert(window@.subrange(0, m) == bytes@.subrange(
                                    pos as int,
                                    pos + m,
                                ));
                            } else if vocab.contains_key(bytes@.subrange(pos as int, pos + m)) {
                                lemma_vocab_map_entry(self@, bytes@.subrange(pos as int, pos + m));
                            }
                        }
                        lemma_match_len_is(vocab, bytes@, pos as int, len - pos, n as int);
                    }
                    tokens.push(token);
                    pos += n;
                    assert(before + rest == tokens@ + encode_from(vocab, bytes@, pos as int));
                },
                None => {
                    proof {
                        assert forall|m: int| 0 < m <= len - pos implies !vocab.contains_key(
                            #[trigger] bytes@.subrange(pos as int, pos + m),
                        ) by {
                            if m <= end - pos {
                                assert(window@.subrange(0, m) == bytes@.subrange(
                                    pos as int,
                                    pos + m,
                                ));
                            } else if vocab.contains_key(bytes@.subrange(pos as int, pos + m)) {
                                lemma_vocab_map_entry(self@, bytes@.subrange(pos as int, pos + m));
                            }
                        }
                        lemma_match_len_is(vocab, bytes@, pos as int, len - pos, 0);
                    }
                    let width: usize = width_at(bytes, pos);
                    let mut k: usize = 0;
                    while k < width
                        invariant
                            len == bytes@.len(),
                            k <= width,
                            pos + width <= len,
                            tokens@ == before + byte_tokens(
                                bytes@.subrange(pos as int, pos + k),
                            ),
                        decreases width - k,
                    {
                        tokens.push(bytes[pos + k] as u32 + BYTE_BASE);
                        k += 1;
                        assert(tokens@ == before + byte_tokens(
                            bytes@.subrange(pos as int, pos + k),
                        ));
                    }
                    pos += width;
                    assert(before + rest == tokens@ + encode_from(vocab, bytes@, pos as int));
                },
            }
        }
        if eos {
            tokens.push(EOS);
        }
        assert(tokens@ == encoding(self@, text.spec_bytes(), bos, eos));
        tokens
    }

    /// Whether the vocabulary has full byte fallback: the pieces with the
    /// ids from 3 on are the placeholders of the bytes from 0 on.
    pub fn has_byte_fallback(&self) -> (full: bool)
        ensures
            full == has_byte_fallback(self@),
    {
        if self.words.len() < 259 {
            return false;
        }
        let mut b: usize = 0;
        while b < 256
            invariant
                b <= 256,
                self.words@.len() >= 259,
                forall|k: u8| k < b ==> placeholder_byte(#[trigger] self@[k + BYTE_BASE]) == Some(k),
            decreases 256 - b,
        {
            let piece: &Vec<u8> = &self.words[b + 3];
            let stands_for: Option<u8> = placeholder_value(piece.as_slice());
            if stands_for != Some(b as u8) {
                assert(placeholder_byte(self@[(b as u8) + BYTE_BASE]) != Some(b as u8));
                return false;
            }
            b += 1;
        }
        true
    }

    /// The bytes that a token stands for.
    pub fn decode(&self, token: u32) -> (bytes: Vec<u8>)
        requires
            token < self@.len(),
        ensures
            bytes@ == piece_bytes(self@[token as int]),
    {
        decode_piece(self.words[token as usize].as_slice())
    }
}

/// The width of the character at `pos`.
pub fn width_at(text: &[u8], pos: usize) -> (width: usize)
    requires
        pos < text@.len(),
    ensures
        width == char_width(text@, pos as int),
        1 <= width <= 4,
        pos + width <= text@.len(),
{
    let lead: u8 = text[pos];
    let width: usize = if lead < 0xC0 {
        1
    } else if lead < 0xE0 {
        2
    } else if lead < 0xF0 {
        3
    } else {
        4
    };
    if width <= text.len() - pos {
        width
    } else {
        text.len() - pos
    }
}

/// The text that a sequence of tokens stands for: the bytes of their pieces,
/// one after the other.
pub open spec fn decoded_text(pieces: Seq<Seq<u8>>, tokens: Seq<u32>) -> Seq<u8>
    decreases tokens.len(),
{
    if tokens.len() == 0 {
        Seq::empty()
    } else {
        piece_bytes(pieces[tokens[0] as int]) + decoded_text(pieces, tokens.drop_first())
    }
}

/// A vocabulary with full byte fallback: for every byte `b`, the piece with
/// id `b + 3` is a placeholder of `b`.
pub open spec fn has_byte_fallback(pieces: Seq<Seq<u8>>) -> bool {
    &&& pieces.len() >= BYTE_BASE + 256
    &&& forall|b: u8| placeholder_byte(#[trigger] pieces[b + BYTE_BASE]) == Some(b)
}

/// Whether encoding `text` from `pos` on matches a piece that is itself a
/// byte placeholder. Such a piece is decoded to its byte, not to its text.
pub open spec fn matches_placeholder(vocab: Map<Seq<u8>, u32>, text: Seq<u8>, pos: int) -> bool
    decreases text.len() - pos,
{
    if pos < 0 || pos >= text.len() {
        false
    } else if match_len(vocab, text, pos, text.len() - pos) > 0 {
        proof {
            lemma_match_len_bounds(vocab, text, pos, text.len() - pos);
        }
        placeholder_byte(
            text.subrange(pos, pos + match_len(vocab, text, pos, text.len() - pos)),
        ) is Some || matches_placeholder(
            vocab,
            text,
            pos + match_len(vocab, text, pos, text.len() - pos),
        )
    } else {
        matches_placeholder(vocab, text, pos + char_width(text, pos))
    }
}

/// In UTF-8 text the fallback consumes exactly one code point.
pub proof fn lemma_char_width_utf8(text: Seq<u8>, pos: int)
    requires
        0 <= pos < text.len(),
        valid_utf8(text.subrange(pos, text.len() as int)),
    ensures
        char_width(text, pos) == length_of_first_scalar(text.subrange(pos, text.len() as int)),
{
    let tail = text.subrange(pos, text.len() as int);
    assert(tail[0] == text[pos]);
}

/// Decoding distributes over concatenation.
pub proof fn lemma_decoded_text_concat(pieces: Seq<Seq<u8>>, a: Seq<u32>, b: Seq<u32>)
    ensures
        decoded_text(pieces, a + b) == decoded_text(pieces, a) + decoded_text(pieces, b),
    decreases a.len(),
{
    if a.len() == 0 {
        assert(a + b == b);
    } else {
        assert((a + b).drop_first() == a.drop_first() + b);
        lemma_decoded_text_concat(pieces, a.drop_first(), b);
    }
}

/// With full byte fallback, byte tokens decode to the bytes they spell.
pub proof fn lemma_decoded_byte_tokens(pieces: Seq<Seq<u8>>, bytes: Seq<u8>)
    requires
        has_byte_fallback(pieces),
    ensures
        decoded_text(pieces, byte_tokens(bytes)) == bytes,
    decreases bytes.len(),
{
    if bytes.len() > 0 {
        let tokens = byte_tokens(bytes);
        assert(tokens.drop_first() == byte_tokens(bytes.drop_first()));
        lemma_decoded_byte_tokens(pieces, bytes.drop_first());
        assert(tokens[0] as int == bytes[0] + BYTE_BASE);
        assert(piece_bytes(pieces[bytes[0] + BYTE_BASE]) == seq![bytes[0]]);
        assert(seq![bytes[0]] + bytes.drop_first() == bytes);
    }
}

/// Decoding what was encoded gives the text back from any position on,
/// provided the vocabulary has full byte fallback and no matched piece is a
/// placeholder.
pub proof fn lemma_decode_encode_from(pieces: Seq<Seq<u8>>, text: Seq<u8>, pos: int)
    requires
        pieces.len() <= max_pieces(),
        has_byte_fallback(pieces),
        0 <= pos <= text.len(),
        !matches_placeholder(vocab_map(pieces), text, pos),
    ensures
        decoded_text(pieces, encode_from(vocab_map(pieces), text, pos)) == text.subrange(
            pos,
            text.len() as int,
        ),
    decreases text.len() - pos,
{
    let vocab = vocab_map(pieces);
    if pos < text.len() {
        let n = match_len(vocab, text, pos, text.len() - pos);
        lemma_match_len_bounds(vocab, text, pos, text.len() - pos);
        if n > 0 {
            let key = text.subrange(pos, pos + n);
            lemma_vocab_map_entry(pieces, key);
            lemma_decode_encode_from(pieces, text, pos + n);
            lemma_decoded_text_concat(pieces, seq![vocab[key]], encode_from(vocab, text, pos + n));
            assert(seq![vocab[key]].drop_first() == Seq::<u32>::empty());
            assert(placeholder_byte(key) is None);
            assert(seq![vocab[key]][0] == vocab[key]);
            assert(decoded_text(pieces, Seq::<u32>::empty()) == Seq::<u8>::empty());
            assert(key + Seq::<u8>::empty() == key);
            assert(decoded_text(pieces, seq![vocab[key]]) == key);
            assert(key + text.subrange(pos + n, text.len() as int) == text.subrange(
                pos,
                text.len() as int,
            ));
        } else {
            let w = char_width(text, pos);
            let spelled = text.subrange(pos, pos + w);
            lemma_decode_encode_from(pieces, text, pos + w);
            lemma_decoded_text_concat(pieces, byte_tokens(spelled), encode_from(vocab, text, pos + w));
            lemma_decoded_byte_tokens(pieces, spelled);
            assert(spelled + text.subrange(pos + w, text.len() as int) == text.subrange(
                pos,
                text.len() as int,
            ));
        }
    } else {
        assert(text.subrange(pos, text.len() as int) == Seq::<u8>::empty());
    }
}

/// Decoding the tokens of a text, encoded without sequence markers, gives
/// the text back: for every text, over a vocabulary with full byte
/// fallback, unless the encoding matches a piece that is a byte placeholder.
pub proof fn lemma_decode_encode(pieces: Seq<Seq<u8>>, text: Seq<u8>)
    requires
        pieces.len() <= max_pieces(),
        has_byte_fallback(pieces),
        !matches_placeholder(vocab_map(pieces), text, 0),
    ensures
        decoded_text(pieces, encoding(pieces, text, false, false)) == text,
{
    lemma_decode_encode_from(pieces, text, 0);
    assert(encoding(pieces, text, false, false) == encode_from(vocab_map(pieces), text, 0));
    assert(text.subrange(0, text.len() as int) == text);
}

/// Every piece that can be matched is UTF-8.
pub open spec fn utf8_pieces(vocab: Map<Seq<u8>, u32>) -> bool {
    forall|piece: Seq<u8>| vocab.contains_key(piece) ==> valid_utf8(piece)
}

/// Whether encoding `text` from `from` on comes to a step at `pos`.
pub open spec fn comes_to(vocab: Map<Seq<u8>, u32>, text: Seq<u8>, from: int, pos: int) -> bool
    decreases text.len() - from,
{
    if from == pos {
        true
    } else if from < 0 || from >= text.len() {
        false
    } else if match_len(vocab, text, from, text.len() - from) > 0 {
        proof {
            lemma_match_len_bounds(vocab, text, from, text.len() - from);
        }
        comes_to(vocab, text, from + match_len(vocab, text, from, text.len() - from), pos)
    } else {
        comes_to(vocab, text, from + char_width(text, from), pos)
    }
}

/// What is left of UTF-8 text behind a prefix that is UTF-8 is UTF-8.
pub proof fn lemma_utf8_behind_prefix(text: Seq<u8>, n: int)
    requires
        0 <= n <= text.len(),
        valid_utf8(text),
        valid_utf8(text.subrange(0, n)),
    ensures
        valid_utf8(text.subrange(n, text.len() as int)),
    decreases n,
{
    let prefix = text.subrange(0, n);
    if n == 0 {
        assert(text.subrange(0, text.len() as int) == text);
    } else {
        assert(prefix[0] == text[0]);
        let width = length_of_first_scalar(text);
        assert(width == length_of_first_scalar(prefix));
        assert(1 <= width <= n);
        let rest = pop_first_scalar(text);
        assert(pop_first_scalar(prefix) == rest.subrange(0, n - width));
        lemma_utf8_behind_prefix(rest, n - width);
        assert(rest.subrange(n - width, rest.len() as int) == text.subrange(n, text.len() as int));
    }
}

/// In UTF-8 text, over pieces that are UTF-8, every step of the encoding
/// starts at a character: what is left of the text is UTF-8, and a step
/// that matches no piece spells out exactly one code point.
pub proof fn lemma_steps_at_characters(vocab: Map<Seq<u8>, u32>, text: Seq<u8>, from: int, pos: int)
    requires
        utf8_pieces(vocab),
        0 <= from <= text.len(),
        valid_utf8(text.subrange(from, text.len() as int)),
        comes_to(vocab, text, from, pos),
    ensures
        from <= pos <= text.len(),
        valid_utf8(text.subrange(pos, text.len() as int)),
        pos < text.len() && match_len(vocab, text, pos, text.len() - pos) == 0 ==> char_width(
            text,
            pos,
        ) == length_of_first_scalar(text.subrange(pos, text.len() as int)),
    decreases text.len() - from,
{
    let len = text.len() as int;
    let tail = text.subrange(from, len);
    if from == pos {
        if pos < len {
            lemma_char_width_utf8(text, pos);
        }
    } else {
        let n = match_len(vocab, text, from, len - from);
        lemma_match_len_bounds(vocab, text, from, len - from);
        if n > 0 {
            assert(tail.subrange(0, n) == text.subrange(from, from + n));
            lemma_utf8_behind_prefix(tail, n);
            assert(tail.subrange(n, tail.len() as int) == text.subrange(from + n, len));
            lemma_steps_at_characters(vocab, text, from + n, pos);
        } else {
            lemma_char_width_utf8(text, from);
            let width = char_width(text, from);
            assert(pop_first_scalar(tail) == text.subrange(from + width, len));
            lemma_steps_at_characters(vocab, text, from + width, pos);
        }
    }
}

} // verus!
