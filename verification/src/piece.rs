//! Vocabulary pieces and the placeholders that stand for single raw bytes.
//!
//! A piece is a byte string. A piece of the form `<0xNN>`, with `NN` two
//! hexadecimal digits, stands for the byte of that value; every other piece
//! stands for itself.

use vstd::prelude::*;
use vstd::slice::slice_to_vec;

verus! {

/// The value of an ASCII hexadecimal digit, in either case.
pub open spec fn hex_digit(b: u8) -> Option<u8> {
    if 0x30 <= b <= 0x39 {
        Some((b - 0x30) as u8)
    } else if 0x41 <= b <= 0x46 {
        Some((b - 0x41 + 10) as u8)
    } else if 0x61 <= b <= 0x66 {
        Some((b - 0x61 + 10) as u8)
    } else {
        None
    }
}

/// The byte that `piece` stands for, if it is a placeholder `<0xNN>`.
pub open spec fn placeholder_byte(piece: Seq<u8>) -> Option<u8> {
    if piece.len() == 6 && piece[0] == 0x3C && piece[1] == 0x30 && piece[2] == 0x78 && piece[5]
        == 0x3E && hex_digit(piece[3]) is Some && hex_digit(piece[4]) is Some {
        Some((hex_digit(piece[3]).unwrap() * 16 + hex_digit(piece[4]).unwrap()) as u8)
    } else {
        None
    }
}

/// The bytes that a piece contributes to decoded text.
pub open spec fn piece_bytes(piece: Seq<u8>) -> Seq<u8> {
    match placeholder_byte(piece) {
        Some(b) => seq![b],
        None => piece,
    }
}

/// The placeholder piece of a byte, with upper-case digits.
pub open spec fn placeholder_of(b: u8) -> Seq<u8> {
    seq![0x3Cu8, 0x30u8, 0x78u8, upper_hex((b / 16) as u8), upper_hex((b % 16) as u8), 0x3Eu8]
}

/// The upper-case ASCII digit of a value below sixteen.
pub open spec fn upper_hex(v: u8) -> u8 {
    if v < 10 {
        (0x30 + v) as u8
    } else {
        (0x41 + v - 10) as u8
    }
}

/// A placeholder written with upper-case digits stands for its byte.
pub proof fn lemma_placeholder_of_decodes(b: u8)
    ensures
        placeholder_byte(placeholder_of(b)) == Some(b),
        piece_bytes(placeholder_of(b)) == seq![b],
{
    let p = placeholder_of(b);
    let hi: u8 = (b / 16) as u8;
    let lo: u8 = (b % 16) as u8;
    assert(p.len() == 6);
    assert(hex_digit(upper_hex(hi)) == Some(hi));
    assert(hex_digit(upper_hex(lo)) == Some(lo));
    assert(hi * 16 + lo == b);
}

/// Reads one hexadecimal digit.
pub fn hex_value(b: u8) -> (value: Option<u8>)
    ensures
        value == hex_digit(b),
{
    if 0x30 <= b && b <= 0x39 {
        Some(b - 0x30)
    } else if 0x41 <= b && b <= 0x46 {
        Some(b - 0x41 + 10)
    } else if 0x61 <= b && b <= 0x66 {
        Some(b - 0x61 + 10)
    } else {
        None
    }
}

/// The byte that a piece stands for, if it is a placeholder.
pub fn placeholder_value(piece: &[u8]) -> (byte: Option<u8>)
    ensures
        byte == placeholder_byte(piece@),
{
    if piece.len() == 6 && piece[0] == 0x3C && piece[1] == 0x30 && piece[2] == 0x78 && piece[5]
        == 0x3E {
        match (hex_value(piece[3]), hex_value(piece[4])) {
            (Some(hi), Some(lo)) => Some(hi * 16 + lo),
            _ => None,
        }
    } else {
        None
    }
}

/// Decodes one piece: a placeholder gives its byte, anything else its own
/// bytes.
pub fn decode_piece(piece: &[u8]) -> (bytes: Vec<u8>)
    ensures
        bytes@ == piece_bytes(piece@),
{
    match placeholder_value(piece) {
        Some(byte) => {
            let mut bytes: Vec<u8> = Vec::new();
            bytes.push(byte);
            assert(bytes@ =~= seq![byte]);
            bytes
        },
        None => slice_to_vec(piece),
    }
}

} // verus!
