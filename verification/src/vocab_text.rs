//! The textual vocabulary format: one piece per line, each between two
//! double quotes; the number of a line, counted from zero, is the piece's
//! token id.
//!
//! Lines end at a line feed, and a carriage return directly before that line
//! feed belongs to the line ending. The last line needs no line ending.

use vstd::prelude::*;
use vstd::slice::{slice_subrange, slice_to_vec};

verus! {

/// The most lines a vocabulary may have: one per token id.
pub open spec fn max_pieces() -> int {
    0x1_0000_0000
}

/// Where the line that starts at `from` stops: the first line feed at or
/// after `from`, or the end of the text.
pub open spec fn line_end(text: Seq<u8>, from: int) -> int
    decreases text.len() - from,
{
    if from < 0 || from >= text.len() {
        text.len() as int
    } else if text[from] == 0x0A {
        from
    } else {
        line_end(text, from + 1)
    }
}

/// The content of the line that starts at `from`, without its line ending.
pub open spec fn line_at(text: Seq<u8>, from: int) -> Seq<u8> {
    let end: int = line_end(text, from);
    if end < text.len() && from < end && text[end - 1] == 0x0D {
        text.subrange(from, end - 1)
    } else {
        text.subrange(from, end)
    }
}

/// The lines of `text` from position `from` on.
pub open spec fn lines_from(text: Seq<u8>, from: int) -> Seq<Seq<u8>>
    decreases text.len() - from,
{
    if from < 0 || from >= text.len() {
        Seq::empty()
    } else {
        proof {
            lemma_line_end_bounds(text, from);
        }
        if line_end(text, from) < text.len() {
            seq![line_at(text, from)] + lines_from(text, line_end(text, from) + 1)
        } else {
            seq![line_at(text, from)]
        }
    }
}

/// The lines of a text.
pub open spec fn lines(text: Seq<u8>) -> Seq<Seq<u8>> {
    lines_from(text, 0)
}

/// A line that holds a piece: it starts and ends with a double quote.
pub open spec fn quoted(line: Seq<u8>) -> bool {
    line.len() >= 2 && line[0] == 0x22 && line[line.len() - 1] == 0x22
}

/// The piece between the quotes of a line.
pub open spec fn unquote(line: Seq<u8>) -> Seq<u8> {
    line.subrange(1, line.len() - 1)
}

/// A text that is a vocabulary: every line is quoted, and the lines are few
/// enough for each to have a token id.
pub open spec fn well_formed(text: Seq<u8>) -> bool {
    &&& lines(text).len() <= max_pieces()
    &&& forall|i: int| 0 <= i < lines(text).len() ==> quoted(#[trigger] lines(text)[i])
}

/// The pieces of a vocabulary text, by token id.
pub open spec fn pieces(text: Seq<u8>) -> Seq<Seq<u8>> {
    Seq::new(lines(text).len(), |i: int| unquote(lines(text)[i]))
}

/// The byte strings held by a vector of pieces.
pub open spec fn piece_views(words: Seq<Vec<u8>>) -> Seq<Seq<u8>> {
    Seq::new(words.len(), |i: int| words[i]@)
}

/// A line stops at or behind where it starts, at a line feed or at the
/// end of the text, and holds no line feed.
pub proof fn lemma_line_end_bounds(text: Seq<u8>, from: int)
    requires
        0 <= from <= text.len(),
    ensures
        from <= line_end(text, from) <= text.len(),
        line_end(text, from) < text.len() ==> text[line_end(text, from)] == 0x0A,
        forall|k: int| from <= k < line_end(text, from) ==> text[k] != 0x0A,
    decreases text.len() - from,
{
    if from < text.len() && text[from] != 0x0A {
        lemma_line_end_bounds(text, from + 1);
    }
}

/// A position is the end of the line when no line feed comes before it and
/// it is a line feed or the end of the text.
proof fn lemma_line_end_is(text: Seq<u8>, from: int, end: int)
    requires
        0 <= from <= end <= text.len(),
        forall|k: int| from <= k < end ==> text[k] != 0x0A,
        end < text.len() ==> text[end] == 0x0A,
    ensures
        line_end(text, from) == end,
    decreases end - from,
{
    if from < end {
        lemma_line_end_is(text, from + 1, end);
    }
}

/// Splits a vocabulary text into its pieces. `None` if a line is not quoted
/// or there are more lines than token ids.
pub fn parse_vocab(text: &[u8]) -> (parsed: Option<Vec<Vec<u8>>>)
    ensures
        parsed is Some <==> well_formed(text@),
        parsed matches Some(words) ==> piece_views(words@) == pieces(text@),
{
    let len: usize = text.len();
    let mut words: Vec<Vec<u8>> = Vec::new();
    let mut pos: usize = 0;
    let ghost mut done: Seq<Seq<u8>> = Seq::empty();
    while pos < len
        invariant
            len == text@.len(),
            pos <= len,
            lines(text@) == done + lines_from(text@, pos as int),
            done.len() == words@.len(),
            done.len() <= max_pieces(),
            forall|i: int| 0 <= i < done.len() ==> quoted(#[trigger] done[i]),
            forall|i: int| 0 <= i < done.len() ==> (#[trigger] words@[i])@ == unquote(done[i]),
        decreases len - pos,
    {
        let mut end: usize = pos;
        while end < len && text[end] != 0x0A
            invariant
                len == text@.len(),
                pos <= end <= len,
                forall|k: int| pos <= k < end ==> text@[k] != 0x0A,
            decreases len - end,
        {
            end += 1;
        }
        proof {
            lemma_line_end_is(text@, pos as int, end as int);
        }
        let stop: usize = if end < len && pos < end && text[end - 1] == 0x0D {
            end - 1
        } else {
            end
        };
        let ghost line: Seq<u8> = line_at(text@, pos as int);
        let ghost rest: Seq<Seq<u8>> = if end < len {
            lines_from(text@, end as int + 1)
        } else {
            Seq::empty()
        };
        assert(line == text@.subrange(pos as int, stop as int));
        assert(lines(text@) == done + (seq![line] + rest));
        assert(lines(text@)[done.len() as int] == line);
        let is_quoted: bool = stop - pos >= 2 && text[pos] == 0x22 && text[stop - 1] == 0x22;
        assert(is_quoted == quoted(line));
        if !is_quoted || words.len() as u64 >= 0x1_0000_0000u64 {
            return None;
        }
        let word: Vec<u8> = slice_to_vec(slice_subrange(text, pos + 1, stop - 1));
        assert(word@ == unquote(line));
        words.push(word);
        proof {
            assert(done + (seq![line] + rest) == done.push(line) + rest);
            done = done.push(line);
        }
        pos = if end < len {
            end + 1
        } else {
            len
        };
    }
    assert(lines(text@) == done);
    assert(piece_views(words@) =~= pieces(text@));
    Some(words)
}

} // verus!
