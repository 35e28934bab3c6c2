//! Splits note bodies into chunks of bounded length. A cut falls at a blank
//! line where it can, else at a line break, else at a space, else wherever
//! the budget runs out.

use crate::notes::Note;
use crate::text::{
    from_chars, is_blank, is_whitespace, last_index_of, lemma_last_index_of,
    lemma_leading_whitespace, lemma_non_whitespace_blank, lemma_non_whitespace_concat,
    lemma_non_whitespace_cut, lemma_non_whitespace_trimmed, lemma_trimmed_ends,
    lemma_trimmed_fixed, lemma_trimmed_idempotent, lemma_trimmed_start_ends, non_whitespace, rfind,
    to_chars, trim, trim_start, trimmed, trimmed_start,
};
use std::path::PathBuf;
use vstd::prelude::*;
use vstd::seq_lib::lemma_flatten_concat;
use vstd::slice::slice_subrange;

verus! {

/// The largest number of characters in a chunk unless the caller asks for
/// another.
pub const DEFAULT_MAX_CHARS: usize = 512;

/// A piece of a note's body, with the note it was cut from and its place
/// among that note's chunks.
#[derive(Debug)]
pub struct Chunk {
    pub text: String,
    pub note_path: PathBuf,
    /// The position of this chunk among the chunks of its note, from 0.
    pub index: usize,
}

/// What a chunk holds: its text as a sequence of characters, the path of
/// its note, and its position.
pub struct ChunkView {
    pub text: Seq<char>,
    pub note_path: PathBuf,
    pub index: nat,
}

impl View for Chunk {
    type V = ChunkView;

    open spec fn view(&self) -> ChunkView {
        ChunkView { text: self.text@, note_path: self.note_path, index: self.index as nat }
    }
}

impl Clone for Chunk {
    fn clone(&self) -> (copy: Self)
        ensures
            copy == *self,
    {
        Chunk { text: self.text.clone(), note_path: self.note_path.clone(), index: self.index }
    }
}

/// The characters of `text` that a cut looks at: one more than the budget.
pub open spec fn lookahead(text: Seq<char>, max_chars: nat) -> Seq<char> {
    if max_chars < text.len() {
        text.take(max_chars as int + 1)
    } else {
        text
    }
}

/// One cut of `text`: the piece before the cut, and what is left behind it.
///
/// The cut falls at the last line break among the characters looked at; where
/// there is none, at the last space among them; where there is none either,
/// behind `max_chars` characters. A line break or space at the cut belongs to
/// neither part, and what is left never begins with white space.
pub open spec fn boundary_split(text: Seq<char>, max_chars: nat) -> (Seq<char>, Seq<char>) {
    let window = lookahead(text, max_chars);
    let line_break = last_index_of(window, '\n');
    let space = last_index_of(window, ' ');
    if line_break >= 0 {
        (trimmed(text.take(line_break)), trimmed_start(text.skip(line_break + 1)))
    } else if space >= 0 {
        (text.take(space), trimmed_start(text.skip(space + 1)))
    } else if max_chars < text.len() {
        (text.take(max_chars as int), trimmed_start(text.skip(max_chars as int)))
    } else {
        (text, Seq::empty())
    }
}

/// The pieces that a text is cut into, by one cut after another until what is
/// left fits the budget. What is left at the end is a piece too, trimmed.
pub open spec fn long_text_pieces(text: Seq<char>, max_chars: nat) -> Seq<Seq<char>>
    decreases text.len(),
    when max_chars > 0
    via long_text_pieces_decreases
{
    if text.len() == 0 {
        Seq::empty()
    } else if text.len() <= max_chars {
        seq![trimmed(text)]
    } else {
        seq![boundary_split(text, max_chars).0] + long_text_pieces(
            boundary_split(text, max_chars).1,
            max_chars,
        )
    }
}

#[via_fn]
proof fn long_text_pieces_decreases(text: Seq<char>, max_chars: nat) {
    if text.len() > max_chars {
        lemma_boundary_split_rest(text, max_chars);
    }
}

/// The texts that a vector of slices holds.
pub open spec fn piece_texts(pieces: Seq<&[char]>) -> Seq<Seq<char>> {
    pieces.map_values(|piece: &[char]| piece@)
}

/// The length of the first paragraph of `text`: the position of its first
/// blank line (two line breaks in a row), or the length of `text` where it
/// has none.
pub open spec fn paragraph_end(text: Seq<char>) -> nat
    decreases text.len(),
{
    if text.len() < 2 {
        text.len()
    } else if text[0] == '\n' && text[1] == '\n' {
        0
    } else {
        1 + paragraph_end(text.skip(1))
    }
}

/// The pieces of one paragraph: none where it is blank; the paragraph,
/// trimmed, where that fits the budget; else what it is cut into.
pub open spec fn paragraph_pieces(paragraph: Seq<char>, max_chars: nat) -> Seq<Seq<char>> {
    let text = trimmed(paragraph);
    if text.len() == 0 {
        Seq::empty()
    } else if text.len() <= max_chars {
        seq![text]
    } else {
        long_text_pieces(text, max_chars)
    }
}

/// The pieces of all paragraphs of `text`, in order. Paragraphs are what
/// blank lines separate.
pub open spec fn body_pieces(text: Seq<char>, max_chars: nat) -> Seq<Seq<char>>
    decreases text.len(),
{
    let end = paragraph_end(text);
    if end + 2 <= text.len() {
        paragraph_pieces(text.take(end as int), max_chars) + body_pieces(
            text.skip(end as int + 2),
            max_chars,
        )
    } else {
        paragraph_pieces(text, max_chars)
    }
}

/// What a text is split into under a budget of `max_chars` characters.
///
/// A budget of zero asks for no splitting. Otherwise the pieces are those of
/// the paragraphs; should they yield none while the text is not blank, the
/// trimmed text is cut as one long text.
pub open spec fn chunk_texts(text: Seq<char>, max_chars: nat) -> Seq<Seq<char>> {
    if max_chars == 0 {
        seq![text]
    } else if body_pieces(text, max_chars).len() == 0 && trimmed(text).len() > 0 {
        long_text_pieces(trimmed(text), max_chars)
    } else {
        body_pieces(text, max_chars)
    }
}

/// Whether each of `pieces` holds something that is not white space, and at
/// most `max_chars` characters in all.
pub open spec fn pieces_fit(pieces: Seq<Seq<char>>, max_chars: nat) -> bool {
    forall|i: int|
        0 <= i < pieces.len() ==> trimmed(#[trigger] pieces[i]).len() > 0 && pieces[i].len()
            <= max_chars
}

/// The texts of a note's chunks: none where the body is blank; otherwise
/// what the trimmed body is split into, each piece trimmed.
pub open spec fn note_chunk_texts(body: Seq<char>, max_chars: nat) -> Seq<Seq<char>> {
    if trimmed(body).len() == 0 {
        Seq::empty()
    } else {
        trimmed_each(chunk_texts(trimmed(body), max_chars))
    }
}

/// Each of `pieces`, trimmed.
pub open spec fn trimmed_each(pieces: Seq<Seq<char>>) -> Seq<Seq<char>> {
    pieces.map_values(|piece: Seq<char>| trimmed(piece))
}

/// The chunks of a note with the given path and body: the texts of
/// [`note_chunk_texts`], numbered from 0 in order.
pub open spec fn note_chunks(path: PathBuf, body: Seq<char>, max_chars: nat) -> Seq<ChunkView> {
    Seq::new(
        note_chunk_texts(body, max_chars).len(),
        |i: int|
            ChunkView {
                text: note_chunk_texts(body, max_chars)[i],
                note_path: path,
                index: i as nat,
            },
    )
}

/// What each of `chunks` holds.
pub open spec fn chunk_views(chunks: Seq<Chunk>) -> Seq<ChunkView> {
    chunks.map_values(|chunk: Chunk| chunk@)
}

/// The texts of `chunks`.
pub open spec fn chunk_view_texts(chunks: Seq<ChunkView>) -> Seq<Seq<char>> {
    chunks.map_values(|chunk: ChunkView| chunk.text)
}

/// The chunks of all `notes`: those of the first note, then those of the
/// second, and so on. The numbering starts again with each note.
pub open spec fn all_note_chunks(notes: Seq<Note>, max_chars: nat) -> Seq<ChunkView>
    decreases notes.len(),
{
    if notes.len() == 0 {
        Seq::empty()
    } else {
        all_note_chunks(notes.drop_last(), max_chars) + note_chunks(
            notes.last().path,
            notes.last().body@,
            max_chars,
        )
    }
}

/// A cut of a text that is over a budget of at least one character leaves
/// less than the text.
pub proof fn lemma_boundary_split_rest(text: Seq<char>, max_chars: nat)
    requires
        0 < max_chars < text.len(),
    ensures
        boundary_split(text, max_chars).1.len() < text.len(),
{
    let window = lookahead(text, max_chars);
    lemma_last_index_of(window, '\n');
    lemma_last_index_of(window, ' ');
    let line_break = last_index_of(window, '\n');
    let space = last_index_of(window, ' ');
    if line_break >= 0 {
        lemma_leading_whitespace(text.skip(line_break + 1));
    } else if space >= 0 {
        lemma_leading_whitespace(text.skip(space + 1));
    } else {
        lemma_leading_whitespace(text.skip(max_chars as int));
    }
}

/// The first blank line of `text` lies at `paragraph_end(text)`, and the
/// text has none exactly where that is its length.
pub proof fn lemma_paragraph_end(text: Seq<char>)
    ensures
        paragraph_end(text) <= text.len(),
        paragraph_end(text) < text.len() ==> paragraph_end(text) + 2 <= text.len()
            && text[paragraph_end(text) as int] == '\n' && text[paragraph_end(text) as int + 1] == '\n',
        forall|i: int|
            0 <= i < paragraph_end(text) && i + 1 < text.len() ==> !(#[trigger] text[i] == '\n'
                && text[i + 1] == '\n'),
    decreases text.len(),
{
    if text.len() >= 2 && !(text[0] == '\n' && text[1] == '\n') {
        let rest = text.skip(1);
        lemma_paragraph_end(rest);
        assert forall|i: int| 0 <= i < paragraph_end(text) && i + 1 < text.len() implies !(
        #[trigger] text[i] == '\n' && text[i + 1] == '\n') by {
            if i > 0 {
                assert(text[i] == rest[i - 1]);
                assert(text[i + 1] == rest[i]);
            }
        }
    }
}

/// Pieces that fit, followed by pieces that fit, fit.
proof fn lemma_pieces_fit_concat(a: Seq<Seq<char>>, b: Seq<Seq<char>>, max_chars: nat)
    requires
        pieces_fit(a, max_chars),
        pieces_fit(b, max_chars),
    ensures
        pieces_fit(a + b, max_chars),
{
    assert forall|i: int| 0 <= i < (a + b).len() implies trimmed(#[trigger] (a + b)[i]).len() > 0
        && (a + b)[i].len() <= max_chars by {
        if i < a.len() {
            assert((a + b)[i] == a[i]);
        } else {
            assert((a + b)[i] == b[i - a.len()]);
        }
    }
}

/// One cut of a text that is over the budget and begins with a character
/// that is not white space: the piece fits the budget and is not blank; what
/// is left is shorter than the text and does not begin with white space; and
/// nothing but white space is lost between the two.
pub proof fn lemma_boundary_split(text: Seq<char>, max_chars: nat)
    requires
        0 < max_chars < text.len(),
        !is_whitespace(text[0]),
    ensures
        trimmed(boundary_split(text, max_chars).0).len() > 0,
        boundary_split(text, max_chars).0.len() <= max_chars,
        boundary_split(text, max_chars).1.len() < text.len(),
        boundary_split(text, max_chars).1.len() > 0 ==> !is_whitespace(
            boundary_split(text, max_chars).1[0],
        ),
        non_whitespace(text) == non_whitespace(boundary_split(text, max_chars).0) + non_whitespace(
            boundary_split(text, max_chars).1,
        ),
{
    let window = lookahead(text, max_chars);
    lemma_last_index_of(window, '\n');
    lemma_last_index_of(window, ' ');
    lemma_boundary_split_rest(text, max_chars);
    let line_break = last_index_of(window, '\n');
    let space = last_index_of(window, ' ');
    let piece = boundary_split(text, max_chars).0;
    assert(is_whitespace('\n'));
    assert(is_whitespace(' '));
    if line_break >= 0 {
        assert(window[line_break] == text[line_break]);
        let head = text.take(line_break);
        let tail = text.skip(line_break + 1);
        assert(head[0] == text[0]);
        lemma_trimmed_ends(head);
        lemma_trimmed_idempotent(head);
        lemma_trimmed_start_ends(tail);
        lemma_non_whitespace_cut(text, line_break);
        lemma_non_whitespace_trimmed(head);
        lemma_non_whitespace_trimmed(tail);
    } else if space >= 0 {
        assert(window[space] == text[space]);
        let head = text.take(space);
        let tail = text.skip(space + 1);
        assert(head[0] == text[0]);
        lemma_trimmed_ends(head);
        lemma_trimmed_start_ends(tail);
        lemma_non_whitespace_cut(text, space);
        lemma_non_whitespace_trimmed(tail);
    } else {
        let head = text.take(max_chars as int);
        let tail = text.skip(max_chars as int);
        assert(head[0] == text[0]);
        lemma_trimmed_ends(head);
        lemma_trimmed_start_ends(tail);
        assert(text =~= head + tail);
        lemma_non_whitespace_concat(head, tail);
        lemma_non_whitespace_trimmed(tail);
    }
}

/// Where the characters that a cut looks at hold neither a line break nor a
/// space, the piece is the first `max_chars` characters of the text, and
/// what is left is what stands behind them, without leading white space.
pub proof fn lemma_hard_cut(text: Seq<char>, max_chars: nat)
    requires
        max_chars < text.len(),
        forall|i: int| 0 <= i <= max_chars ==> #[trigger] text[i] != '\n' && text[i] != ' ',
    ensures
        boundary_split(text, max_chars).0 == text.take(max_chars as int),
        boundary_split(text, max_chars).0.len() == max_chars,
        boundary_split(text, max_chars).1 == trimmed_start(text.skip(max_chars as int)),
{
    let window = lookahead(text, max_chars);
    lemma_last_index_of(window, '\n');
    lemma_last_index_of(window, ' ');
    let line_break = last_index_of(window, '\n');
    let space = last_index_of(window, ' ');
    if line_break >= 0 {
        assert(window[line_break] == text[line_break]);
    }
    if space >= 0 {
        assert(window[space] == text[space]);
    }
}

/// A run without white space that is over the budget is cut into pieces of
/// exactly the budget's length, but for the last, which holds what is left:
/// the pieces, one after another, are the run.
pub proof fn lemma_solid_run_pieces(text: Seq<char>, max_chars: nat)
    requires
        max_chars > 0,
        forall|i: int| 0 <= i < text.len() ==> !is_whitespace(#[trigger] text[i]),
    ensures
        long_text_pieces(text, max_chars).flatten() == text,
        forall|i: int|
            0 <= i < long_text_pieces(text, max_chars).len() - 1 ==> (#[trigger] long_text_pieces(
                text,
                max_chars,
            )[i]).len() == max_chars,
        text.len() > 0 ==> 0 < long_text_pieces(text, max_chars).last().len() <= max_chars,
    decreases text.len(),
{
    let pieces = long_text_pieces(text, max_chars);
    if text.len() == 0 {
        assert(pieces.flatten() =~= text);
    } else if text.len() <= max_chars {
        lemma_trimmed_fixed(text);
        assert(pieces.flatten() =~= text) by {
            assert(pieces.drop_first() =~= Seq::<Seq<char>>::empty());
            assert(pieces.drop_first().flatten() =~= Seq::<char>::empty());
        }
    } else {
        assert(is_whitespace('\n'));
        assert(is_whitespace(' '));
        lemma_hard_cut(text, max_chars);
        let head = text.take(max_chars as int);
        let tail = text.skip(max_chars as int);
        assert(tail[0] == text[max_chars as int]);
        assert(trimmed_start(tail) =~= tail);
        assert forall|i: int| 0 <= i < tail.len() implies !is_whitespace(#[trigger] tail[i]) by {
            assert(tail[i] == text[i + max_chars]);
        }
        lemma_solid_run_pieces(tail, max_chars);
        let others = long_text_pieces(tail, max_chars);
        assert(pieces == seq![head] + others);
        lemma_long_text_pieces(tail, max_chars);
        assert(pieces.flatten() =~= head + others.flatten()) by {
            assert(pieces.first() == head);
            assert(pieces.drop_first() =~= others);
        }
        assert(head + tail =~= text);
        assert forall|i: int| 0 <= i < pieces.len() - 1 implies (#[trigger] pieces[i]).len()
            == max_chars by {
            if i > 0 {
                assert(pieces[i] == others[i - 1]);
            }
        }
        assert(pieces.last() == others.last());
    }
}

/// The pieces of a long text that does not begin with white space fit the
/// budget, none is blank, and together they hold all of the text that is not
/// white space, in order.
pub proof fn lemma_long_text_pieces(text: Seq<char>, max_chars: nat)
    requires
        max_chars > 0,
        text.len() > 0 ==> !is_whitespace(text[0]),
    ensures
        pieces_fit(long_text_pieces(text, max_chars), max_chars),
        non_whitespace(long_text_pieces(text, max_chars).flatten()) == non_whitespace(text),
        text.len() > 0 ==> long_text_pieces(text, max_chars).len() > 0,
    decreases text.len(),
{
    let pieces = long_text_pieces(text, max_chars);
    if text.len() == 0 {
        assert(pieces.flatten() =~= text);
    } else if text.len() <= max_chars {
        lemma_trimmed_ends(text);
        lemma_trimmed_idempotent(text);
        lemma_non_whitespace_trimmed(text);
        assert(pieces.flatten() =~= trimmed(text)) by {
            assert(pieces.drop_first() =~= Seq::<Seq<char>>::empty());
            assert(pieces.drop_first().flatten() =~= Seq::<char>::empty());
        }
    } else {
        let piece = boundary_split(text, max_chars).0;
        let rest = boundary_split(text, max_chars).1;
        lemma_boundary_split(text, max_chars);
        lemma_long_text_pieces(rest, max_chars);
        let others = long_text_pieces(rest, max_chars);
        assert(pieces_fit(seq![piece], max_chars));
        lemma_pieces_fit_concat(seq![piece], others, max_chars);
        assert(pieces.flatten() =~= piece + others.flatten()) by {
            assert(pieces.first() == piece);
            assert(pieces.drop_first() =~= others);
        }
        lemma_non_whitespace_concat(piece, others.flatten());
    }
}

/// The pieces of a paragraph fit the budget, none is blank, and together
/// they hold all of the paragraph that is not white space, in order.
pub proof fn lemma_paragraph_pieces(paragraph: Seq<char>, max_chars: nat)
    requires
        max_chars > 0,
    ensures
        pieces_fit(paragraph_pieces(paragraph, max_chars), max_chars),
        non_whitespace(paragraph_pieces(paragraph, max_chars).flatten()) == non_whitespace(
            paragraph,
        ),
        paragraph_pieces(paragraph, max_chars).len() == 0 <==> is_blank(paragraph),
{
    let text = trimmed(paragraph);
    let pieces = paragraph_pieces(paragraph, max_chars);
    lemma_trimmed_ends(paragraph);
    lemma_trimmed_idempotent(paragraph);
    lemma_non_whitespace_trimmed(paragraph);
    if text.len() == 0 {
        lemma_non_whitespace_blank(paragraph);
        assert(pieces.flatten() =~= Seq::<char>::empty());
    } else if text.len() <= max_chars {
        assert(pieces.flatten() =~= text) by {
            assert(pieces.drop_first() =~= Seq::<Seq<char>>::empty());
            assert(pieces.drop_first().flatten() =~= Seq::<char>::empty());
        }
    } else {
        lemma_long_text_pieces(text, max_chars);
    }
}

/// The pieces of a text's paragraphs fit the budget, none is blank, and
/// together they hold all of the text that is not white space, in order.
pub proof fn lemma_body_pieces(text: Seq<char>, max_chars: nat)
    requires
        max_chars > 0,
    ensures
        pieces_fit(body_pieces(text, max_chars), max_chars),
        non_whitespace(body_pieces(text, max_chars).flatten()) == non_whitespace(text),
    decreases text.len(),
{
    let end = paragraph_end(text) as int;
    lemma_paragraph_end(text);
    if end + 2 <= text.len() {
        let head = text.take(end);
        let tail = text.skip(end + 2);
        let first = paragraph_pieces(head, max_chars);
        let others = body_pieces(tail, max_chars);
        lemma_paragraph_pieces(head, max_chars);
        lemma_body_pieces(tail, max_chars);
        lemma_pieces_fit_concat(first, others, max_chars);
        lemma_flatten_concat(first, others);
        lemma_non_whitespace_concat(first.flatten(), others.flatten());
        assert(is_whitespace('\n'));
        let behind = text.skip(end + 1);
        lemma_non_whitespace_cut(text, end);
        assert(behind[0] == text[end + 1]);
        lemma_non_whitespace_cut(behind, 0);
        assert(behind.take(0) =~= Seq::<char>::empty());
        assert(behind.skip(1) =~= tail);
        assert(non_whitespace(behind.take(0)) + non_whitespace(tail) =~= non_whitespace(tail));
    } else {
        lemma_paragraph_pieces(text, max_chars);
    }
}

/// Under a budget of at least one character, the pieces that a text is split
/// into fit the budget, none is blank, and together they hold all of the text
/// that is not white space, in order.
pub proof fn lemma_chunk_texts(text: Seq<char>, max_chars: nat)
    requires
        max_chars > 0,
    ensures
        pieces_fit(chunk_texts(text, max_chars), max_chars),
        non_whitespace(chunk_texts(text, max_chars).flatten()) == non_whitespace(text),
{
    lemma_body_pieces(text, max_chars);
    if body_pieces(text, max_chars).len() == 0 && trimmed(text).len() > 0 {
        lemma_trimmed_ends(text);
        lemma_non_whitespace_trimmed(text);
        lemma_long_text_pieces(trimmed(text), max_chars);
    }
}

/// Trimming each of some pieces loses nothing that is not white space.
proof fn lemma_non_whitespace_of_trimmed_pieces(pieces: Seq<Seq<char>>)
    ensures
        non_whitespace(trimmed_each(pieces).flatten()) == non_whitespace(pieces.flatten()),
    decreases pieces.len(),
{
    let neat = trimmed_each(pieces);
    if pieces.len() > 0 {
        let others = pieces.drop_first();
        lemma_non_whitespace_of_trimmed_pieces(others);
        assert(neat.drop_first() =~= trimmed_each(others));
        lemma_non_whitespace_trimmed(pieces.first());
        lemma_non_whitespace_concat(neat.first(), neat.drop_first().flatten());
        lemma_non_whitespace_concat(pieces.first(), others.flatten());
    }
}

/// What holds of the texts of a note's chunks.
///
/// A blank body has no chunks. No chunk is empty, and none begins or ends
/// with white space. Under a budget of at least one character no chunk is
/// longer than the budget. The chunks, one after another, hold all of the
/// body that is not white space, in order, and nothing else that is not
/// white space: what a cut consumes is white space, and nothing is repeated.
pub proof fn lemma_note_chunk_texts(body: Seq<char>, max_chars: nat)
    ensures
        is_blank(body) <==> note_chunk_texts(body, max_chars).len() == 0,
        forall|i: int|
            0 <= i < note_chunk_texts(body, max_chars).len() ==> {
                let text = #[trigger] note_chunk_texts(body, max_chars)[i];
                &&& text.len() > 0
                &&& trimmed(text) == text
                &&& max_chars > 0 ==> text.len() <= max_chars
            },
        non_whitespace(note_chunk_texts(body, max_chars).flatten()) == non_whitespace(body),
{
    let whole = trimmed(body);
    let texts = note_chunk_texts(body, max_chars);
    lemma_trimmed_ends(body);
    lemma_non_whitespace_trimmed(body);
    if whole.len() == 0 {
        lemma_non_whitespace_blank(body);
        assert(texts.flatten() =~= Seq::<char>::empty());
    } else {
        let pieces = chunk_texts(whole, max_chars);
        lemma_non_whitespace_of_trimmed_pieces(pieces);
        if max_chars == 0 {
            lemma_trimmed_idempotent(body);
            assert(pieces[0] == whole);
            assert(pieces.flatten() =~= whole) by {
                assert(pieces.drop_first() =~= Seq::<Seq<char>>::empty());
                assert(pieces.drop_first().flatten() =~= Seq::<char>::empty());
            }
        } else {
            lemma_chunk_texts(whole, max_chars);
        }
        assert forall|i: int| 0 <= i < texts.len() implies {
            let text = #[trigger] texts[i];
            &&& text.len() > 0
            &&& trimmed(text) == text
            &&& max_chars > 0 ==> text.len() <= max_chars
        } by {
            assert(texts[i] == trimmed(pieces[i]));
            lemma_trimmed_ends(pieces[i]);
            lemma_trimmed_idempotent(pieces[i]);
        }
    }
}

/// Cuts `text` once: at the last line break within `max_chars + 1`
/// characters, else at the last space within them, else behind `max_chars`
/// characters.
pub fn try_split_at_boundary<'a>(text: &'a [char], max_chars: usize) -> (parts: (
    &'a [char],
    &'a [char],
))
    ensures
        parts.0@ == boundary_split(text@, max_chars as nat).0,
        parts.1@ == boundary_split(text@, max_chars as nat).1,
{
    let len = text.len();
    let window = if max_chars < len {
        slice_subrange(text, 0, max_chars + 1)
    } else {
        text
    };
    assert(window@ == lookahead(text@, max_chars as nat));
    proof {
        lemma_last_index_of(window@, '\n');
        lemma_last_index_of(window@, ' ');
    }
    match rfind(window, '\n') {
        Some(pos) => (
            trim(slice_subrange(text, 0, pos)),
            trim_start(slice_subrange(text, pos + 1, len)),
        ),
        None => match rfind(window, ' ') {
            Some(pos) => (
                slice_subrange(text, 0, pos),
                trim_start(slice_subrange(text, pos + 1, len)),
            ),
            None => if max_chars < len {
                (
                    slice_subrange(text, 0, max_chars),
                    trim_start(slice_subrange(text, max_chars, len)),
                )
            } else {
                (text, slice_subrange(text, len, len))
            },
        },
    }
}

/// Cuts a text into pieces of at most `max_chars` characters, cut after cut.
pub fn split_long_text<'a>(text: &'a [char], max_chars: usize) -> (pieces: Vec<&'a [char]>)
    requires
        max_chars > 0,
    ensures
        piece_texts(pieces@) == long_text_pieces(text@, max_chars as nat),
{
    let mut result: Vec<&'a [char]> = Vec::new();
    let mut remaining = text;
    assert(piece_texts(result@) + long_text_pieces(remaining@, max_chars as nat)
        =~= long_text_pieces(text@, max_chars as nat));
    while remaining.len() > 0
        invariant
            max_chars > 0,
            piece_texts(result@) + long_text_pieces(remaining@, max_chars as nat)
                == long_text_pieces(text@, max_chars as nat),
        decreases remaining@.len(),
    {
        let ghost before = piece_texts(result@);
        if remaining.len() <= max_chars {
            result.push(trim(remaining));
            assert(piece_texts(result@) =~= before + long_text_pieces(
                remaining@,
                max_chars as nat,
            ));
            return result;
        }
        let (piece, rest) = try_split_at_boundary(remaining, max_chars);
        proof {
            lemma_boundary_split_rest(remaining@, max_chars as nat);
        }
        result.push(piece);
        assert(piece_texts(result@) + long_text_pieces(rest@, max_chars as nat) =~= before
            + long_text_pieces(remaining@, max_chars as nat));
        remaining = rest;
    }
    assert(piece_texts(result@) =~= piece_texts(result@) + long_text_pieces(
        remaining@,
        max_chars as nat,
    ));
    result
}

/// Finds the end of the first paragraph.
pub fn find_paragraph_end(text: &[char]) -> (end: usize)
    ensures
        end == paragraph_end(text@),
{
    let len = text.len();
    let mut i: usize = 0;
    assert(text@.skip(0) =~= text@);
    while len - i >= 2
        invariant
            len == text@.len(),
            i <= len,
            paragraph_end(text@) == i + paragraph_end(text@.skip(i as int)),
        decreases len - i,
    {
        if text[i] == '\n' && text[i + 1] == '\n' {
            return i;
        }
        assert(text@.skip(i as int).skip(1) =~= text@.skip(i + 1));
        i += 1;
    }
    len
}

/// Appends the pieces of one paragraph.
fn push_paragraph<'a>(pieces: &mut Vec<&'a [char]>, paragraph: &'a [char], max_chars: usize)
    requires
        max_chars > 0,
    ensures
        piece_texts(final(pieces)@) == piece_texts(old(pieces)@) + paragraph_pieces(
            paragraph@,
            max_chars as nat,
        ),
{
    let text = trim(paragraph);
    let ghost before = piece_texts(pieces@);
    if text.len() == 0 {
        assert(before =~= before + paragraph_pieces(paragraph@, max_chars as nat));
    } else if text.len() <= max_chars {
        pieces.push(text);
        assert(piece_texts(pieces@) =~= before + paragraph_pieces(paragraph@, max_chars as nat));
    } else {
        let mut more = split_long_text(text, max_chars);
        pieces.append(&mut more);
        assert(piece_texts(pieces@) =~= before + paragraph_pieces(paragraph@, max_chars as nat));
    }
}

/// Splits a text into pieces of at most `max_chars` characters each,
/// paragraph by paragraph; a budget of zero leaves the text whole.
pub fn split_into_chunks<'a>(text: &'a [char], max_chars: usize) -> (pieces: Vec<&'a [char]>)
    ensures
        piece_texts(pieces@) == chunk_texts(text@, max_chars as nat),
{
    let mut result: Vec<&'a [char]> = Vec::new();
    if max_chars == 0 {
        result.push(text);
        assert(piece_texts(result@) =~= seq![text@]);
        return result;
    }
    let mut remaining = text;
    let mut done = false;
    assert(piece_texts(result@) + body_pieces(remaining@, max_chars as nat) =~= body_pieces(
        text@,
        max_chars as nat,
    ));
    while !done
        invariant
            max_chars > 0,
            !done ==> piece_texts(result@) + body_pieces(remaining@, max_chars as nat)
                == body_pieces(text@, max_chars as nat),
            done ==> piece_texts(result@) == body_pieces(text@, max_chars as nat),
        decreases
                if done {
                    0
                } else {
                    remaining@.len() + 1
                },
    {
        let len = remaining.len();
        let end = find_paragraph_end(remaining);
        proof {
            lemma_paragraph_end(remaining@);
        }
        if end < len {
            push_paragraph(&mut result, slice_subrange(remaining, 0, end), max_chars);
            remaining = slice_subrange(remaining, end + 2, len);
        } else {
            push_paragraph(&mut result, remaining, max_chars);
            done = true;
        }
    }
    if result.len() == 0 {
        let whole = trim(text);
        if whole.len() > 0 {
            return split_long_text(whole, max_chars);
        }
    }
    result
}

/// The chunks of one note.
///
/// The body is trimmed and split under the budget `max_chars`; a budget of
/// zero keeps the trimmed body as one chunk. Each piece, trimmed, becomes a
/// chunk that carries the note's path and its position among the note's
/// chunks.
pub fn chunk_note(note: &Note, max_chars: usize) -> (chunks: Vec<Chunk>)
    ensures
        chunk_views(chunks@) == note_chunks(note.path, note.body@, max_chars as nat),
        is_blank(note.body@) <==> chunks@.len() == 0,
        forall|i: int|
            0 <= i < chunks@.len() ==> {
                let chunk = #[trigger] chunks@[i];
                &&& chunk.index == i
                &&& chunk.note_path == note.path
                &&& chunk.text@.len() > 0
                &&& trimmed(chunk.text@) == chunk.text@
                &&& max_chars > 0 ==> chunk.text@.len() <= max_chars
            },
        non_whitespace(chunk_view_texts(chunk_views(chunks@)).flatten()) == non_whitespace(
            note.body@,
        ),
{
    let ghost texts = note_chunk_texts(note.body@, max_chars as nat);
    let ghost expected = note_chunks(note.path, note.body@, max_chars as nat);
    proof {
        lemma_note_chunk_texts(note.body@, max_chars as nat);
        assert(chunk_view_texts(expected) =~= texts);
    }
    let mut chunks: Vec<Chunk> = Vec::new();
    let chars = to_chars(note.body.as_str());
    let body = trim(chars.as_slice());
    if body.len() == 0 {
        assert(chunk_views(chunks@) =~= expected);
        return chunks;
    }
    let pieces = split_into_chunks(body, max_chars);
    assert(pieces@.len() == texts.len()) by {
        assert(piece_texts(pieces@).len() == pieces@.len());
    }
    let mut i: usize = 0;
    while i < pieces.len()
        invariant
            i <= pieces@.len(),
            pieces@.len() == expected.len(),
            expected == note_chunks(note.path, note.body@, max_chars as nat),
            trimmed(note.body@).len() > 0,
            piece_texts(pieces@) == chunk_texts(trimmed(note.body@), max_chars as nat),
            chunk_views(chunks@) == expected.take(i as int),
        decreases pieces@.len() - i,
    {
        let text = from_chars(trim(pieces[i]));
        let ghost before = chunk_views(chunks@);
        chunks.push(Chunk { text, note_path: note.path.clone(), index: i });
        assert(chunk_views(chunks@) =~= expected.take(i + 1)) by {
            assert(piece_texts(pieces@)[i as int] == pieces@[i as int]@);
            assert(chunk_views(chunks@) =~= before.push(chunks@[i as int]@));
            assert(chunks@[i as int]@ == expected[i as int]);
        }
        i += 1;
    }
    assert(chunk_views(chunks@) =~= expected);
    assert forall|i: int| 0 <= i < chunks@.len() implies {
        let chunk = #[trigger] chunks@[i];
        &&& chunk.index == i
        &&& chunk.note_path == note.path
        &&& chunk.text@.len() > 0
        &&& trimmed(chunk.text@) == chunk.text@
        &&& max_chars > 0 ==> chunk.text@.len() <= max_chars
    } by {
        assert(chunk_views(chunks@)[i] == chunks@[i]@);
        assert(expected[i].text == texts[i]);
    }
    chunks
}

/// The chunks of all notes, in the order of the notes. The numbering starts
/// again with each note.
pub fn chunk_notes(notes: &[Note], max_chars: usize) -> (chunks: Vec<Chunk>)
    ensures
        chunk_views(chunks@) == all_note_chunks(notes@, max_chars as nat),
{
    let mut chunks: Vec<Chunk> = Vec::new();
    let mut i: usize = 0;
    assert(notes@.take(0) =~= Seq::<Note>::empty());
    assert(chunk_views(chunks@) =~= all_note_chunks(notes@.take(0), max_chars as nat));
    while i < notes.len()
        invariant
            i <= notes@.len(),
            chunk_views(chunks@) == all_note_chunks(notes@.take(i as int), max_chars as nat),
        decreases notes@.len() - i,
    {
        let ghost before = chunk_views(chunks@);
        let mut more = chunk_note(&notes[i], max_chars);
        let ghost added = chunk_views(more@);
        chunks.append(&mut more);
        assert(chunk_views(chunks@) =~= before + added);
        assert(notes@.take(i + 1).drop_last() =~= notes@.take(i as int));
        assert(notes@.take(i + 1).last() == notes@[i as int]);
        i += 1;
    }
    assert(notes@.take(i as int) =~= notes@);
    chunks
}

} // verus!
