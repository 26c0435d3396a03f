//! What the text of a paragraph is.

use vstd::prelude::*;
use vstd::utf8::is_ascii_chars_encode_utf8;

use crate::bytes::lit;
use crate::paragraph_text::{texts_state, texts_step, TextsView};
use crate::xml::{is_empty_tag, is_end, is_start, tag_name, text_unescaped, Ev, EventKind};

verus! {

/// A piece of a paragraph.
pub enum Piece {
    /// A text between its tags.
    Text(Ev, Ev, Ev),
    /// A tabulator.
    Tab(Ev),
    /// A line break.
    Break(Ev),
    /// Anything that says nothing.
    Silent(Ev),
}

/// The events are of the piece's form. What is silent is no text and no tag of a text, of a
/// paragraph, of paragraph properties, of a tabulator or of a break.
pub open spec fn is_piece(p: Piece) -> bool {
    match p {
        Piece::Text(open, text, close) => {
            &&& is_start(open, "w:t")
            &&& text.kind == EventKind::Text
            &&& text_unescaped(text.raw) is Some
            &&& is_end(close, "w:t")
        },
        Piece::Tab(e) => is_empty_tag(e, "w:tab"),
        Piece::Break(e) => is_empty_tag(e, "w:br"),
        Piece::Silent(e) => {
            &&& e.kind != EventKind::Text
            &&& tag_name(e) != lit("w:t")
            &&& tag_name(e) != lit("w:p")
            &&& tag_name(e) != lit("w:pPr")
            &&& tag_name(e) != lit("w:tab")
            &&& tag_name(e) != lit("w:br")
        },
    }
}

/// The events of a piece.
pub open spec fn piece_events(p: Piece) -> Seq<Ev> {
    match p {
        Piece::Text(open, text, close) => seq![open, text, close],
        Piece::Tab(e) => seq![e],
        Piece::Break(e) => seq![e],
        Piece::Silent(e) => seq![e],
    }
}

/// What a piece says.
pub open spec fn piece_says(p: Piece) -> Seq<char> {
    match p {
        Piece::Text(open, text, close) => text_unescaped(text.raw)->0,
        Piece::Tab(e) => seq!['\t'],
        Piece::Break(e) => seq!['\n'],
        Piece::Silent(e) => Seq::empty(),
    }
}

/// The events of the first `n` pieces.
pub open spec fn pieces_events(pieces: Seq<Piece>, n: int) -> Seq<Ev>
    decreases n,
{
    if n <= 0 {
        Seq::empty()
    } else {
        pieces_events(pieces, n - 1) + piece_events(pieces[n - 1])
    }
}

/// What the first `n` pieces say.
pub open spec fn pieces_say(pieces: Seq<Piece>, n: int) -> Seq<char>
    decreases n,
{
    if n <= 0 {
        Seq::empty()
    } else {
        pieces_say(pieces, n - 1) + piece_says(pieces[n - 1])
    }
}

proof fn lemma_names()
    ensures
        lit("w:t") != lit("w:p"),
        lit("w:t") != lit("w:pPr"),
        lit("w:t") != lit("w:r"),
        lit("w:tab") != lit("w:p"),
        lit("w:tab") != lit("w:t"),
        lit("w:br") != lit("w:p"),
        lit("w:br") != lit("w:t"),
        lit("w:br") != lit("w:tab"),
{
    reveal_strlit("w:t");
    reveal_strlit("w:p");
    reveal_strlit("w:pPr");
    reveal_strlit("w:r");
    reveal_strlit("w:tab");
    reveal_strlit("w:br");
    is_ascii_chars_encode_utf8("w:t"@);
    is_ascii_chars_encode_utf8("w:p"@);
    is_ascii_chars_encode_utf8("w:pPr"@);
    is_ascii_chars_encode_utf8("w:r"@);
    is_ascii_chars_encode_utf8("w:tab"@);
    is_ascii_chars_encode_utf8("w:br"@);
    assert(lit("w:t")[2] != lit("w:p")[2]);
    assert(lit("w:t").len() != lit("w:pPr").len());
    assert(lit("w:t")[2] != lit("w:r")[2]);
    assert(lit("w:tab").len() != lit("w:p").len());
    assert(lit("w:tab").len() != lit("w:t").len());
    assert(lit("w:br").len() != lit("w:p").len());
    assert(lit("w:br").len() != lit("w:t").len());
    assert(lit("w:br").len() != lit("w:tab").len());
}

proof fn lemma_push(events: Seq<Ev>, e: Ev)
    ensures
        texts_state(events.push(e)) == texts_step(texts_state(events), e),
{
    assert(events.push(e).drop_last() =~= events);
}

/// Inside a paragraph, outside its properties and its texts.
spec fn is_inside(s: TextsView) -> bool {
    s.depth == 1 && s.ppr_depth == 0 && !s.in_text
}

proof fn lemma_piece(before: Seq<Ev>, p: Piece)
    requires
        is_piece(p),
        is_inside(texts_state(before)),
    ensures
        is_inside(texts_state(before + piece_events(p))),
        texts_state(before + piece_events(p)).done == texts_state(before).done,
        texts_state(before + piece_events(p)).current == texts_state(before).current + piece_says(
            p,
        ),
{
    lemma_names();
    reveal_strlit("\t");
    reveal_strlit("\n");
    assert("\t"@ =~= seq!['\t']);
    assert("\n"@ =~= seq!['\n']);
    let s = texts_state(before);
    match p {
        Piece::Text(open, text, close) => {
            let a = before.push(open);
            let b = a.push(text);
            lemma_push(before, open);
            lemma_push(a, text);
            lemma_push(b, close);
            assert(before + piece_events(p) =~= b.push(close));
        },
        Piece::Tab(e) => {
            lemma_push(before, e);
            assert(before + piece_events(p) =~= before.push(e));
        },
        Piece::Break(e) => {
            lemma_push(before, e);
            assert(before + piece_events(p) =~= before.push(e));
        },
        Piece::Silent(e) => {
            lemma_push(before, e);
            assert(before + piece_events(p) =~= before.push(e));
            assert(s.current + piece_says(p) =~= s.current);
        },
    }
}

proof fn lemma_pieces(before: Seq<Ev>, pieces: Seq<Piece>, n: int)
    requires
        0 <= n <= pieces.len(),
        forall|i: int| 0 <= i < pieces.len() ==> is_piece(#[trigger] pieces[i]),
        is_inside(texts_state(before)),
    ensures
        is_inside(texts_state(before + pieces_events(pieces, n))),
        texts_state(before + pieces_events(pieces, n)).done == texts_state(before).done,
        texts_state(before + pieces_events(pieces, n)).current == texts_state(before).current
            + pieces_say(pieces, n),
    decreases n,
{
    let s = texts_state(before);
    if n == 0 {
        assert(before + pieces_events(pieces, 0) =~= before);
        assert(s.current + pieces_say(pieces, 0) =~= s.current);
    } else {
        lemma_pieces(before, pieces, n - 1);
        let mid = before + pieces_events(pieces, n - 1);
        lemma_piece(mid, pieces[n - 1]);
        assert(before + pieces_events(pieces, n) =~= mid + piece_events(pieces[n - 1]));
        assert(s.current + pieces_say(pieces, n) =~= s.current + pieces_say(pieces, n - 1)
            + piece_says(pieces[n - 1]));
    }
}

/// The text of a paragraph is what its pieces say, one after the other: its texts, a tabulator
/// for each tab and a line feed for each break.
pub proof fn law_paragraphs_say_their_pieces(
    before: Seq<Ev>,
    open: Ev,
    pieces: Seq<Piece>,
    close: Ev,
)
    requires
        texts_state(before).depth == 0,
        is_start(open, "w:p"),
        forall|i: int| 0 <= i < pieces.len() ==> is_piece(#[trigger] pieces[i]),
        is_end(close, "w:p"),
    ensures
        ({
            let n = pieces.len() as int;
            let s = texts_state((before.push(open) + pieces_events(pieces, n)).push(close));
            s.depth == 0 && s.done == texts_state(before).done.push(pieces_say(pieces, n))
        }),
{
    let n = pieces.len() as int;
    let a = before.push(open);
    lemma_push(before, open);
    lemma_pieces(a, pieces, n);
    lemma_push(a + pieces_events(pieces, n), close);
    assert(Seq::<char>::empty() + pieces_say(pieces, n) =~= pieces_say(pieces, n));
}

/// An empty paragraph says nothing, and what stands outside paragraphs is no paragraph.
pub proof fn law_empty_paragraphs_say_nothing(before: Seq<Ev>, e: Ev)
    requires
        texts_state(before).depth == 0,
    ensures
        is_empty_tag(e, "w:p") ==> texts_state(before.push(e)).done == texts_state(
            before,
        ).done.push(Seq::empty()),
        !is_empty_tag(e, "w:p") ==> texts_state(before.push(e)).done == texts_state(before).done,
        !is_start(e, "w:p") ==> texts_state(before.push(e)).depth == 0,
{
    lemma_push(before, e);
}

} // verus!
