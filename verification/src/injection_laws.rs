//! What the paragraphs of a document say once its markers have become references.

use vstd::prelude::*;
use vstd::utf8::{
    encode_utf8, is_ascii_chars_encode_utf8, is_char_boundary_iff_is_leading_byte,
    is_leading_byte_width_1, pop_first_scalar, valid_utf8, valid_utf8_split,
};

use crate::bytes::{capped, lit};
use crate::clean_runs::{lemma_open_runs, lemma_run_closes, open_runs, runs_open};
use crate::error::Error;
use crate::joined::{lemma_nested_next, names_after};
use crate::note_injection::{
    after_markers, clone_events, in_order, inject_state, inject_step, is_between_texts,
    law_markers_cite_known_notes, law_split_loses_only_markers, law_split_run_is_written,
    law_split_run_says_its_pieces, lemma_reading_names, lemma_text_tag, markers, note_entries,
    notes_injected, piece_events, pieces_are_utf8, pieces_text, reference_events, run_markers,
    split_events, split_events_upto, text_tag, with_entries, with_notes, with_notes_relationship,
    with_notes_type, InjectView, InjectionReport, Marker,
};
use crate::notes_kind::{lemma_part_names, lemma_with_mapped, with_mapped};
use crate::ns::{PART_CONTENT_TYPES, PART_DOCUMENT, PART_DOCUMENT_RELS, PART_FOOTNOTES};
use crate::package::{lemma_with_part, part, with_part, Parts};
use crate::paragraph_runs::lemma_run_tags;
use crate::paragraph_text::{
    all_quiet, is_quiet, texts_extracted, texts_start, texts_state, texts_step, texts_view,
    TextsView,
};
use crate::text::decimal;
use crate::wellformed::{
    all_tokens, count_name, ends_in_text, is_block, is_token, lemma_append_block, lemma_blocks,
    lemma_emitted_concat, lemma_emitted_push, lemma_empty_block, lemma_enclose,
    lemma_first_counts, lemma_next, lemma_no_block, lemma_plain_scan, lemma_push,
    lemma_push_block, lemma_quoted_scan, open_names, starts_with_mark, tag_scan, well_formed,
};
use crate::xml::{
    attr_bytes, emitted_all, is_end, is_start, reads_back, xml_events, Ev, EventKind,
};

verus! {

/// Some marker in the text of the event cites a known note.
pub open spec fn is_marked(e: Ev, known: Set<u32>) -> bool {
    e.kind == EventKind::Text && markers(e.raw, known, 0).len() > 0
}

/// An extraction that leaves out the markers of known notes.
#[verifier::ext_equal]
pub struct CutView {
    pub texts: TextsView,
    /// How many markers have been left out.
    pub markers: nat,
}

/// Nothing read yet.
pub open spec fn cut_start() -> CutView {
    CutView { texts: texts_start(), markers: 0 }
}

/// What one event does to an extraction that leaves out the markers of known notes.
pub open spec fn cut_step(s: CutView, known: Set<u32>, e: Ev) -> CutView {
    let t = s.texts;
    if is_marked(e, known) {
        if t.depth >= 1 && t.ppr_depth < 1 && t.in_text {
            let ms = markers(e.raw, known, 0);
            CutView {
                texts: TextsView { current: t.current + pieces_text(e.raw, ms), ..t },
                markers: s.markers + ms.len(),
            }
        } else {
            s
        }
    } else {
        CutView { texts: texts_step(t, e), ..s }
    }
}

/// What `events` do to it.
pub open spec fn cut_from(s: CutView, known: Set<u32>, events: Seq<Ev>) -> CutView
    decreases events.len(),
{
    if events.len() == 0 {
        s
    } else {
        cut_step(cut_from(s, known, events.drop_last()), known, events.last())
    }
}

/// The visible texts of the body paragraphs without the markers of known notes.
pub open spec fn cut_texts(events: Seq<Ev>, known: Set<u32>) -> Seq<Seq<char>> {
    cut_from(cut_start(), known, events).texts.done
}

/// How many markers of known notes stand in these texts.
pub open spec fn cited_markers(events: Seq<Ev>, known: Set<u32>) -> nat {
    cut_from(cut_start(), known, events).markers
}

/// What has been written, as events, after one more event.
pub open spec fn injected_step(s: InjectView, x: Seq<Ev>, known: Set<u32>, e: Ev) -> Seq<Ev> {
    if is_start(e, "w:r") && s.depth == 0 {
        x
    } else if is_end(e, "w:r") && s.depth == 1 {
        let ms = run_markers(s, known);
        if ms.len() > 0 {
            x + split_events(s.open, s.t, s.text->0, ms)
        } else {
            (x.push(s.open) + s.payload).push(e)
        }
    } else if s.depth > 0 {
        x
    } else {
        x.push(e)
    }
}

/// The events of a document with its markers turned into references.
pub open spec fn injected(events: Seq<Ev>, known: Set<u32>) -> Seq<Ev>
    decreases events.len(),
{
    if events.len() == 0 {
        Seq::empty()
    } else {
        injected_step(
            inject_state(events.drop_last(), known),
            injected(events.drop_last(), known),
            known,
            events.last(),
        )
    }
}

/// None of the events is marked.
pub open spec fn none_marked(events: Seq<Ev>, known: Set<u32>) -> bool {
    forall|i: int| 0 <= i < events.len() ==> !is_marked(#[trigger] events[i], known)
}

/// The open run says one text, which stands at `k` among its contents.
pub open spec fn says_at(s: InjectView, k: int) -> bool {
    &&& 0 <= k
    &&& k + 2 < s.payload.len()
    &&& s.payload[k] == s.t
    &&& s.payload[k + 1] == (Ev { kind: EventKind::Text, raw: s.text->0 })
    &&& is_end(s.payload[k + 2], "w:t")
    &&& all_quiet(s.payload.take(k))
    &&& all_quiet(s.payload.skip(k + 3))
}

/// The open run says one text and nothing else.
pub open spec fn says_one_text(s: InjectView) -> bool {
    exists|k: int| says_at(s, k)
}

/// A marker stands in a run that says one text and nothing else, in a body paragraph.
pub open spec fn is_citable(events: Seq<Ev>, known: Set<u32>, i: int) -> bool {
    let s = inject_state(events.take(i), known);
    let e = events[i];
    &&& s.depth == 0 ==> !is_marked(e, known)
    &&& is_end(e, "w:r") && s.depth == 1 ==> if run_markers(s, known).len() > 0 {
        &&& says_one_text(s)
        &&& s.text->0.len() <= usize::MAX
        &&& valid_utf8(s.text->0)
        &&& is_between_texts(texts_state(injected(events.take(i), known)))
    } else {
        none_marked(s.payload, known)
    }
}

/// Every marker stands so.
pub open spec fn all_citable(events: Seq<Ev>, known: Set<u32>) -> bool {
    forall|i: int|
        #![trigger events[i]]
        0 <= i < events.len() ==> is_citable(events, known, i)
}

proof fn lemma_cut_push(s: CutView, known: Set<u32>, events: Seq<Ev>, e: Ev)
    ensures
        cut_from(s, known, events.push(e)) == cut_step(cut_from(s, known, events), known, e),
{
    assert(events.push(e).drop_last() =~= events);
}

proof fn lemma_cut_concat(s: CutView, known: Set<u32>, a: Seq<Ev>, b: Seq<Ev>)
    ensures
        cut_from(s, known, a + b) == cut_from(cut_from(s, known, a), known, b),
    decreases b.len(),
{
    if b.len() == 0 {
        assert(a + b =~= a);
    } else {
        lemma_cut_concat(s, known, a, b.drop_last());
        assert((a + b).drop_last() =~= a + b.drop_last());
    }
}

/// Where no event is marked, nothing is left out.
proof fn lemma_nothing_cut(before: Seq<Ev>, known: Set<u32>, events: Seq<Ev>, n: nat)
    requires
        none_marked(events, known),
    ensures
        cut_from(CutView { texts: texts_state(before), markers: n }, known, events) == (CutView {
            texts: texts_state(before + events),
            markers: n,
        }),
    decreases events.len(),
{
    if events.len() == 0 {
        assert(before + events =~= before);
    } else {
        let init = events.drop_last();
        assert forall|i: int| 0 <= i < init.len() implies !is_marked(#[trigger] init[i], known) by {
            assert(init[i] == events[i]);
        }
        assert(!is_marked(events[events.len() - 1], known));
        lemma_nothing_cut(before, known, init, n);
        assert((before + events).drop_last() =~= before + init);
    }
}

/// Quiet events do nothing between the texts of a paragraph.
proof fn lemma_cut_quiet(s: CutView, known: Set<u32>, events: Seq<Ev>)
    requires
        all_quiet(events),
        is_between_texts(s.texts),
    ensures
        cut_from(s, known, events) == s,
    decreases events.len(),
{
    if events.len() > 0 {
        let init = events.drop_last();
        assert forall|i: int| 0 <= i < init.len() implies is_quiet(#[trigger] init[i]) by {
            assert(init[i] == events[i]);
        }
        assert(is_quiet(events[events.len() - 1]));
        lemma_cut_quiet(s, known, init);
    }
}

proof fn lemma_names()
    ensures
        lit("w:r") != lit("w:p"),
        lit("w:r") != lit("w:pPr"),
        lit("w:r") != lit("w:t"),
        lit("w:t") != lit("w:p"),
        lit("w:t") != lit("w:pPr"),
{
    reveal_strlit("w:p");
    reveal_strlit("w:r");
    reveal_strlit("w:t");
    reveal_strlit("w:pPr");
    is_ascii_chars_encode_utf8("w:p"@);
    is_ascii_chars_encode_utf8("w:r"@);
    is_ascii_chars_encode_utf8("w:t"@);
    is_ascii_chars_encode_utf8("w:pPr"@);
    assert(lit("w:r")[2] != lit("w:p")[2]);
    assert(lit("w:r")[2] != lit("w:t")[2]);
    assert(lit("w:t")[2] != lit("w:p")[2]);
    assert(lit("w:r").len() != lit("w:pPr").len());
    assert(lit("w:t").len() != lit("w:pPr").len());
}

/// What a run with one text says without its markers.
proof fn lemma_one_text_cut(s: CutView, run: InjectView, known: Set<u32>, close: Ev)
    requires
        is_between_texts(s.texts),
        is_start(run.open, "w:r"),
        is_start(run.t, "w:t"),
        is_end(close, "w:r"),
        says_one_text(run),
        run.text is Some,
        markers(run.text->0, known, 0).len() > 0,
    ensures
        cut_from(s, known, (seq![run.open] + run.payload).push(close)) == (CutView {
            texts: TextsView {
                current: s.texts.current + pieces_text(
                    run.text->0,
                    markers(run.text->0, known, 0),
                ),
                ..s.texts
            },
            markers: s.markers + markers(run.text->0, known, 0).len(),
        }),
{
    lemma_names();
    let k = choose|k: int| says_at(run, k);
    let p = run.payload;
    let none = Seq::<Ev>::empty();
    let pre = p.take(k);
    let post = p.skip(k + 3);
    let a = none.push(run.open);
    assert(a =~= seq![run.open]);
    lemma_cut_push(s, known, none, run.open);
    let opened = CutView { texts: TextsView { runs: s.texts.runs + 1, ..s.texts }, ..s };
    assert(cut_from(s, known, a) == opened);
    lemma_cut_concat(s, known, a, pre);
    lemma_cut_quiet(opened, known, pre);
    let b = a + pre;
    lemma_cut_push(s, known, b, p[k]);
    let c = b.push(p[k]);
    lemma_cut_push(s, known, c, p[k + 1]);
    let d = c.push(p[k + 1]);
    lemma_cut_push(s, known, d, p[k + 2]);
    let f = d.push(p[k + 2]);
    let said = cut_from(s, known, f);
    assert(said == (CutView {
        texts: TextsView {
            current: s.texts.current + pieces_text(run.text->0, markers(run.text->0, known, 0)),
            ..opened.texts
        },
        markers: s.markers + markers(run.text->0, known, 0).len(),
    }));
    lemma_cut_concat(s, known, f, post);
    lemma_cut_quiet(said, known, post);
    assert(f + post =~= seq![run.open] + p);
    lemma_cut_push(s, known, seq![run.open] + p, close);
}

/// A text can be split at an ASCII byte, and behind it.
proof fn lemma_split_at(text: Seq<u8>, i: int)
    requires
        valid_utf8(text),
        0 <= i < text.len(),
        text[i] < 0x80,
    ensures
        valid_utf8(text.take(i)),
        valid_utf8(text.skip(i + 1)),
{
    is_char_boundary_iff_is_leading_byte(text, i);
    assert(is_leading_byte_width_1(text[i]));
    valid_utf8_split(text, i);
    assert(text.take(i) =~= text.subrange(0, i));
    let rest = text.subrange(i, text.len() as int);
    assert(rest[0] == text[i]);
    assert(pop_first_scalar(rest) =~= text.skip(i + 1));
}

/// The pieces of a text between its markers are UTF-8 where the text is.
proof fn lemma_pieces_utf8(text: Seq<u8>, known: Set<u32>)
    requires
        valid_utf8(text),
        text.len() <= usize::MAX,
    ensures
        pieces_are_utf8(text, markers(text, known, 0)),
{
    let ms = markers(text, known, 0);
    law_markers_cite_known_notes(text, known, 0);
    assert forall|k: int| 0 <= k <= ms.len() implies valid_utf8(
        text.skip(#[trigger] after_markers(ms, k)),
    ) by {
        if k == 0 {
            assert(text.skip(0) =~= text);
        } else {
            assert(text[ms[k - 1].end - 1] == 0x5d);
            lemma_split_at(text, ms[k - 1].end - 1);
        }
    }
    assert forall|k: int| 0 <= k < ms.len() implies valid_utf8(
        text.subrange(after_markers(ms, k), (#[trigger] ms[k]).start as int),
    ) by {
        let from = after_markers(ms, k);
        if k > 0 {
            assert(ms[k - 1].end <= ms[k].start);
        }
        let rest = text.skip(from);
        assert(valid_utf8(rest));
        let at = ms[k].start - from;
        assert(rest[at] == text[ms[k].start as int]);
        lemma_split_at(rest, at);
        assert(rest.take(at) =~= text.subrange(from, ms[k].start as int));
    }
    assert(valid_utf8(text.skip(after_markers(ms, ms.len() as int))));
}

/// The extraction without markers and the extraction of what is written go in step.
#[verifier::rlimit(60)]
proof fn lemma_in_step(events: Seq<Ev>, known: Set<u32>, n: int)
    requires
        all_citable(events, known),
        0 <= n <= events.len(),
    ensures
        ({
            let now = events.take(n);
            let s = inject_state(now, known);
            let u = CutView { texts: texts_state(injected(now, known)), markers: s.inserted };
            let c = cut_from(cut_start(), known, now);
            &&& s.depth >= 0
            &&& emitted_all(injected(now, known)) == s.out
            &&& s.depth == 0 ==> c == u
            &&& s.depth > 0 ==> {
                &&& c == cut_from(u, known, seq![s.open] + s.payload)
                &&& is_start(s.open, "w:r")
                &&& s.text is Some ==> is_start(s.t, "w:t")
            }
        }),
    decreases n,
{
    lemma_names();
    let now = events.take(n);
    let none = Seq::<Ev>::empty();
    if n == 0 {
        assert(now =~= none);
        assert(emitted_all(none) =~= Seq::<u8>::empty());
    } else {
        lemma_in_step(events, known, n - 1);
        let before = events.take(n - 1);
        let e = events[n - 1];
        assert(now =~= before.push(e));
        assert(now.drop_last() =~= before);
        let s = inject_state(before, known);
        let x = injected(before, known);
        let u = CutView { texts: texts_state(x), markers: s.inserted };
        lemma_cut_push(cut_start(), known, before, e);
        assert(is_citable(events, known, n - 1));
        let run = seq![s.open] + s.payload;
        if is_start(e, "w:r") && s.depth == 0 {
            lemma_cut_push(u, known, none, e);
            assert(none.push(e) =~= seq![e] + none);
        } else if is_end(e, "w:r") && s.depth == 1 {
            let ms = run_markers(s, known);
            lemma_cut_push(u, known, run, e);
            if ms.len() > 0 {
                lemma_pieces_utf8(s.text->0, known);
                law_split_run_says_its_pieces(x, s.open, s.t, s.text->0, ms);
                law_split_run_is_written(s.open, s.t, s.text->0, ms);
                lemma_emitted_concat(x, split_events(s.open, s.t, s.text->0, ms));
                lemma_one_text_cut(u, s, known, e);
            } else {
                let whole = run.push(e);
                assert forall|i: int| 0 <= i < whole.len() implies !is_marked(
                    #[trigger] whole[i],
                    known,
                ) by {
                    if 0 < i < whole.len() - 1 {
                        assert(whole[i] == s.payload[i - 1]);
                    }
                }
                lemma_nothing_cut(x, known, whole, s.inserted);
                assert((x.push(s.open) + s.payload).push(e) =~= x + whole);
                lemma_emitted_push(x, s.open);
                lemma_emitted_concat(x.push(s.open), s.payload);
                lemma_emitted_push(x.push(s.open) + s.payload, e);
            }
        } else if s.depth > 0 {
            lemma_cut_push(u, known, run, e);
            assert(seq![s.open] + s.payload.push(e) =~= run.push(e));
        } else {
            assert(x.push(e).drop_last() =~= x);
            lemma_emitted_push(x, e);
        }
    }
}

// ---------------------------------------------------------------------------
// The form of what is written
// ---------------------------------------------------------------------------

proof fn lemma_digits(n: nat)
    ensures
        forall|i: int| 0 <= i < decimal(n).len() ==> '0' <= #[trigger] decimal(n)[i] <= '9',
    decreases n,
{
    if n >= 10 {
        lemma_digits(n / 10);
        let d = decimal(n);
        assert forall|i: int| 0 <= i < d.len() implies '0' <= #[trigger] d[i] <= '9' by {
            if i < d.len() - 1 {
                assert(d[i] == decimal(n / 10)[i]);
            }
        }
    }
}

/// A tag that ends in one attribute.
proof fn lemma_attribute_token(kind: EventKind, head: Seq<u8>, value: Seq<u8>)
    requires
        kind == EventKind::Start || kind == EventKind::Empty,
        head.len() > 0,
        head[0] == 0x77,
        tag_scan(head) is Outside,
        !value.contains(0x22),
    ensures
        is_token(Ev { kind, raw: (head.push(0x22) + value).push(0x22) }),
{
    lemma_quoted_scan(head, 0x22, value);
    let raw = (head.push(0x22) + value).push(0x22);
    assert(raw[0] == head[0]);
    assert(raw.last() == 0x22);
}

proof fn lemma_reference_tokens(number: u32)
    ensures
        all_tokens(reference_events(number)),
{
    let es = reference_events(number);
    let none = Seq::<u8>::empty();
    let run = lit("w:r");
    let rpr = lit("w:rPr");
    let style = lit("w:rStyle w:val=\"FootnoteReference\"");
    let head = lit("w:footnoteReference w:id=\"");
    let id = encode_utf8(decimal(number as nat));
    reveal_strlit("w:r");
    reveal_strlit("w:rPr");
    reveal_strlit("w:rStyle w:val=\"FootnoteReference\"");
    reveal_strlit("w:footnoteReference w:id=\"");
    reveal_strlit("\"");
    is_ascii_chars_encode_utf8("w:r"@);
    is_ascii_chars_encode_utf8("w:rPr"@);
    is_ascii_chars_encode_utf8("w:rStyle w:val=\"FootnoteReference\""@);
    is_ascii_chars_encode_utf8("w:footnoteReference w:id=\""@);
    is_ascii_chars_encode_utf8("\""@);
    lemma_plain_scan(none, run);
    lemma_plain_scan(none, rpr);
    assert(none + run =~= run);
    assert(none + rpr =~= rpr);
    lemma_plain_scan(none, style.take(15));
    assert(none + style.take(15) =~= style.take(15));
    lemma_attribute_token(EventKind::Empty, style.take(15), style.subrange(16, 33));
    assert(style =~= (style.take(15).push(0x22) + style.subrange(16, 33)).push(0x22));
    lemma_plain_scan(none, head.take(25));
    assert(none + head.take(25) =~= head.take(25));
    lemma_digits(number as nat);
    is_ascii_chars_encode_utf8(decimal(number as nat));
    assert(!id.contains(0x22)) by {
        assert forall|i: int| 0 <= i < id.len() implies id[i] != 0x22 by {
            assert('0' <= decimal(number as nat)[i] <= '9');
        }
    }
    lemma_attribute_token(EventKind::Empty, head.take(25), id);
    assert(es[4].raw =~= (head.take(25).push(0x22) + id).push(0x22));
}

/// A reference is one run.
proof fn lemma_reference_block(number: u32)
    ensures
        is_block(reference_events(number)),
{
    let es = reference_events(number);
    lemma_reference_tokens(number);
    assert(is_token(es[0]) && is_token(es[1]) && is_token(es[2]) && is_token(es[3]));
    assert(is_token(es[4]) && is_token(es[5]));
    lemma_reading_names();
    lemma_empty_block(es[2]);
    lemma_enclose(es[1], seq![es[2]], es[3]);
    let props = seq![es[1]] + seq![es[2]] + seq![es[3]];
    lemma_push_block(props, es[4]);
    lemma_enclose(es[0], props.push(es[4]), es[5]);
    assert(es =~= seq![es[0]] + props.push(es[4]) + seq![es[5]]);
}

proof fn lemma_text_tag_token(t: Ev, text: Seq<u8>)
    requires
        is_start(t, "w:t"),
        is_token(t),
    ensures
        is_token(text_tag(t, text)),
{
    let more = attr_bytes(lit("xml:space"), lit("preserve"));
    reveal_strlit(" ");
    reveal_strlit("xml:space");
    reveal_strlit("=\"");
    reveal_strlit("preserve");
    reveal_strlit("\"");
    is_ascii_chars_encode_utf8(" "@);
    is_ascii_chars_encode_utf8("xml:space"@);
    is_ascii_chars_encode_utf8("=\""@);
    is_ascii_chars_encode_utf8("preserve"@);
    is_ascii_chars_encode_utf8("\""@);
    lemma_plain_scan(t.raw, more.take(11));
    lemma_quoted_scan(t.raw + more.take(11), 0x22, more.subrange(12, 20));
    let raw = t.raw + more;
    assert(raw =~= ((t.raw + more.take(11)).push(0x22) + more.subrange(12, 20)).push(0x22));
    assert(raw.last() == 0x22);
    if t.raw.len() > 0 {
        assert(raw[0] == t.raw[0]);
    }
}

/// A piece of a text.
spec fn is_piece(text: Seq<u8>) -> bool {
    !text.contains(0x3c)
}

/// A clone of a run is one run.
proof fn lemma_piece_block(run: Ev, t: Ev, text: Seq<u8>)
    requires
        is_start(run, "w:r"),
        is_token(run),
        is_start(t, "w:t"),
        is_token(t),
        is_piece(text),
    ensures
        is_block(piece_events(run, t, text)),
{
    lemma_no_block();
    if text.len() > 0 {
        let es = clone_events(run, t, text);
        lemma_text_tag(t, text);
        lemma_text_tag_token(t, text);
        lemma_run_tags();
        lemma_enclose(es[1], seq![es[2]], es[3]);
        let inner = seq![es[1]] + seq![es[2]] + seq![es[3]];
        lemma_enclose(es[0], inner, es[4]);
        assert(es =~= seq![es[0]] + inner + seq![es[4]]);
    }
}

proof fn lemma_sub_piece(text: Seq<u8>, from: int, to: int)
    requires
        is_piece(text),
        0 <= from <= to <= text.len(),
    ensures
        is_piece(text.subrange(from, to)),
{
    let sub = text.subrange(from, to);
    if sub.contains(0x3c) {
        let i = choose|i: int| 0 <= i < sub.len() && sub[i] == 0x3c;
        assert(text[from + i] == 0x3c);
    }
}

proof fn lemma_split_block(run: Ev, t: Ev, text: Seq<u8>, ms: Seq<Marker>, n: int)
    requires
        is_start(run, "w:r"),
        is_token(run),
        is_start(t, "w:t"),
        is_token(t),
        is_piece(text),
        in_order(ms, text.len() as int),
        0 <= n <= ms.len(),
    ensures
        is_block(split_events_upto(run, t, text, ms, n)),
        n > 0 ==> split_events_upto(run, t, text, ms, n).len() > 0,
    decreases n,
{
    lemma_no_block();
    if n > 0 {
        lemma_split_block(run, t, text, ms, n - 1);
        let m = ms[n - 1];
        let from = after_markers(ms, n - 1);
        law_split_loses_only_markers(text, ms, n - 1);
        if n > 1 {
            assert(ms[n - 2].end <= ms[n - 1].start);
        }
        lemma_sub_piece(text, from, m.start as int);
        let here = text.subrange(from, m.start as int);
        lemma_piece_block(run, t, here);
        lemma_reference_block(m.number);
        let so_far = split_events_upto(run, t, text, ms, n - 1);
        lemma_blocks(so_far, piece_events(run, t, here));
        lemma_blocks(so_far + piece_events(run, t, here), reference_events(m.number));
    }
}

/// The runs that a run with markers is split into are whole elements.
proof fn lemma_split_events_block(run: Ev, t: Ev, text: Seq<u8>, ms: Seq<Marker>)
    requires
        is_start(run, "w:r"),
        is_token(run),
        is_start(t, "w:t"),
        is_token(t),
        is_piece(text),
        in_order(ms, text.len() as int),
        ms.len() > 0,
    ensures
        is_block(split_events(run, t, text, ms)),
        split_events(run, t, text, ms).len() > 0,
{
    let n = ms.len() as int;
    lemma_split_block(run, t, text, ms, n);
    law_split_loses_only_markers(text, ms, n);
    let from = after_markers(ms, n);
    lemma_sub_piece(text, from, text.len() as int);
    assert(text.subrange(from, text.len() as int) =~= text.skip(from));
    lemma_piece_block(run, t, text.skip(from));
    lemma_blocks(
        split_events_upto(run, t, text, ms, n),
        piece_events(run, t, text.skip(from)),
    );
}

/// How what has been written relates to what has been read.
spec fn in_form(s: InjectView, x: Seq<Ev>, before: Seq<Ev>) -> bool {
    let names = open_names(before)->0;
    let outer = open_names(x)->0;
    let k = outer.len() as int;
    let whole = x.push(s.open) + s.payload;
    &&& well_formed(x)
    &&& s.depth >= 0
    &&& x.len() > 0 ==> before.len() > 0 && (x[0] == before[0] || x[0].kind != EventKind::Text)
    &&& s.depth == 0 ==> outer == names && (ends_in_text(x) ==> ends_in_text(before))
    &&& s.depth > 0 ==> {
        &&& k < names.len()
        &&& outer == names.take(k)
        &&& names[k] == lit("w:r")
        &&& open_runs(names, k) == s.depth
        &&& well_formed(whole)
        &&& open_names(whole)->0 == names
        &&& ends_in_text(whole) ==> ends_in_text(before)
        &&& before.len() > 0
        &&& x.len() == 0 ==> s.open == before[0]
        &&& is_token(s.open)
        &&& is_start(s.open, "w:r")
        &&& s.text is Some ==> is_start(s.t, "w:t") && is_token(s.t) && is_piece(s.text->0)
    }
}

/// An event outside runs keeps the form.
proof fn lemma_form_outside(s: InjectView, x: Seq<Ev>, known: Set<u32>, before: Seq<Ev>, e: Ev)
    requires
        in_form(s, x, before),
        s.depth == 0,
        before.len() > 0 ==> x.len() > 0,
        well_formed(before),
        well_formed(before.push(e)),
        is_token(e),
        e.kind == EventKind::Text ==> !ends_in_text(before),
        names_after(open_names(before)->0, e) is Some,
        open_names(before.push(e)) == names_after(open_names(before)->0, e),
    ensures
        in_form(inject_step(s, known, e), injected_step(s, x, known, e), before.push(e)),
        inject_step(s, known, e).depth == 0 ==> injected_step(s, x, known, e).len() > 0,
{
    let now = before.push(e);
    let names = open_names(before)->0;
    let k = names.len() as int;
    lemma_push(x, e);
    if before.len() > 0 {
        assert(now[0] == before[0]);
    }
    if is_start(e, "w:r") {
        assert(names.push(lit("w:r")).take(k) =~= names);
        assert(x.push(e) + Seq::<Ev>::empty() =~= x.push(e));
        lemma_new_run(names);
    } else {
        assert(x.push(e).last() == e && now.last() == e);
    }
}

/// The end of the outermost run keeps the form.
proof fn lemma_form_closed(s: InjectView, x: Seq<Ev>, known: Set<u32>, before: Seq<Ev>, e: Ev)
    requires
        in_form(s, x, before),
        s.depth == 1,
        is_end(e, "w:r"),
        is_token(e),
        names_after(open_names(before)->0, e) is Some,
        open_names(before.push(e)) == names_after(open_names(before)->0, e),
        run_markers(s, known).len() > 0 ==> s.text is Some && s.text->0.len() <= usize::MAX,
    ensures
        in_form(inject_step(s, known, e), injected_step(s, x, known, e), before.push(e)),
        injected_step(s, x, known, e).len() > 0,
{
    let now = before.push(e);
    let names = open_names(before)->0;
    let k = open_names(x)->0.len() as int;
    let whole = x.push(s.open) + s.payload;
    assert(now[0] == before[0]);
    assert(now.last() == e);
    lemma_reading_names();
    lemma_run_closes(names, k);
    assert(names.take(k) =~= names.drop_last());
    let ms = run_markers(s, known);
    if ms.len() > 0 {
        let text = s.text->0;
        law_markers_cite_known_notes(text, known, 0);
        lemma_split_events_block(s.open, s.t, text, ms);
        let more = split_events(s.open, s.t, text, ms);
        lemma_append_block(x, more);
        if x.len() > 0 {
            assert((x + more)[0] == x[0]);
        } else {
            assert((x + more)[0] == more[0]);
        }
    } else {
        lemma_push(whole, e);
        assert(whole.push(e).last() == e);
        if x.len() > 0 {
            assert(whole.push(e)[0] == x[0]);
        } else {
            assert(whole.push(e)[0] == s.open);
        }
    }
}

/// An event inside a run keeps the form.
proof fn lemma_form_inside(s: InjectView, x: Seq<Ev>, known: Set<u32>, before: Seq<Ev>, e: Ev)
    requires
        in_form(s, x, before),
        s.depth > 0,
        !(is_end(e, "w:r") && s.depth == 1),
        is_token(e),
        e.kind == EventKind::Text ==> !ends_in_text(before),
        names_after(open_names(before)->0, e) is Some,
        open_names(before.push(e)) == names_after(open_names(before)->0, e),
    ensures
        in_form(inject_step(s, known, e), injected_step(s, x, known, e), before.push(e)),
        inject_step(s, known, e).depth > 0,
{
    let now = before.push(e);
    let names = open_names(before)->0;
    let k = open_names(x)->0.len() as int;
    let whole = x.push(s.open) + s.payload;
    assert(now[0] == before[0]);
    assert(now.last() == e);
    lemma_push(whole, e);
    assert(x.push(s.open) + s.payload.push(e) =~= whole.push(e));
    assert(whole.push(e).last() == e);
    lemma_open_runs(names, k, e);
    lemma_run_stays(names, k, e);
    if e.kind == EventKind::Text && s.text is Some {
        lemma_joined_piece(s.text->0, e.raw);
    }
    assert(is_piece(Seq::<u8>::empty()));
}

/// The injection keeps the form of a document.
proof fn lemma_form(events: Seq<Ev>, known: Set<u32>, n: int)
    requires
        well_formed(events),
        all_citable(events, known),
        0 <= n <= events.len(),
    ensures
        in_form(
            inject_state(events.take(n), known),
            injected(events.take(n), known),
            events.take(n),
        ),
        inject_state(events.take(n), known).depth == 0 && n > 0 ==> injected(
            events.take(n),
            known,
        ).len() > 0,
    decreases n,
{
    let now = events.take(n);
    if n == 0 {
        lemma_no_block();
        assert(now =~= Seq::empty());
    } else {
        lemma_form(events, known, n - 1);
        lemma_next(events, n - 1);
        lemma_nested_next(events, n - 1);
        let before = events.take(n - 1);
        let e = events[n - 1];
        assert(now =~= before.push(e));
        assert(now.drop_last() =~= before);
        let s = inject_state(before, known);
        let x = injected(before, known);
        assert(is_citable(events, known, n - 1));
        lemma_reading_names();
        if s.depth == 0 {
            lemma_form_outside(s, x, known, before, e);
        } else if is_end(e, "w:r") && s.depth == 1 {
            lemma_form_closed(s, x, known, before, e);
        } else {
            lemma_form_inside(s, x, known, before, e);
        }
    }
}

proof fn lemma_new_run(names: Seq<Seq<u8>>)
    ensures
        open_runs(names.push(lit("w:r")), names.len() as int) == 1,
{
    assert(names.push(lit("w:r")).skip(names.len() as int) =~= seq![lit("w:r")]);
    assert(seq![lit("w:r")].drop_last() =~= Seq::empty());
    reveal_with_fuel(count_name, 2);
}

/// An event that does not close the outermost run leaves it open.
proof fn lemma_run_stays(names: Seq<Seq<u8>>, k: int, e: Ev)
    requires
        0 <= k < names.len(),
        names[k] == lit("w:r"),
        names_after(names, e) is Some,
        !(is_end(e, "w:r") && open_runs(names, k) == 1),
    ensures
        k < names_after(names, e)->0.len(),
        names_after(names, e)->0[k] == names[k],
        names_after(names, e)->0.take(k) == names.take(k),
        runs_open(open_runs(names, k), e) > 0,
{
    let after = names_after(names, e)->0;
    let inner = names.skip(k);
    assert(inner[0] == names[k]);
    lemma_first_counts(inner, lit("w:r"));
    if e.kind == EventKind::End {
        assert(names.last() == inner.last());
        if names.len() == k + 1 {
            assert(inner.drop_last() =~= Seq::empty());
            reveal_with_fuel(count_name, 2);
        }
    }
    assert(after.take(k) =~= names.take(k));
}

proof fn lemma_joined_piece(a: Seq<u8>, b: Seq<u8>)
    requires
        is_piece(a),
        is_piece(b),
    ensures
        is_piece(a + b),
{
    if (a + b).contains(0x3c) {
        let i = choose|i: int| 0 <= i < (a + b).len() && (a + b)[i] == 0x3c;
        if i < a.len() {
            assert(a[i] == 0x3c);
        } else {
            assert(b[i - a.len()] == 0x3c);
        }
    }
}

/// The document of a package after an injection.
proof fn lemma_document_after(parts: Parts, bodies: Map<u32, &str>, cited: Seq<u32>, out: Seq<u8>)
    ensures
        part(with_notes(with_part(parts, PART_DOCUMENT@, out), bodies, cited), PART_DOCUMENT@)
            == Some(out),
{
    lemma_part_names();
    let p0 = with_part(parts, PART_DOCUMENT@, out);
    let notes = with_entries(part(p0, PART_FOOTNOTES@), note_entries(bodies, cited));
    lemma_with_part(parts, PART_DOCUMENT@, out);
    lemma_with_part(p0, PART_FOOTNOTES@, notes);
    let p1 = with_part(p0, PART_FOOTNOTES@, notes);
    let types = |d: Seq<u8>| with_notes_type(d);
    lemma_with_mapped(p1, PART_CONTENT_TYPES@, types);
    let p2 = with_mapped(p1, PART_CONTENT_TYPES@, types);
    lemma_with_mapped(p2, PART_DOCUMENT_RELS@, |d: Seq<u8>| with_notes_relationship(d));
}

/// Where nothing is inserted, everything is written as it was.
proof fn lemma_untouched(events: Seq<Ev>, known: Set<u32>, n: int)
    requires
        inject_state(events.take(n), known).inserted == 0,
        0 <= n <= events.len(),
    ensures
        ({
            let s = inject_state(events.take(n), known);
            let x = injected(events.take(n), known);
            &&& s.depth == 0 ==> x == events.take(n)
            &&& s.depth > 0 ==> x.push(s.open) + s.payload == events.take(n)
            &&& s.depth >= 0
        }),
    decreases n,
{
    let now = events.take(n);
    let none = Seq::<Ev>::empty();
    if n == 0 {
        assert(now =~= none);
    } else {
        let before = events.take(n - 1);
        let e = events[n - 1];
        assert(now =~= before.push(e));
        assert(now.drop_last() =~= before);
        lemma_untouched(events, known, n - 1);
        let s = inject_state(before, known);
        let x = injected(before, known);
        assert(x.push(e) + none =~= x.push(e));
        assert(x.push(s.open) + s.payload.push(e) =~= (x.push(s.open) + s.payload).push(e));
    }
}

/// Once markers have become references, every paragraph says what it said before without
/// the markers, and the report counts them. Left out are documents that are not closed or
/// start with a second byte order mark, and documents with a marker outside the body
/// paragraphs, or in a run that says more than one text (whose clones keep only the text
/// with the marker) or text that is not UTF-8.
pub proof fn law_texts_lose_only_markers(
    before: Parts,
    bodies: Map<u32, &str>,
    after: Parts,
    report: Result<InjectionReport, Error>,
    res: Result<Vec<String>, Error>,
)
    requires
        notes_injected(before, bodies, after, report),
        report is Ok,
        part(before, PART_DOCUMENT@) is Some,
        ({
            let events = xml_events(part(before, PART_DOCUMENT@)->0);
            &&& all_citable(events, bodies.dom())
            &&& open_names(events) == Some(Seq::<Seq<u8>>::empty())
            &&& !starts_with_mark(events)
        }),
        texts_extracted(after, res),
    ensures
        ({
            let events = xml_events(part(before, PART_DOCUMENT@)->0);
            &&& res is Ok
            &&& texts_view(res->Ok_0@) == cut_texts(events, bodies.dom())
            &&& report->Ok_0.inserted == capped(cited_markers(events, bodies.dom()) as int)
        }),
{
    let known = bodies.dom();
    let doc = part(before, PART_DOCUMENT@)->0;
    let events = xml_events(doc);
    let n = events.len() as int;
    assert(events.take(n) =~= events);
    lemma_in_step(events, known, n);
    lemma_form(events, known, n);
    let s = inject_state(events, known);
    let out = injected(events, known);
    assert(s.depth == 0);
    if s.inserted > 0 {
        lemma_document_after(before, bodies, s.seen, s.out);
        if n == 0 {
            assert(events =~= Seq::empty());
        }
        assert(!starts_with_mark(out));
        assert(reads_back(out));
    } else {
        lemma_untouched(events, known, n);
    }
}

} // verus!
