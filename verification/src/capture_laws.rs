//! What is captured from footnotes.

use vstd::prelude::*;
use vstd::utf8::is_ascii_chars_encode_utf8;

use crate::bytes::lit;
use crate::footnote_format::{
    capture_start, capture_state, capture_step, captured_format, has_number_mark, has_positive_id,
    raw_text, rpr_bytes, rpr_start, rpr_stop, run_captured, separator_of, CaptureView,
};
use crate::style_mapper::is_open_tag;
use crate::text::{parsed_unsigned, trimmed, utf8_text};
use crate::xml::{
    attr_value, emitted_all, is_end, is_start, tag_attrs, tag_name, Ev, EventKind,
};

verus! {

/// A note is numbered where its id is a number greater than zero.
pub proof fn law_numbered_notes(e: Ev, id: Seq<u8>, text: Seq<char>, n: int)
    requires
        attr_value(tag_attrs(e, true), "w:id") == Some(id),
        utf8_text(id) == Some(text),
    ensures
        parsed_unsigned(text, i64::MAX as int) == Some(n) ==> (has_positive_id(e) <==> n > 0),
        parsed_unsigned(text, i64::MAX as int) is None ==> !has_positive_id(e),
{
}

// ---------------------------------------------------------------------------
// Runs
// ---------------------------------------------------------------------------

/// A run that says a tab separates by a tab; one with white space alone by that; and one with
/// other text is no separator.
pub proof fn law_separators(events: Seq<Ev>)
    ensures
        (exists|i: int|
            0 <= i < events.len() && ((#[trigger] events[i]).kind == EventKind::Start
                || events[i].kind == EventKind::Empty) && tag_name(events[i]) == lit("w:tab"))
            ==> separator_of(events) == Some(seq!['\t']),
        (forall|i: int| 0 <= i < events.len() ==> tag_name(#[trigger] events[i]) != lit("w:tab"))
            && trimmed(raw_text(events)).len() == 0 ==> separator_of(events) == Some(
            raw_text(events),
        ),
        (forall|i: int| 0 <= i < events.len() ==> tag_name(#[trigger] events[i]) != lit("w:tab"))
            && trimmed(raw_text(events)).len() > 0 ==> separator_of(events) is None,
{
    reveal_strlit("\t");
    assert("\t"@ =~= seq!['\t']);
    if exists|i: int|
        0 <= i < events.len() && ((#[trigger] events[i]).kind == EventKind::Start
            || events[i].kind == EventKind::Empty) && tag_name(events[i]) == lit("w:tab") {
        let i = choose|i: int|
            0 <= i < events.len() && ((#[trigger] events[i]).kind == EventKind::Start
                || events[i].kind == EventKind::Empty) && tag_name(events[i]) == lit("w:tab");
        assert(is_open_tag(events[i], "w:tab"));
    }
}

/// The text of a run is that of its text events, one after the other.
pub proof fn law_text_of_a_run(events: Seq<Ev>, e: Ev)
    ensures
        raw_text(Seq::empty()) == Seq::<char>::empty(),
        e.kind == EventKind::Text && utf8_text(e.raw) is Some ==> raw_text(events.push(e))
            == raw_text(events) + utf8_text(e.raw)->0,
        e.kind != EventKind::Text ==> raw_text(events.push(e)) == raw_text(events),
{
    assert(events.push(e).drop_last() =~= events);
}

proof fn lemma_props_stop(events: Seq<Ev>, i: int, j: int)
    requires
        0 <= i <= j < events.len(),
        forall|k: int| i <= k < j ==> (#[trigger] events[k]).kind == EventKind::Empty,
        events[j].kind == EventKind::End,
    ensures
        rpr_stop(events, i, 1) == j + 1,
    decreases j - i,
{
    if i < j {
        assert(events[i].kind == EventKind::Empty);
        lemma_props_stop(events, i + 1, j);
    }
}

proof fn lemma_rpr_start(events: Seq<Ev>, i: int, j: int)
    requires
        0 <= i <= j < events.len(),
        forall|k: int| i <= k < j ==> !is_start(#[trigger] events[k], "w:rPr"),
        is_start(events[j], "w:rPr"),
    ensures
        rpr_start(events, i) == Some(j),
    decreases j - i,
{
    if i < j {
        assert(!is_start(events[i], "w:rPr"));
        lemma_rpr_start(events, i + 1, j);
    }
}

/// The properties of a run are the bytes of its first properties, from tag to tag.
pub proof fn law_properties_of_a_run(
    before: Seq<Ev>,
    open: Ev,
    props: Seq<Ev>,
    close: Ev,
    rest: Seq<Ev>,
)
    requires
        forall|k: int| 0 <= k < before.len() ==> !is_start(#[trigger] before[k], "w:rPr"),
        is_start(open, "w:rPr"),
        forall|k: int| 0 <= k < props.len() ==> (#[trigger] props[k]).kind == EventKind::Empty,
        is_end(close, "w:rPr"),
    ensures
        rpr_bytes(before + (seq![open] + props).push(close) + rest) == Some(
            emitted_all((seq![open] + props).push(close)),
        ),
{
    let element = (seq![open] + props).push(close);
    let all = before + element + rest;
    let i = before.len() as int;
    let j = i + 1 + props.len();
    assert forall|k: int| 0 <= k < i implies !is_start(#[trigger] all[k], "w:rPr") by {
        assert(all[k] == before[k]);
    }
    assert(all[i] == open);
    lemma_rpr_start(all, 0, i);
    assert forall|k: int| i + 1 <= k < j implies (#[trigger] all[k]).kind == EventKind::Empty by {
        assert(all[k] == props[k - i - 1]);
    }
    assert(all[j] == close);
    lemma_props_stop(all, i + 1, j);
    assert(rpr_stop(all, i, 0) == j + 1);
    assert(all.subrange(i, j + 1) =~= element);
}

// ---------------------------------------------------------------------------
// Notes
// ---------------------------------------------------------------------------

proof fn lemma_push(events: Seq<Ev>, e: Ev)
    ensures
        capture_state(events.push(e)) == capture_step(capture_state(events), e),
{
    assert(events.push(e).drop_last() =~= events);
}

proof fn lemma_names()
    ensures
        lit("w:footnote") != lit("w:p"),
        lit("w:footnote") != lit("w:r"),
        lit("w:p") != lit("w:r"),
{
    reveal_strlit("w:footnote");
    reveal_strlit("w:p");
    reveal_strlit("w:r");
    is_ascii_chars_encode_utf8("w:footnote"@);
    is_ascii_chars_encode_utf8("w:p"@);
    is_ascii_chars_encode_utf8("w:r"@);
    assert(lit("w:footnote").len() == 10);
    assert(lit("w:p").len() == 3);
    assert(lit("w:r").len() == 3);
    assert(lit("w:p")[2] != lit("w:r")[2]);
}

/// No event is a tag of a note, of a paragraph or of a run.
pub open spec fn is_run_inside(events: Seq<Ev>) -> bool {
    forall|i: int|
        0 <= i < events.len() ==> tag_name(#[trigger] events[i]) != lit("w:footnote") && tag_name(
            events[i],
        ) != lit("w:p") && tag_name(events[i]) != lit("w:r")
}

proof fn lemma_inside(before: Seq<Ev>, inner: Seq<Ev>)
    requires
        is_run_inside(inner),
        !capture_state(before).stopped,
        capture_state(before).in_first_para,
        capture_state(before).run == Some(Seq::<Ev>::empty()),
    ensures
        capture_state(before + inner) == (CaptureView {
            run: Some(inner),
            ..capture_state(before)
        }),
    decreases inner.len(),
{
    if inner.len() == 0 {
        assert(before + inner =~= before);
        assert(inner =~= Seq::empty());
    } else {
        let init = inner.drop_last();
        let e = inner.last();
        assert forall|i: int| 0 <= i < init.len() implies tag_name(#[trigger] init[i]) != lit(
            "w:footnote",
        ) && tag_name(init[i]) != lit("w:p") && tag_name(init[i]) != lit("w:r") by {
            assert(init[i] == inner[i]);
        }
        assert(tag_name(inner[inner.len() - 1]) != lit("w:r"));
        lemma_inside(before, init);
        assert(before + inner =~= (before + init).push(e));
        lemma_push(before + init, e);
        assert(init.push(e) =~= inner);
    }
}

/// A run inside a first paragraph is taken whole.
proof fn lemma_run(before: Seq<Ev>, open: Ev, inner: Seq<Ev>, close: Ev)
    requires
        is_start(open, "w:r"),
        is_run_inside(inner),
        is_end(close, "w:r"),
        !capture_state(before).stopped,
        capture_state(before).in_first_para,
    ensures
        capture_state((before.push(open) + inner).push(close)) == run_captured(
            CaptureView { run: Some(inner), ..capture_state(before) },
            inner,
        ),
{
    lemma_names();
    let a = before.push(open);
    lemma_push(before, open);
    lemma_inside(a, inner);
    lemma_push(a + inner, close);
}

/// The format is captured from the first numbered footnote: the properties of the run with its
/// number, and what the run behind it says as a separator.
pub proof fn law_first_note_gives_the_format(
    before: Seq<Ev>,
    note: Ev,
    p: Ev,
    open: Ev,
    number: Seq<Ev>,
    close: Ev,
    open2: Ev,
    next: Seq<Ev>,
    close2: Ev,
)
    requires
        capture_state(before) == capture_start(),
        is_start(note, "w:footnote"),
        has_positive_id(note),
        is_start(p, "w:p"),
        is_start(open, "w:r"),
        is_run_inside(number),
        has_number_mark(number),
        rpr_bytes(number) is Some,
        is_end(close, "w:r"),
        is_start(open2, "w:r"),
        is_run_inside(next),
        is_end(close2, "w:r"),
    ensures
        ({
            let one = (before.push(note).push(p).push(open) + number).push(close);
            let all = (one.push(open2) + next).push(close2);
            let s = capture_state(all);
            &&& s.format.marker_rpr_xml == rpr_bytes(number)
            &&& s.format.separator == separator_of(next)
            &&& s.samples == 1
        }),
{
    lemma_names();
    let a = before.push(note);
    let b = a.push(p);
    lemma_push(before, note);
    lemma_push(a, p);
    lemma_run(b, open, number, close);
    let one = (b.push(open) + number).push(close);
    lemma_run(one, open2, next, close2);
}

/// What has been captured stays: neither a later note nor anything else changes it.
pub proof fn law_first_format_counts(before: Seq<Ev>, events: Seq<Ev>)
    ensures
        capture_state(before).format.marker_rpr_xml is Some ==> capture_state(
            before + events,
        ).format.marker_rpr_xml == capture_state(before).format.marker_rpr_xml,
        capture_state(before).format.separator is Some ==> capture_state(
            before + events,
        ).format.separator == capture_state(before).format.separator,
    decreases events.len(),
{
    if events.len() == 0 {
        assert(before + events =~= before);
    } else {
        law_first_format_counts(before, events.drop_last());
        assert(before + events =~= (before + events.drop_last()).push(events.last()));
        lemma_push(before + events.drop_last(), events.last());
    }
}

/// Notes that are not numbered give no format, and no more than three numbered ones are looked
/// at: behind the third nothing counts.
pub proof fn law_three_notes_are_looked_at(before: Seq<Ev>, end: Ev, events: Seq<Ev>)
    requires
        capture_state(before).samples >= 3,
        is_end(end, "w:footnote"),
    ensures
        capture_state(before.push(end) + events) == capture_state(before.push(end)),
    decreases events.len(),
{
    lemma_names();
    lemma_push(before, end);
    let a = before.push(end);
    if events.len() == 0 {
        assert(a + events =~= a);
    } else {
        law_three_notes_are_looked_at(before, end, events.drop_last());
        assert(a + events =~= (a + events.drop_last()).push(events.last()));
        lemma_push(a + events.drop_last(), events.last());
        lemma_stopped(before);
    }
}

proof fn lemma_stopped(before: Seq<Ev>)
    ensures
        capture_state(before).samples >= 0,
    decreases before.len(),
{
    if before.len() > 0 {
        lemma_stopped(before.drop_last());
    }
}

/// Where numbered footnotes were seen but no separator, the separator is empty; and without
/// numbered footnotes there is none.
pub proof fn law_missing_separators(s: CaptureView)
    ensures
        captured_format(s).marker_rpr_xml == s.format.marker_rpr_xml,
        s.format.separator is Some ==> captured_format(s).separator == s.format.separator,
        s.format.separator is None && s.samples > 0 ==> captured_format(s).separator == Some(
            Seq::<char>::empty(),
        ),
        s.format.separator is None && s.samples <= 0 ==> captured_format(s).separator is None,
{
}

} // verus!
