//! What becomes of a note to which a format is applied.

use vstd::prelude::*;
use vstd::utf8::{encode_utf8, is_ascii_chars_encode_utf8};

use crate::bytes::lit;
use crate::footnote_format::{
    find_rpr, first_para, has_number_mark, has_tab, is_separator_event, notes_state, notes_step,
    number_run, raw_text, run_stop, runs_state, runs_step, separator_normalized,
    separator_payload, separator_run, spliced, top_runs, with_rpr,
    without_separator, FormatView, NotesView, RunsView, SpanView,
};
use crate::style_mapper::is_open_tag;
use crate::text::trimmed;
use crate::wellformed::{lemma_emitted_concat, lemma_emitted_one};
use crate::xml::{emitted, emitted_all, is_end, is_start, xml_events, Ev, EventKind};

verus! {

// ---------------------------------------------------------------------------
// Notes
// ---------------------------------------------------------------------------

proof fn lemma_notes_push(events: Seq<Ev>, format: FormatView, e: Ev)
    ensures
        notes_state(events.push(e), format) == notes_step(notes_state(events, format), format, e),
{
    assert(events.push(e).drop_last() =~= events);
}

/// Outside the first paragraph of a numbered note everything stays as it is.
pub proof fn law_other_paragraphs_stay(before: Seq<Ev>, format: FormatView, e: Ev)
    requires
        !notes_state(before, format).in_first_para,
        !(notes_state(before, format).in_note && notes_state(before, format).paragraphs == 0
            && is_start(e, "w:p")),
    ensures
        notes_state(before.push(e), format).out == notes_state(before, format).out + emitted(e),
        notes_state(before.push(e), format).touched == notes_state(before, format).touched,
        !notes_state(before.push(e), format).in_first_para,
{
    lemma_notes_push(before, format, e);
}

/// Neither a tag of a paragraph nor one of a note.
pub open spec fn is_inline(e: Ev) -> bool {
    &&& !is_start(e, "w:p") && !is_end(e, "w:p")
    &&& !is_start(e, "w:footnote") && !is_end(e, "w:footnote")
    &&& !is_start(e, "w:endnote") && !is_end(e, "w:endnote")
}

proof fn lemma_payload(before: Seq<Ev>, format: FormatView, inner: Seq<Ev>)
    requires
        notes_state(before, format).in_first_para,
        forall|i: int| 0 <= i < inner.len() ==> is_inline(#[trigger] inner[i]),
    ensures
        notes_state(before + inner, format) == (NotesView {
            payload: notes_state(before, format).payload + inner,
            ..notes_state(before, format)
        }),
    decreases inner.len(),
{
    let s = notes_state(before, format);
    if inner.len() == 0 {
        assert(before + inner =~= before);
        assert(s.payload + inner =~= s.payload);
    } else {
        let init = inner.drop_last();
        assert forall|i: int| 0 <= i < init.len() implies is_inline(#[trigger] init[i]) by {
            assert(init[i] == inner[i]);
        }
        assert(is_inline(inner[inner.len() - 1]));
        lemma_payload(before, format, init);
        lemma_notes_push(before + init, format, inner.last());
        assert(before + inner =~= (before + init).push(inner.last()));
        assert((s.payload + init).push(inner.last()) =~= s.payload + inner);
    }
}

/// The contents of a numbered note's first paragraph are rewritten between its own tags, and
/// the note counts as touched where they were.
pub proof fn law_first_paragraphs_are_rewritten(
    before: Seq<Ev>,
    format: FormatView,
    open: Ev,
    inner: Seq<Ev>,
    close: Ev,
)
    requires
        notes_state(before, format).in_note,
        !notes_state(before, format).in_first_para,
        notes_state(before, format).paragraphs == 0,
        is_start(open, "w:p"),
        forall|i: int| 0 <= i < inner.len() ==> is_inline(#[trigger] inner[i]),
        is_end(close, "w:p"),
    ensures
        ({
            let s = notes_state(before, format);
            let t = notes_state((before.push(open) + inner).push(close), format);
            let (para, rewritten) = first_para(inner, format);
            &&& t.out == s.out + emitted(open) + emitted_all(para) + emitted(close)
            &&& t.touched == s.touched + if rewritten {
                1int
            } else {
                0
            }
            &&& t.in_note && !t.in_first_para && t.paragraphs > 0
        }),
{
    reveal_strlit("w:p");
    reveal_strlit("w:footnote");
    reveal_strlit("w:endnote");
    is_ascii_chars_encode_utf8("w:p"@);
    is_ascii_chars_encode_utf8("w:footnote"@);
    is_ascii_chars_encode_utf8("w:endnote"@);
    assert(lit("w:p").len() == 3 && lit("w:footnote").len() == 10 && lit("w:endnote").len() == 9);
    lemma_notes_push(before, format, open);
    lemma_payload(before.push(open), format, inner);
    lemma_notes_push(before.push(open) + inner, format, close);
    assert(Seq::<Ev>::empty() + inner =~= inner);
}

// ---------------------------------------------------------------------------
// Runs
// ---------------------------------------------------------------------------

/// No tag of a run.
pub open spec fn no_runs(events: Seq<Ev>) -> bool {
    forall|i: int|
        0 <= i < events.len() ==> !is_start(#[trigger] events[i], "w:r") && !is_end(
            events[i],
            "w:r",
        )
}

proof fn lemma_runs_push(events: Seq<Ev>, e: Ev)
    ensures
        runs_state(events.push(e)) == runs_step(runs_state(events), e, events.len() as int),
{
    assert(events.push(e).drop_last() =~= events);
}

proof fn lemma_quiet(before: Seq<Ev>, inner: Seq<Ev>)
    requires
        no_runs(inner),
    ensures
        ({
            let s = runs_state(before);
            runs_state(before + inner) == (RunsView {
                has_number: s.has_number || s.depth > 0 && has_number_mark(inner),
                ..s
            })
        }),
    decreases inner.len(),
{
    if inner.len() == 0 {
        assert(before + inner =~= before);
    } else {
        let init = inner.drop_last();
        let e = inner.last();
        assert forall|i: int| 0 <= i < init.len() implies !is_start(#[trigger] init[i], "w:r")
            && !is_end(init[i], "w:r") by {
            assert(init[i] == inner[i]);
        }
        assert(inner[inner.len() - 1] == e);
        lemma_quiet(before, init);
        lemma_runs_push(before + init, e);
        assert(before + inner =~= (before + init).push(e));
        if has_number_mark(init) {
            let i = choose|i: int|
                0 <= i < init.len() && is_open_tag(#[trigger] init[i], "w:footnoteRef");
            assert(is_open_tag(inner[i], "w:footnoteRef"));
        }
        if has_number_mark(inner) && !is_open_tag(e, "w:footnoteRef") {
            let i = choose|i: int|
                0 <= i < inner.len() && is_open_tag(#[trigger] inner[i], "w:footnoteRef");
            assert(is_open_tag(init[i], "w:footnoteRef"));
        }
    }
}

proof fn lemma_run_added(before: Seq<Ev>, open: Ev, inner: Seq<Ev>, close: Ev)
    requires
        runs_state(before).depth == 0,
        is_start(open, "w:r"),
        no_runs(inner),
        is_end(close, "w:r"),
    ensures
        runs_state((before.push(open) + inner).push(close)) == (RunsView {
            done: runs_state(before).done.push(
                SpanView {
                    start: before.len() as int,
                    end: (before.len() + 1 + inner.len()) as int,
                    has_number: has_number_mark(inner),
                },
            ),
            start: None,
            depth: 0,
            has_number: false,
        }),
{
    lemma_runs_push(before, open);
    lemma_quiet(before.push(open), inner);
    lemma_runs_push(before.push(open) + inner, close);
}

proof fn lemma_done_grows(a: Seq<Ev>, b: Seq<Ev>)
    ensures
        runs_state(a).done.len() <= runs_state(a + b).done.len(),
        forall|i: int|
            0 <= i < runs_state(a).done.len() ==> runs_state(a + b).done[i]
                == #[trigger] runs_state(a).done[i],
    decreases b.len(),
{
    if b.len() == 0 {
        assert(a + b =~= a);
    } else {
        lemma_done_grows(a, b.drop_last());
        lemma_runs_push(a + b.drop_last(), b.last());
        assert(a + b =~= (a + b.drop_last()).push(b.last()));
    }
}

proof fn lemma_no_number(events: Seq<Ev>)
    requires
        !has_number_mark(events),
    ensures
        !runs_state(events).has_number,
        forall|i: int|
            0 <= i < runs_state(events).done.len() ==> !(#[trigger] runs_state(
                events,
            ).done[i]).has_number,
    decreases events.len(),
{
    if events.len() > 0 {
        let init = events.drop_last();
        assert(!is_open_tag(events[events.len() - 1], "w:footnoteRef"));
        assert forall|i: int| 0 <= i < init.len() implies !is_open_tag(
            #[trigger] init[i],
            "w:footnoteRef",
        ) by {
            assert(init[i] == events[i]);
        }
        lemma_no_number(init);
    }
}

proof fn lemma_none_numbered(runs: Seq<SpanView>, i: int)
    requires
        forall|k: int| 0 <= k < runs.len() ==> !(#[trigger] runs[k]).has_number,
        0 <= i,
    ensures
        number_run(runs, i) is None,
    decreases runs.len() - i,
{
    if i < runs.len() {
        lemma_none_numbered(runs, i + 1);
    }
}

/// A paragraph without a number stays as it is.
pub proof fn law_paragraphs_without_number_stay(events: Seq<Ev>, format: FormatView)
    requires
        !has_number_mark(events),
    ensures
        first_para(events, format) == (events, false),
{
    lemma_no_number(events);
    lemma_none_numbered(top_runs(events), 0);
}

// ---------------------------------------------------------------------------
// The number
// ---------------------------------------------------------------------------

/// Run properties that hold no element that has contents, or none at all.
pub open spec fn is_rpr(events: Seq<Ev>) -> bool {
    events.len() == 0 || {
        &&& events.len() > 1
        &&& is_start(events[0], "w:rPr")
        &&& is_end(events.last(), "w:rPr")
        &&& forall|i: int|
            0 < i < events.len() - 1 ==> (#[trigger] events[i]).kind != EventKind::Start
                && events[i].kind != EventKind::End
    }
}

/// No start of run properties.
pub open spec fn no_rpr(events: Seq<Ev>) -> bool {
    forall|i: int| 0 <= i < events.len() ==> !is_start(#[trigger] events[i], "w:rPr")
}

proof fn lemma_no_rpr(events: Seq<Ev>, i: int, end: int)
    requires
        0 <= i,
        end <= events.len(),
        forall|k: int| i <= k < end ==> !is_start(#[trigger] events[k], "w:rPr"),
    ensures
        find_rpr(events, i, end, None, 0) is None,
    decreases end - i,
{
    if i < end {
        lemma_no_rpr(events, i + 1, end);
    }
}

proof fn lemma_in_rpr(events: Seq<Ev>, i: int, stop: int, end: int, start: int)
    requires
        0 <= i <= stop < end <= events.len(),
        forall|k: int|
            i <= k < stop ==> (#[trigger] events[k]).kind != EventKind::Start && events[k].kind
                != EventKind::End,
        is_end(events[stop], "w:rPr"),
    ensures
        find_rpr(events, i, end, Some(start), 1) == Some((start, stop)),
    decreases stop - i,
{
    if i < stop {
        lemma_in_rpr(events, i + 1, stop, end, start);
    }
}

/// A run with the number of a note, as it stands in the note's first paragraph: its tags, its
/// properties and what follows them.
pub open spec fn number_events(open: Ev, rpr: Seq<Ev>, rest: Seq<Ev>, close: Ev) -> Seq<Ev> {
    seq![open] + rpr + rest + seq![close]
}

proof fn lemma_with_rpr(
    before: Seq<Ev>,
    open: Ev,
    old_rpr: Seq<Ev>,
    rest: Seq<Ev>,
    close: Ev,
    after: Seq<Ev>,
    new: Seq<Ev>,
    number: bool,
)
    requires
        is_rpr(old_rpr),
        no_rpr(rest),
    ensures
        with_rpr(
            before + number_events(open, old_rpr, rest, close) + after,
            SpanView {
                start: before.len() as int,
                end: (before.len() + 1 + old_rpr.len() + rest.len()) as int,
                has_number: number,
            },
            new,
        ) == before + number_events(open, new, rest, close) + after,
{
    let events = before + number_events(open, old_rpr, rest, close) + after;
    let a = (before.len() + 1) as int;
    let end = a + old_rpr.len() + rest.len();
    if old_rpr.len() == 0 {
        assert forall|k: int| a <= k < end implies !is_start(#[trigger] events[k], "w:rPr") by {
            assert(events[k] == rest[k - a]);
        }
        lemma_no_rpr(events, a as int, end as int);
        assert(spliced(events, a as int, a as int, new) =~= before + number_events(
            open,
            new,
            rest,
            close,
        ) + after);
    } else {
        let stop = a + old_rpr.len() - 1;
        assert(events[a as int] == old_rpr[0]);
        assert(events[stop] == old_rpr.last());
        assert forall|k: int| a + 1 <= k < stop implies (#[trigger] events[k]).kind
            != EventKind::Start && events[k].kind != EventKind::End by {
            assert(events[k] == old_rpr[k - a]);
        }
        lemma_in_rpr(events, a + 1, stop, end as int, a as int);
        assert(spliced(events, a as int, stop + 1, new) =~= before + number_events(
            open,
            new,
            rest,
            close,
        ) + after);
    }
}

proof fn lemma_number_run(
    before: Seq<Ev>,
    open: Ev,
    rpr: Seq<Ev>,
    rest: Seq<Ev>,
    close: Ev,
    after: Seq<Ev>,
)
    requires
        no_runs(before),
        is_start(open, "w:r"),
        no_runs(rpr),
        no_runs(rest),
        has_number_mark(rest),
        is_end(close, "w:r"),
    ensures
        ({
            let head = before + number_events(open, rpr, rest, close);
            let run = SpanView {
                start: before.len() as int,
                end: (before.len() + 1 + rpr.len() + rest.len()) as int,
                has_number: true,
            };
            &&& runs_state(head) == (RunsView {
                done: seq![run],
                start: None,
                depth: 0,
                has_number: false,
            })
            &&& top_runs(head + after).len() > 0
            &&& top_runs(head + after)[0] == run
            &&& number_run(top_runs(head + after), 0) == Some(0int)
        }),
{
    let none = Seq::<Ev>::empty();
    lemma_quiet(none, before);
    assert(none + before =~= before);
    let inner = rpr + rest;
    assert(no_runs(inner)) by {
        assert forall|i: int| 0 <= i < inner.len() implies !is_start(#[trigger] inner[i], "w:r")
            && !is_end(inner[i], "w:r") by {
            if i < rpr.len() {
                assert(inner[i] == rpr[i]);
            } else {
                assert(inner[i] == rest[i - rpr.len()]);
            }
        }
    }
    let i = choose|i: int| 0 <= i < rest.len() && is_open_tag(#[trigger] rest[i], "w:footnoteRef");
    assert(is_open_tag(inner[rpr.len() + i], "w:footnoteRef"));
    lemma_run_added(before, open, inner, close);
    let head = before + number_events(open, rpr, rest, close);
    assert(head =~= (before.push(open) + inner).push(close));
    let run = SpanView {
        start: before.len() as int,
        end: (before.len() + 1 + rpr.len() + rest.len()) as int,
        has_number: true,
    };
    assert(runs_state(head).done =~= seq![run]);
    lemma_done_grows(head, after);
    assert(runs_state(head).done[0] == run);
}

/// The number of a note gets the properties of the format in place of its own, or at the start
/// of its run where it has none, and nothing else changes.
pub proof fn law_number_gets_its_properties(
    before: Seq<Ev>,
    open: Ev,
    old_rpr: Seq<Ev>,
    rest: Seq<Ev>,
    close: Ev,
    after: Seq<Ev>,
    rpr: Seq<u8>,
)
    requires
        no_runs(before),
        is_start(open, "w:r"),
        is_rpr(old_rpr),
        no_runs(old_rpr),
        no_runs(rest),
        no_rpr(rest),
        has_number_mark(rest),
        is_end(close, "w:r"),
    ensures
        first_para(
            before + number_events(open, old_rpr, rest, close) + after,
            FormatView { marker_rpr_xml: Some(rpr), separator: None },
        ) == (before + number_events(open, xml_events(rpr), rest, close) + after, true),
{
    lemma_number_run(before, open, old_rpr, rest, close, after);
    lemma_with_rpr(before, open, old_rpr, rest, close, after, xml_events(rpr), true);
}

// ---------------------------------------------------------------------------
// The separator
// ---------------------------------------------------------------------------

/// A tab is a tab element, and any other separator a text element, which keeps its spaces.
pub proof fn law_separators_are_written(text: Seq<char>)
    ensures
        emitted_all(separator_payload("\t"@)) == lit("<w:tab/>"),
        text != "\t"@ && text.contains(' ') ==> emitted_all(separator_payload(text)) == lit(
            "<w:t xml:space=\"preserve\">",
        ) + encode_utf8(text) + lit("</w:t>"),
        text != "\t"@ && !text.contains(' ') ==> emitted_all(separator_payload(text)) == lit(
            "<w:t>",
        ) + encode_utf8(text) + lit("</w:t>"),
        emitted_all(separator_run(text)) == lit("<w:r>") + emitted_all(separator_payload(text))
            + lit("</w:r>"),
{
    reveal_strlit("<");
    reveal_strlit("</");
    reveal_strlit(">");
    reveal_strlit("/>");
    reveal_strlit("w:tab");
    reveal_strlit("<w:tab/>");
    reveal_strlit("w:t");
    reveal_strlit("<w:t>");
    reveal_strlit("</w:t>");
    reveal_strlit("w:r");
    reveal_strlit("<w:r>");
    reveal_strlit("</w:r>");
    reveal_strlit(" ");
    reveal_strlit("xml:space");
    reveal_strlit("=\"");
    reveal_strlit("preserve");
    reveal_strlit("\"");
    reveal_strlit("<w:t xml:space=\"preserve\">");
    is_ascii_chars_encode_utf8("<"@);
    is_ascii_chars_encode_utf8("</"@);
    is_ascii_chars_encode_utf8(">"@);
    is_ascii_chars_encode_utf8("/>"@);
    is_ascii_chars_encode_utf8("w:tab"@);
    is_ascii_chars_encode_utf8("<w:tab/>"@);
    is_ascii_chars_encode_utf8("w:t"@);
    is_ascii_chars_encode_utf8("<w:t>"@);
    is_ascii_chars_encode_utf8("</w:t>"@);
    is_ascii_chars_encode_utf8("w:r"@);
    is_ascii_chars_encode_utf8("<w:r>"@);
    is_ascii_chars_encode_utf8("</w:r>"@);
    is_ascii_chars_encode_utf8(" "@);
    is_ascii_chars_encode_utf8("xml:space"@);
    is_ascii_chars_encode_utf8("=\""@);
    is_ascii_chars_encode_utf8("preserve"@);
    is_ascii_chars_encode_utf8("\""@);
    is_ascii_chars_encode_utf8("<w:t xml:space=\"preserve\">"@);
    let tab = separator_payload("\t"@);
    lemma_emitted_one(tab[0]);
    assert(tab =~= seq![tab[0]]);
    assert(emitted_all(tab) =~= lit("<w:tab/>"));
    let p = separator_payload(text);
    let open = seq![Ev { kind: EventKind::Start, raw: lit("w:r") }];
    let close = seq![Ev { kind: EventKind::End, raw: lit("w:r") }];
    lemma_emitted_concat(open + p, close);
    lemma_emitted_concat(open, p);
    lemma_emitted_one(open[0]);
    lemma_emitted_one(close[0]);
    assert(emitted(open[0]) =~= lit("<w:r>"));
    assert(emitted(close[0]) =~= lit("</w:r>"));
    assert(separator_run(text) =~= open + p + close);
    if text != "\t"@ {
        let a = seq![p[0]];
        let b = seq![p[1]];
        let c = seq![p[2]];
        lemma_emitted_concat(a + b, c);
        lemma_emitted_concat(a, b);
        lemma_emitted_one(p[0]);
        lemma_emitted_one(p[1]);
        lemma_emitted_one(p[2]);
        assert(p =~= a + b + c);
        assert(emitted(p[2]) =~= lit("</w:t>"));
        if text.contains(' ') {
            assert(emitted(p[0]) =~= lit("<w:t xml:space=\"preserve\">"));
        } else {
            assert(emitted(p[0]) =~= lit("<w:t>"));
        }
    }
}

proof fn lemma_all_kept(events: Seq<Ev>, pred: spec_fn(Ev) -> bool)
    requires
        forall|i: int| 0 <= i < events.len() ==> pred(#[trigger] events[i]),
    ensures
        events.filter(pred) == events,
    decreases events.len(),
{
    reveal(Seq::filter);
    if events.len() > 0 {
        let init = events.drop_last();
        assert forall|i: int| 0 <= i < init.len() implies pred(#[trigger] init[i]) by {
            assert(init[i] == events[i]);
        }
        lemma_all_kept(init, pred);
        assert(pred(events[events.len() - 1]));
        assert(init.push(events.last()) =~= events);
    }
}

proof fn lemma_none_kept(events: Seq<Ev>, pred: spec_fn(Ev) -> bool)
    requires
        forall|i: int| 0 <= i < events.len() ==> !pred(#[trigger] events[i]),
    ensures
        events.filter(pred) == Seq::<Ev>::empty(),
    decreases events.len(),
{
    reveal(Seq::filter);
    if events.len() > 0 {
        let init = events.drop_last();
        assert forall|i: int| 0 <= i < init.len() implies !pred(#[trigger] init[i]) by {
            assert(init[i] == events[i]);
        }
        lemma_none_kept(init, pred);
        assert(!pred(events[events.len() - 1]));
    }
}

proof fn lemma_stripped(kept: Seq<Ev>, gone: Seq<Ev>)
    requires
        forall|i: int| 0 <= i < kept.len() ==> !is_separator_event(#[trigger] kept[i]),
        forall|i: int| 0 <= i < gone.len() ==> is_separator_event(#[trigger] gone[i]),
    ensures
        (kept + gone).filter(|e: Ev| !is_separator_event(e)) == kept,
{
    let pred = |e: Ev| !is_separator_event(e);
    Seq::filter_distributes_over_add(kept, gone, pred);
    lemma_all_kept(kept, pred);
    lemma_none_kept(gone, pred);
    assert(kept + Seq::<Ev>::empty() =~= kept);
}

proof fn lemma_inner_replaced(
    before: Seq<Ev>,
    open: Ev,
    inner: Seq<Ev>,
    close: Ev,
    after: Seq<Ev>,
    new: Seq<Ev>,
)
    ensures
        ({
            let events = before + (seq![open] + inner + seq![close]) + after;
            let start = before.len() as int;
            let end = start + 1 + inner.len();
            &&& events.subrange(start + 1, end) == inner
            &&& spliced(events, start + 1, end, new) == before + (seq![open] + new + seq![close])
                + after
        }),
{
    let events = before + (seq![open] + inner + seq![close]) + after;
    let start = before.len() as int;
    let end = start + 1 + inner.len();
    assert(events.subrange(start + 1, end) =~= inner);
    assert(spliced(events, start + 1, end, new) =~= before + (seq![open] + new + seq![close])
        + after);
}

#[verifier::rlimit(40)]
proof fn lemma_bare(
    before: Seq<Ev>,
    open: Ev,
    kept: Seq<Ev>,
    gone: Seq<Ev>,
    close: Ev,
    after: Seq<Ev>,
    run: SpanView,
)
    requires
        forall|i: int| 0 <= i < kept.len() ==> !is_separator_event(#[trigger] kept[i]),
        forall|i: int| 0 <= i < gone.len() ==> is_separator_event(#[trigger] gone[i]),
        run.start == before.len(),
        run.end == before.len() + 1 + kept.len() + gone.len(),
    ensures
        ({
            let events = before + (seq![open] + (kept + gone) + seq![close]) + after;
            &&& events.subrange(run.start + 1, run.end) == kept + gone
            &&& without_separator(events, run) == before + (seq![open] + kept + seq![close])
                + after
        }),
{
    lemma_inner_replaced(before, open, kept + gone, close, after, kept);
    lemma_stripped(kept, gone);
}

#[verifier::rlimit(40)]
proof fn lemma_filled(
    before: Seq<Ev>,
    open: Ev,
    kept: Seq<Ev>,
    close: Ev,
    after: Seq<Ev>,
    payload: Seq<Ev>,
)
    requires
        is_start(open, "w:r"),
        no_runs(kept),
        is_end(close, "w:r"),
    ensures
        ({
            let bare = before + (seq![open] + kept + seq![close]) + after;
            let stop = run_stop(bare, before.len() as int, 0);
            spliced(bare, stop, stop, payload) == before + (seq![open] + kept + payload + seq![
                close,
            ]) + after
        }),
{
    let bare = before + (seq![open] + kept + seq![close]) + after;
    let start = before.len() as int;
    let stop = start + 1 + kept.len();
    assert(bare[start] == open);
    assert(bare[stop] == close);
    assert forall|k: int| start + 1 <= k < stop implies !is_start(#[trigger] bare[k], "w:r")
        && !is_end(bare[k], "w:r") by {
        assert(bare[k] == kept[k - start - 1]);
    }
    lemma_run_stop(bare, start + 1, stop);
    assert(run_stop(bare, start, 0) == stop);
    assert(spliced(bare, stop, stop, payload) =~= before + (seq![open] + kept + payload + seq![
        close,
    ]) + after);
}

proof fn lemma_run_stop(events: Seq<Ev>, i: int, stop: int)
    requires
        0 <= i <= stop < events.len(),
        forall|k: int|
            i <= k < stop ==> !is_start(#[trigger] events[k], "w:r") && !is_end(events[k], "w:r"),
        is_end(events[stop], "w:r"),
    ensures
        run_stop(events, i, 1) == stop,
    decreases stop - i,
{
    if i < stop {
        lemma_run_stop(events, i + 1, stop);
    }
}

/// The run after the number gets the wanted separator. A run that says something stays as it is
/// behind a run with the separator. A separator that is the wanted one stays. Another is
/// replaced, and the properties before it stay; where none is wanted, it is taken out.
#[verifier::rlimit(40)]
pub proof fn law_separator_is_the_wanted_one(
    before: Seq<Ev>,
    open: Ev,
    kept: Seq<Ev>,
    gone: Seq<Ev>,
    close: Ev,
    after: Seq<Ev>,
    wanted: Seq<char>,
    number: bool,
)
    requires
        is_start(open, "w:r"),
        no_runs(kept),
        no_runs(gone),
        forall|i: int| 0 <= i < kept.len() ==> !is_separator_event(#[trigger] kept[i]),
        forall|i: int| 0 <= i < gone.len() ==> is_separator_event(#[trigger] gone[i]),
        is_end(close, "w:r"),
    ensures
        ({
            let inner = kept + gone;
            let events = before + (seq![open] + inner + seq![close]) + after;
            let run = SpanView {
                start: before.len() as int,
                end: (before.len() + 1 + inner.len()) as int,
                has_number: number,
            };
            let out = separator_normalized(events, run, wanted);
            let says = !has_tab(inner) && trimmed(raw_text(inner)).len() > 0;
            let same = if has_tab(inner) {
                wanted == "\t"@
            } else {
                wanted == raw_text(inner)
            };
            &&& says && wanted.len() > 0 ==> out == before + separator_run(wanted) + (seq![open]
                + inner + seq![close]) + after
            &&& says && wanted.len() == 0 ==> out == events
            &&& !says && same && wanted.len() > 0 ==> out == events
            &&& !says && !same && wanted.len() > 0 ==> out == before + (seq![open] + kept
                + separator_payload(wanted) + seq![close]) + after
            &&& !says && wanted.len() == 0 ==> out == before + (seq![open] + kept + seq![close])
                + after
        }),
{
    let inner = kept + gone;
    let events = before + (seq![open] + inner + seq![close]) + after;
    let run = SpanView {
        start: before.len() as int,
        end: (before.len() + 1 + inner.len()) as int,
        has_number: number,
    };
    lemma_bare(before, open, kept, gone, close, after, run);
    lemma_filled(before, open, kept, close, after, separator_payload(wanted));
    assert(spliced(events, run.start, run.start, separator_run(wanted)) =~= before
        + separator_run(wanted) + (seq![open] + inner + seq![close]) + after);
}

/// The separator of a note stands in the run after its number: the one that follows is settled
/// there, whatever the properties of the number become, and where none follows one is added.
pub proof fn law_separator_follows_the_number(
    before: Seq<Ev>,
    open: Ev,
    rpr: Seq<Ev>,
    rest: Seq<Ev>,
    close: Ev,
    between: Seq<Ev>,
    next: Ev,
    inner: Seq<Ev>,
    last: Ev,
    after: Seq<Ev>,
    wanted: Seq<char>,
)
    requires
        no_runs(before),
        is_start(open, "w:r"),
        no_runs(rpr),
        no_runs(rest),
        has_number_mark(rest),
        is_end(close, "w:r"),
        no_runs(between),
        is_start(next, "w:r"),
        no_runs(inner),
        is_end(last, "w:r"),
    ensures
        ({
            let format = FormatView { marker_rpr_xml: None, separator: Some(wanted) };
            let head = before + number_events(open, rpr, rest, close) + between;
            let events = head + (seq![next] + inner + seq![last]) + after;
            &&& first_para(events, format) == (
                separator_normalized(
                    events,
                    SpanView {
                        start: head.len() as int,
                        end: (head.len() + 1 + inner.len()) as int,
                        has_number: has_number_mark(inner),
                    },
                    wanted,
                ),
                true,
            )
            &&& wanted.len() > 0 ==> first_para(head, format) == (
                before + number_events(open, rpr, rest, close) + separator_run(wanted) + between,
                true,
            )
            &&& wanted.len() == 0 ==> first_para(head, format) == (head, false)
        }),
{
    let number = before + number_events(open, rpr, rest, close);
    let head = number + between;
    let element = seq![next] + inner + seq![last];
    let events = head + element + after;
    lemma_number_run(before, open, rpr, rest, close, between);
    lemma_number_run(before, open, rpr, rest, close, between + element + after);
    assert(number + (between + element + after) =~= events);
    lemma_quiet(number, between);
    lemma_run_added(head, next, inner, last);
    assert((head.push(next) + inner).push(last) =~= head + element);
    lemma_done_grows(head + element, after);
    assert(runs_state(head + element).done.len() == 2);
    assert(runs_state(head + element).done[1].start == head.len());
    let end = number.len() as int;
    assert(spliced(head, end, end, separator_run(wanted)) =~= number + separator_run(wanted)
        + between);
}

/// A format with properties and a separator is applied as its properties and then its
/// separator are.
pub proof fn law_properties_and_separator(
    before: Seq<Ev>,
    open: Ev,
    old_rpr: Seq<Ev>,
    rest: Seq<Ev>,
    close: Ev,
    after: Seq<Ev>,
    rpr: Seq<u8>,
    wanted: Seq<char>,
)
    requires
        no_runs(before),
        is_start(open, "w:r"),
        is_rpr(old_rpr),
        no_runs(old_rpr),
        no_runs(xml_events(rpr)),
        no_runs(rest),
        no_rpr(rest),
        has_number_mark(rest),
        is_end(close, "w:r"),
    ensures
        first_para(
            before + number_events(open, old_rpr, rest, close) + after,
            FormatView { marker_rpr_xml: Some(rpr), separator: Some(wanted) },
        ).0 == first_para(
            before + number_events(open, xml_events(rpr), rest, close) + after,
            FormatView { marker_rpr_xml: None, separator: Some(wanted) },
        ).0,
{
    lemma_number_run(before, open, old_rpr, rest, close, after);
    lemma_number_run(before, open, xml_events(rpr), rest, close, after);
    lemma_with_rpr(before, open, old_rpr, rest, close, after, xml_events(rpr), true);
}

} // verus!
