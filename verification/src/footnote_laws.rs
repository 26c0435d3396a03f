//! A format that has been applied to a note is the format that is found in it.

use vstd::prelude::*;
use vstd::utf8::*;

use crate::bytes::lit;
use crate::error::Error;
use crate::footnote_form::{
    is_closed, lemma_bare_closed, lemma_find_element, lemma_insert, lemma_replace,
    lemma_run_inside, lemma_separator_block, lemma_separator_run_block,
};
use crate::footnote_format::{
    capture_start, capture_state, capture_step, captured_format, event, find_rpr, first_para,
    format_applied, format_found, format_set, has_number_mark, has_positive_id, has_tab,
    is_separator_event, no_format, notes_formatted, notes_state, number_run, raw_text, rpr_bytes,
    rpr_start, rpr_stop, run_captured, run_stop, runs_state, runs_step, separator_normalized,
    separator_of, separator_payload, separator_run, separator_settled, top_runs, with_rpr,
    without_separator, CaptureView, FootnoteFormat, FormatView, SpanView,
};
use crate::joined::{lemma_nested_next, names_after};
use crate::ns::{PART_ENDNOTES, PART_FOOTNOTES};
use crate::package::{lemma_with_part, part, Parts};
use crate::story::{lemma_pass_part, lemma_story_names, pass_part, Pass};
use crate::style_mapper::is_open_tag;
use crate::text::{trimmed, utf8_text};
use crate::wellformed::{
    ends_in_text, is_element, is_token, lemma_append, lemma_emitted_concat, lemma_emitted_push,
    lemma_inner_names, lemma_next, lemma_no_block, lemma_push, open_names, starts_with_mark,
    well_formed,
};
use crate::xml::{
    attr_bytes, emitted_all, is_end, is_start, name_end, reads_back, tag_name, xml_events, Ev,
    EventKind,
};

verus! {

// ---------------------------------------------------------------------------
// The runs of a paragraph
// ---------------------------------------------------------------------------

/// How far the runs of a paragraph have been read.
#[verifier::ext_equal]
pub struct PayloadsView {
    /// Whether no run stands in another, and no paragraph or note in the paragraph.
    pub simple: bool,
    /// The contents of the complete runs.
    pub done: Seq<Seq<Ev>>,
    /// The contents of the open run so far.
    pub run: Option<Seq<Ev>>,
}

/// A tag of a paragraph or a note.
pub open spec fn is_outer_tag(e: Ev) -> bool {
    is_start(e, "w:p") || is_end(e, "w:p") || is_start(e, "w:footnote") || is_end(e, "w:footnote")
}

/// An event that opens or closes neither a run nor what runs stand in.
pub open spec fn is_inner(e: Ev) -> bool {
    !is_outer_tag(e) && !is_start(e, "w:r") && !is_end(e, "w:r")
}

/// Every event is such an event.
pub open spec fn all_inner(events: Seq<Ev>) -> bool {
    forall|i: int| 0 <= i < events.len() ==> is_inner(#[trigger] events[i])
}

/// What one event does.
pub open spec fn payloads_step(s: PayloadsView, e: Ev) -> PayloadsView {
    if is_outer_tag(e) {
        PayloadsView { simple: false, ..s }
    } else if is_start(e, "w:r") {
        PayloadsView { simple: s.simple && s.run is None, run: Some(Seq::empty()), ..s }
    } else if is_end(e, "w:r") {
        match s.run {
            Some(events) => PayloadsView { done: s.done.push(events), run: None, ..s },
            None => PayloadsView { simple: false, ..s },
        }
    } else {
        PayloadsView {
            run: match s.run {
                Some(events) => Some(events.push(e)),
                None => None,
            },
            ..s
        }
    }
}

/// What `events` do.
pub open spec fn payloads_from(s: PayloadsView, events: Seq<Ev>) -> PayloadsView
    decreases events.len(),
{
    if events.len() == 0 {
        s
    } else {
        payloads_step(payloads_from(s, events.drop_last()), events.last())
    }
}

/// Some runs read, none open.
pub open spec fn between_runs(done: Seq<Seq<Ev>>) -> PayloadsView {
    PayloadsView { simple: true, done, run: None }
}

/// The contents of the runs of a paragraph.
pub open spec fn payloads(events: Seq<Ev>) -> Seq<Seq<Ev>> {
    payloads_from(between_runs(Seq::empty()), events).done
}

/// A paragraph with runs none of which stands in another.
pub open spec fn is_simple(events: Seq<Ev>) -> bool {
    let s = payloads_from(between_runs(Seq::empty()), events);
    s.simple && s.run is None
}

proof fn lemma_payloads_push(s: PayloadsView, events: Seq<Ev>, e: Ev)
    ensures
        payloads_from(s, events.push(e)) == payloads_step(payloads_from(s, events), e),
{
    assert(events.push(e).drop_last() =~= events);
}

proof fn lemma_payloads_concat(s: PayloadsView, a: Seq<Ev>, b: Seq<Ev>)
    ensures
        payloads_from(s, a + b) == payloads_from(payloads_from(s, a), b),
    decreases b.len(),
{
    if b.len() == 0 {
        assert(a + b =~= a);
    } else {
        lemma_payloads_concat(s, a, b.drop_last());
        assert((a + b).drop_last() =~= a + b.drop_last());
    }
}

/// What has been read before does not matter for what is read next.
proof fn lemma_payloads_after(s: PayloadsView, done: Seq<Seq<Ev>>, events: Seq<Ev>)
    ensures
        ({
            let alone = payloads_from(PayloadsView { done: Seq::empty(), ..s }, events);
            payloads_from(PayloadsView { done, ..s }, events) == (PayloadsView {
                done: done + alone.done,
                ..alone
            })
        }),
    decreases events.len(),
{
    let alone = payloads_from(PayloadsView { done: Seq::empty(), ..s }, events);
    if events.len() == 0 {
        assert(done + Seq::<Seq<Ev>>::empty() =~= done);
    } else {
        let init = events.drop_last();
        lemma_payloads_after(s, done, init);
        let before = payloads_from(PayloadsView { done: Seq::empty(), ..s }, init);
        if let Some(run) = before.run {
            assert(done + before.done.push(run) =~= (done + before.done).push(run));
        }
    }
}

/// Events inside a run.
proof fn lemma_payloads_inner(s: PayloadsView, events: Seq<Ev>)
    requires
        all_inner(events),
        s.run is Some,
    ensures
        payloads_from(s, events) == (PayloadsView { run: Some(s.run->0 + events), ..s }),
    decreases events.len(),
{
    if events.len() == 0 {
        assert(s.run->0 + events =~= s.run->0);
    } else {
        let init = events.drop_last();
        assert forall|i: int| 0 <= i < init.len() implies is_inner(#[trigger] init[i]) by {
            assert(init[i] == events[i]);
        }
        lemma_payloads_inner(s, init);
        assert(is_inner(events[events.len() - 1]));
        assert(s.run->0 + events =~= (s.run->0 + init).push(events.last()));
    }
}

/// A run with its tags.
pub open spec fn whole_run(open: Ev, inner: Seq<Ev>, close: Ev) -> Seq<Ev> {
    seq![open] + inner + seq![close]
}

/// A run between others.
proof fn lemma_payloads_run(
    before: Seq<Ev>,
    open: Ev,
    inner: Seq<Ev>,
    close: Ev,
    after: Seq<Ev>,
)
    requires
        is_simple(before),
        is_simple(after),
        is_start(open, "w:r"),
        is_end(close, "w:r"),
        all_inner(inner),
    ensures
        ({
            let all = before + whole_run(open, inner, close) + after;
            &&& is_simple(all)
            &&& payloads(all) == payloads(before).push(inner) + payloads(after)
        }),
{
    lemma_names();
    let none = between_runs(Seq::empty());
    let a = payloads_from(none, before);
    let run = whole_run(open, inner, close);
    assert(run =~= (seq![open] + inner).push(close));
    assert(Seq::<Ev>::empty().push(open) =~= seq![open]);
    lemma_payloads_push(a, Seq::empty(), open);
    lemma_payloads_concat(a, seq![open], inner);
    lemma_payloads_inner(payloads_from(a, seq![open]), inner);
    assert(Seq::<Ev>::empty() + inner =~= inner);
    lemma_payloads_push(a, seq![open] + inner, close);
    let b = payloads_from(a, run);
    assert(b == between_runs(a.done.push(inner)));
    lemma_payloads_concat(none, before, run);
    lemma_payloads_concat(none, before + run, after);
    lemma_payloads_after(none, b.done, after);
}

proof fn lemma_names()
    ensures
        lit("w:r") != lit("w:p"),
        lit("w:r") != lit("w:footnote"),
        lit("w:r") != lit("w:rPr"),
        lit("w:r") != lit("w:footnoteRef"),
        lit("w:rPr") != lit("w:p"),
        lit("w:rPr") != lit("w:footnote"),
        lit("w:rPr") != lit("w:footnoteRef"),
        lit("w:t") != lit("w:r"),
        lit("w:t") != lit("w:p"),
        lit("w:t") != lit("w:tab"),
        lit("w:t") != lit("w:footnote"),
        lit("w:tab") != lit("w:r"),
        lit("w:tab") != lit("w:p"),
        lit("w:tab") != lit("w:footnote"),
{
    reveal_strlit("w:p");
    reveal_strlit("w:r");
    reveal_strlit("w:t");
    reveal_strlit("w:tab");
    reveal_strlit("w:rPr");
    reveal_strlit("w:footnote");
    reveal_strlit("w:footnoteRef");
    is_ascii_chars_encode_utf8("w:p"@);
    is_ascii_chars_encode_utf8("w:r"@);
    is_ascii_chars_encode_utf8("w:t"@);
    is_ascii_chars_encode_utf8("w:tab"@);
    is_ascii_chars_encode_utf8("w:rPr"@);
    is_ascii_chars_encode_utf8("w:footnote"@);
    is_ascii_chars_encode_utf8("w:footnoteRef"@);
    assert(lit("w:r")[2] != lit("w:p")[2]);
    assert(lit("w:r")[2] != lit("w:t")[2]);
    assert(lit("w:p")[2] != lit("w:t")[2]);
    assert(lit("w:r").len() == 3 && lit("w:rPr").len() == 5 && lit("w:tab").len() == 5);
    assert(lit("w:footnote").len() == 10 && lit("w:footnoteRef").len() == 13);
    assert(lit("w:t").len() == 3 && lit("w:p").len() == 3);
}

proof fn lemma_runs_push(events: Seq<Ev>, e: Ev)
    ensures
        runs_state(events.push(e)) == runs_step(runs_state(events), e, events.len() as int),
{
    assert(events.push(e).drop_last() =~= events);
}

proof fn lemma_mark_push(events: Seq<Ev>, e: Ev)
    ensures
        has_number_mark(events.push(e)) == (has_number_mark(events) || is_open_tag(
            e,
            "w:footnoteRef",
        )),
{
    let after = events.push(e);
    if has_number_mark(events) {
        let i = choose|i: int|
            0 <= i < events.len() && is_open_tag(#[trigger] events[i], "w:footnoteRef");
        assert(after[i] == events[i]);
    }
    assert(after[events.len() as int] == e);
    if has_number_mark(after) {
        let i = choose|i: int|
            0 <= i < after.len() && is_open_tag(#[trigger] after[i], "w:footnoteRef");
        if i < events.len() {
            assert(events[i] == after[i]);
        }
    }
}

/// A span is a run with the given contents.
pub open spec fn spans_payload(events: Seq<Ev>, span: SpanView, inner: Seq<Ev>) -> bool {
    &&& 0 <= span.start < span.end < events.len()
    &&& is_start(events[span.start], "w:r")
    &&& is_end(events[span.end], "w:r")
    &&& inner == events.subrange(span.start + 1, span.end)
    &&& all_inner(inner)
    &&& span.has_number == has_number_mark(inner)
    &&& is_simple(events.take(span.start))
}

/// The survey of runs and their contents go in step.
#[verifier::rlimit(60)]
proof fn lemma_spans(events: Seq<Ev>, n: int)
    requires
        payloads_from(between_runs(Seq::empty()), events.take(n)).simple,
        0 <= n <= events.len(),
    ensures
        ({
            let t = runs_state(events.take(n));
            let p = payloads_from(between_runs(Seq::empty()), events.take(n));
            &&& t.done.len() == p.done.len()
            &&& forall|k: int|
                0 <= k < t.done.len() ==> {
                    &&& spans_payload(events, #[trigger] t.done[k], p.done[k])
                    &&& t.done[k].end < n
                    &&& payloads(events.take(t.done[k].start)) == p.done.take(k)
                }
            &&& t.depth == (if p.run is Some {
                1int
            } else {
                0int
            })
            &&& p.run is Some == t.start is Some
            &&& p.run matches Some(run) ==> {
                &&& 0 <= t.start->0 < n
                &&& is_start(events[t.start->0], "w:r")
                &&& run == events.subrange(t.start->0 + 1, n)
                &&& all_inner(run)
                &&& t.has_number == has_number_mark(run)
                &&& is_simple(events.take(t.start->0))
                &&& payloads(events.take(t.start->0)) == p.done
            }
        }),
    decreases n,
{
    let none = between_runs(Seq::empty());
    let now = events.take(n);
    if n == 0 {
        assert(now =~= Seq::empty());
    } else {
        let before = events.take(n - 1);
        let e = events[n - 1];
        assert(now =~= before.push(e));
        lemma_payloads_push(none, before, e);
        lemma_runs_push(before, e);
        lemma_spans(events, n - 1);
        lemma_names();
        let p = payloads_from(none, before);
        let q = payloads_from(none, now);
        let t = runs_state(before);
        let u = runs_state(now);
        if is_start(e, "w:r") {
            assert(events.subrange(n, n) =~= Seq::empty());
        } else if is_end(e, "w:r") {
            let run = p.run->0;
            assert(q.done == p.done.push(run));
            assert forall|k: int| 0 <= k < u.done.len() implies {
                &&& spans_payload(events, #[trigger] u.done[k], q.done[k])
                &&& u.done[k].end < n
                &&& payloads(events.take(u.done[k].start)) == q.done.take(k)
            } by {
                if k < t.done.len() {
                    assert(u.done[k] == t.done[k]);
                    assert(q.done.take(k) =~= p.done.take(k));
                } else {
                    assert(q.done.take(k) =~= p.done);
                }
            }
        } else if p.run is Some {
            let run = p.run->0;
            lemma_mark_push(run, e);
            assert(events.subrange(t.start->0 + 1, n) =~= run.push(e));
            assert forall|i: int| 0 <= i < run.len() + 1 implies is_inner(
                #[trigger] run.push(e)[i],
            ) by {
                if i < run.len() {
                    assert(run.push(e)[i] == run[i]);
                }
            }
        }
    }
}

/// A simple paragraph around one of its runs.
proof fn lemma_around(events: Seq<Ev>, k: int)
    requires
        is_simple(events),
        0 <= k < top_runs(events).len(),
    ensures
        ({
            let span = top_runs(events)[k];
            let inner = payloads(events)[k];
            let before = events.take(span.start);
            let after = events.skip(span.end + 1);
            &&& top_runs(events).len() == payloads(events).len()
            &&& spans_payload(events, span, inner)
            &&& is_simple(before)
            &&& is_simple(after)
            &&& payloads(before) == payloads(events).take(k)
            &&& payloads(after) == payloads(events).skip(k + 1)
            &&& events == before + whole_run(events[span.start], inner, events[span.end]) + after
        }),
{
    let none = between_runs(Seq::empty());
    let n = events.len() as int;
    assert(events.take(n) =~= events);
    lemma_spans(events, n);
    let span = top_runs(events)[k];
    let inner = payloads(events)[k];
    let before = events.take(span.start);
    let after = events.skip(span.end + 1);
    let empty = Seq::<Ev>::empty();
    let run = whole_run(events[span.start], inner, events[span.end]);
    assert(events =~= before + run + after);
    lemma_payloads_run(before, events[span.start], inner, events[span.end], empty);
    assert(before + run + empty =~= before + run);
    let mid = payloads_from(none, before + run);
    assert(mid == between_runs(payloads(before).push(inner))) by {
        assert(payloads(before).push(inner) + Seq::<Seq<Ev>>::empty() =~= payloads(before).push(
            inner,
        ));
    }
    lemma_payloads_concat(none, before + run, after);
    lemma_payloads_after(none, mid.done, after);
    assert(payloads(events) == mid.done + payloads(after));
    assert(payloads(events).skip(k + 1) =~= payloads(after));
}

// ---------------------------------------------------------------------------
// What is found in a paragraph
// ---------------------------------------------------------------------------

/// What `events` do to a capture.
pub open spec fn capture_from(s: CaptureView, events: Seq<Ev>) -> CaptureView
    decreases events.len(),
{
    if events.len() == 0 {
        s
    } else {
        capture_step(capture_from(s, events.drop_last()), events.last())
    }
}

/// A capture at the start of the first paragraph of the first numbered note.
pub open spec fn at_first_paragraph() -> CaptureView {
    CaptureView {
        format: no_format(),
        in_note: true,
        samples: 1,
        in_first_para: true,
        paragraphs: 1,
        run: None,
        expect_separator: false,
        stopped: false,
    }
}

/// What runs do to a capture.
spec fn runs_captured(s: CaptureView, runs: Seq<Seq<Ev>>) -> CaptureView
    decreases runs.len(),
{
    if runs.len() == 0 {
        s
    } else {
        run_captured(runs_captured(s, runs.drop_last()), runs.last())
    }
}

proof fn lemma_capture(events: Seq<Ev>)
    requires
        payloads_from(between_runs(Seq::empty()), events).simple,
    ensures
        ({
            let p = payloads_from(between_runs(Seq::empty()), events);
            let r = runs_captured(at_first_paragraph(), p.done);
            &&& capture_from(at_first_paragraph(), events) == (CaptureView { run: p.run, ..r })
            &&& r.in_note && r.in_first_para && !r.stopped && r.run is None && r.samples == 1
            &&& r.paragraphs == 1
        }),
    decreases events.len(),
{
    let none = between_runs(Seq::empty());
    lemma_names();
    if events.len() > 0 {
        let init = events.drop_last();
        let e = events.last();
        assert(events =~= init.push(e));
        lemma_payloads_push(none, init, e);
        lemma_capture(init);
        let p = payloads_from(none, init);
        if is_end(e, "w:r") {
            let more = p.done.push(p.run->0);
            assert(more.drop_last() =~= p.done);
        }
    }
}

/// The capture of runs of which the `n`-th is the first that holds the number.
proof fn lemma_runs_captured(runs: Seq<Seq<Ev>>, n: int, m: int)
    requires
        0 <= n < runs.len(),
        has_number_mark(runs[n]),
        rpr_bytes(runs[n]) is Some,
        forall|k: int| 0 <= k < n ==> !has_number_mark(#[trigger] runs[k]),
        0 <= m <= runs.len(),
    ensures
        runs_captured(at_first_paragraph(), runs.take(m)) == (if m <= n {
            at_first_paragraph()
        } else {
            CaptureView {
                format: FormatView {
                    marker_rpr_xml: rpr_bytes(runs[n]),
                    separator: if m == n + 1 {
                        None
                    } else {
                        separator_of(runs[n + 1])
                    },
                },
                expect_separator: m == n + 1,
                ..at_first_paragraph()
            }
        }),
    decreases m,
{
    if m > 0 {
        lemma_runs_captured(runs, n, m - 1);
        assert(runs.take(m).drop_last() =~= runs.take(m - 1));
        assert(runs.take(m).last() == runs[m - 1]);
    }
}

/// The format found where the number and the run behind it are known.
proof fn lemma_found(events: Seq<Ev>, n: int)
    requires
        is_simple(events),
        0 <= n < payloads(events).len(),
        has_number_mark(payloads(events)[n]),
        rpr_bytes(payloads(events)[n]) is Some,
        forall|k: int| 0 <= k < n ==> !has_number_mark(#[trigger] payloads(events)[k]),
    ensures
        captured_format(capture_from(at_first_paragraph(), events)) == (FormatView {
            marker_rpr_xml: rpr_bytes(payloads(events)[n]),
            separator: if n + 1 < payloads(events).len() && separator_of(
                payloads(events)[n + 1],
            ) is Some {
                separator_of(payloads(events)[n + 1])
            } else {
                Some(Seq::empty())
            },
        }),
{
    let runs = payloads(events);
    lemma_capture(events);
    lemma_runs_captured(runs, n, runs.len() as int);
    assert(runs.take(runs.len() as int) =~= runs);
}

// ---------------------------------------------------------------------------
// The properties of the number
// ---------------------------------------------------------------------------

/// The events of run properties: one element, with no run in it nor what runs stand in.
pub open spec fn is_properties(events: Seq<Ev>) -> bool {
    is_element(events, "w:rPr") && all_inner(events)
}

proof fn lemma_rpr_start(events: Seq<Ev>, i: int, a: int)
    requires
        0 <= i <= a < events.len(),
        is_start(events[a], "w:rPr"),
        forall|k: int| i <= k < a ==> !is_start(#[trigger] events[k], "w:rPr"),
    ensures
        rpr_start(events, i) == Some(a),
    decreases a - i,
{
    if i < a {
        lemma_rpr_start(events, i + 1, a);
    }
}

/// The end of an element is found from any place inside it.
proof fn lemma_rpr_stop(a: Seq<Ev>, rpr: Seq<Ev>, b: Seq<Ev>, k: int)
    requires
        is_element(rpr, "w:rPr"),
        0 < k < rpr.len(),
    ensures
        rpr_stop(a + rpr + b, a.len() + k, open_names(rpr.take(k))->0.len() as int) == a.len()
            + rpr.len(),
    decreases rpr.len() - k,
{
    lemma_inner_names(rpr, "w:rPr", k);
    assert((a + rpr + b)[a.len() + k] == rpr[k]);
    if k + 1 < rpr.len() {
        lemma_rpr_stop(a, rpr, b, k + 1);
    }
}

/// Properties with no others before them are those that are found.
proof fn lemma_properties_found(a: Seq<Ev>, rpr: Seq<Ev>, b: Seq<Ev>)
    requires
        is_properties(rpr),
        forall|k: int| 0 <= k < a.len() ==> !is_start(#[trigger] a[k], "w:rPr"),
    ensures
        rpr_bytes(a + rpr + b) == Some(emitted_all(rpr)),
{
    let all = a + rpr + b;
    let i = a.len() as int;
    assert(all[i] == rpr[0]);
    assert forall|k: int| 0 <= k < i implies !is_start(#[trigger] all[k], "w:rPr") by {
        assert(all[k] == a[k]);
    }
    lemma_rpr_start(all, 0, i);
    lemma_next(rpr, 0);
    assert(rpr.take(0) =~= Seq::empty());
    assert(open_names(rpr.take(1))->0.len() == 1);
    lemma_rpr_stop(a, rpr, b, 1);
    assert(all.subrange(i, i + rpr.len()) =~= rpr);
}

/// The number does not stand in the properties of its run.
pub open spec fn number_is_clear(events: Seq<Ev>, run: SpanView) -> bool {
    find_rpr(events, run.start + 1, run.end, None, 0) matches Some((a, b)) ==> forall|k: int|
        a <= k <= b ==> !is_open_tag(#[trigger] events[k], "w:footnoteRef")
}

/// With the properties of its `n`-th run replaced, a paragraph stays closed.
proof fn lemma_marked_closed(events: Seq<Ev>, n: int, rpr: Seq<Ev>)
    requires
        is_closed(events),
        is_simple(events),
        0 <= n < top_runs(events).len(),
        is_properties(rpr),
    ensures
        is_closed(with_rpr(events, top_runs(events)[n], rpr)),
{
    lemma_around(events, n);
    let span = top_runs(events)[n];
    lemma_find_element(events, span.start + 1, span.end, None, 0);
    match find_rpr(events, span.start + 1, span.end, None, 0) {
        Some((a, b)) => {
            let old_rpr = events.subrange(a, b + 1);
            assert(events.take(a) + old_rpr + events.skip(b + 1) =~= events);
            assert((events.take(a) + rpr).last() == rpr.last());
            lemma_replace(events.take(a), old_rpr, rpr, events.skip(b + 1));
        },
        None => {
            lemma_insert(events, span.start + 1, rpr);
        },
    }
}

/// The paragraph with the properties of its `n`-th run replaced.
#[verifier::rlimit(60)]
proof fn lemma_marked(events: Seq<Ev>, n: int, rpr: Seq<Ev>)
    requires
        is_closed(events),
        is_simple(events),
        0 <= n < top_runs(events).len(),
        is_properties(rpr),
    ensures
        ({
            let out = with_rpr(events, top_runs(events)[n], rpr);
            &&& is_closed(out)
            &&& is_simple(out)
            &&& payloads(out).len() == payloads(events).len()
            &&& n < payloads(out).len()
            &&& rpr_bytes(payloads(out)[n]) == Some(emitted_all(rpr))
            &&& has_number_mark(payloads(events)[n]) && number_is_clear(
                events,
                top_runs(events)[n],
            ) ==> has_number_mark(payloads(out)[n])
            &&& forall|k: int|
                0 <= k < payloads(out).len() && k != n ==> #[trigger] payloads(out)[k] == payloads(
                    events,
                )[k]
        }),
{
    lemma_around(events, n);
    let span = top_runs(events)[n];
    let inner = payloads(events)[n];
    let before = events.take(span.start);
    let after = events.skip(span.end + 1);
    let open = events[span.start];
    let close = events[span.end];
    lemma_find_element(events, span.start + 1, span.end, None, 0);
    let out = with_rpr(events, span, rpr);
    let found = find_rpr(events, span.start + 1, span.end, None, 0);
    let (x, y) = match found {
        Some((a, b)) => (a - span.start - 1, b - span.start),
        None => (0int, 0int),
    };
    lemma_marked_closed(events, n, rpr);
    let head = inner.take(x);
    let tail = inner.skip(y);
    let now = head + rpr + tail;
    assert(out =~= before + whole_run(open, now, close) + after);
    assert forall|i: int| 0 <= i < now.len() implies is_inner(#[trigger] now[i]) by {
        if i < x {
            assert(now[i] == inner[i]);
        } else if i < x + rpr.len() {
            assert(now[i] == rpr[i - x]);
        } else {
            assert(now[i] == inner[i - x - rpr.len() + y]);
        }
    }
    lemma_payloads_run(before, open, now, close, after);
    assert forall|k: int| 0 <= k < head.len() implies !is_start(#[trigger] head[k], "w:rPr") by {
        assert(head[k] == events[span.start + 1 + k]);
    }
    lemma_properties_found(head, rpr, tail);
    if has_number_mark(inner) && number_is_clear(events, span) {
        let i = choose|i: int|
            0 <= i < inner.len() && is_open_tag(#[trigger] inner[i], "w:footnoteRef");
        assert(inner[i] == events[span.start + 1 + i]);
        if i < x {
            assert(now[i] == inner[i]);
        } else {
            assert(i >= y);
            assert(now[i - y + x + rpr.len()] == inner[i]);
        }
    }
    assert(payloads(out) =~= payloads(events).update(n, now));
}

// ---------------------------------------------------------------------------
// The separator
// ---------------------------------------------------------------------------

proof fn lemma_text_push(events: Seq<Ev>, e: Ev)
    ensures
        raw_text(events.push(e)) == (if e.kind == EventKind::Text && utf8_text(e.raw) is Some {
            raw_text(events) + utf8_text(e.raw)->0
        } else {
            raw_text(events)
        }),
        has_tab(events.push(e)) == (has_tab(events) || is_open_tag(e, "w:tab")),
{
    let after = events.push(e);
    assert(after.drop_last() =~= events);
    if has_tab(events) {
        let i = choose|i: int| 0 <= i < events.len() && is_open_tag(#[trigger] events[i], "w:tab");
        assert(after[i] == events[i]);
    }
    assert(after[events.len() as int] == e);
    if has_tab(after) {
        let i = choose|i: int| 0 <= i < after.len() && is_open_tag(#[trigger] after[i], "w:tab");
        if i < events.len() {
            assert(events[i] == after[i]);
        }
    }
}

/// Without the events of a separator there is no text and no tab.
proof fn lemma_stripped(events: Seq<Ev>)
    requires
        all_inner(events),
    ensures
        ({
            let bare = events.filter(|e: Ev| !is_separator_event(e));
            &&& raw_text(bare) == Seq::<char>::empty()
            &&& !has_tab(bare)
            &&& all_inner(bare)
        }),
    decreases events.len(),
{
    reveal(Seq::filter);
    let keep = |e: Ev| !is_separator_event(e);
    if events.len() > 0 {
        let init = events.drop_last();
        assert forall|i: int| 0 <= i < init.len() implies is_inner(#[trigger] init[i]) by {
            assert(init[i] == events[i]);
        }
        assert(is_inner(events[events.len() - 1]));
        lemma_stripped(init);
        let before = init.filter(keep);
        let e = events.last();
        if keep(e) {
            lemma_text_push(before, e);
            assert(events.filter(keep) =~= before.push(e));
            assert forall|i: int| 0 <= i < before.len() + 1 implies is_inner(
                #[trigger] before.push(e)[i],
            ) by {
                if i < before.len() {
                    assert(before.push(e)[i] == before[i]);
                }
            }
        }
    }
}

/// Text that can separate a number from a note: white space.
pub open spec fn is_separator_text(text: Seq<char>) -> bool {
    trimmed(text).len() == 0
}

proof fn lemma_separator_tags()
    ensures
        tag_name(event(EventKind::Empty, lit("w:tab"))) == lit("w:tab"),
        tag_name(event(EventKind::Start, lit("w:t"))) == lit("w:t"),
        tag_name(
            event(EventKind::Start, lit("w:t") + attr_bytes(lit("xml:space"), lit("preserve"))),
        ) == lit("w:t"),
        tag_name(event(EventKind::Start, lit("w:r"))) == lit("w:r"),
{
    reveal_strlit("w:tab");
    reveal_strlit("w:t");
    reveal_strlit("w:r");
    reveal_strlit(" ");
    is_ascii_chars_encode_utf8("w:tab"@);
    is_ascii_chars_encode_utf8("w:t"@);
    is_ascii_chars_encode_utf8("w:r"@);
    is_ascii_chars_encode_utf8(" "@);
    reveal_with_fuel(name_end, 7);
    let tab = lit("w:tab");
    let text = lit("w:t");
    let run = lit("w:r");
    assert(tab.take(5) =~= tab);
    assert(text.take(3) =~= text);
    assert(run.take(3) =~= run);
    let kept = text + attr_bytes(lit("xml:space"), lit("preserve"));
    assert(kept[3] == 0x20);
    assert(kept.take(3) =~= text);
}

/// What a separator says behind contents that say nothing.
#[verifier::rlimit(60)]
proof fn lemma_separator_says(bare: Seq<Ev>, text: Seq<char>)
    requires
        raw_text(bare) == Seq::<char>::empty(),
        !has_tab(bare),
        is_separator_text(text),
    ensures
        separator_of(bare + separator_payload(text)) == Some(text),
        all_inner(separator_payload(text)),
{
    lemma_names();
    lemma_separator_tags();
    reveal_strlit("\t");
    let sep = separator_payload(text);
    if text == "\t"@ {
        assert(bare + sep =~= bare.push(sep[0]));
        lemma_text_push(bare, sep[0]);
    } else {
        encode_utf8_valid_utf8(text);
        encode_utf8_decode_utf8(text);
        let a = bare.push(sep[0]);
        let b = a.push(sep[1]);
        assert(bare + sep =~= b.push(sep[2]));
        lemma_text_push(bare, sep[0]);
        lemma_text_push(a, sep[1]);
        lemma_text_push(b, sep[2]);
        assert(Seq::<char>::empty() + text =~= text);
    }
}

proof fn lemma_run_stop(events: Seq<Ev>, i: int, j: int)
    requires
        0 <= i <= j < events.len(),
        is_end(events[j], "w:r"),
        forall|k: int| i <= k < j ==> is_inner(#[trigger] events[k]),
    ensures
        run_stop(events, i, 1) == j,
    decreases j - i,
{
    lemma_names();
    if i < j {
        assert(is_inner(events[i]));
        lemma_run_stop(events, i + 1, j);
    }
}

/// What the runs behind the `n`-th say as a separator.
spec fn says(runs: Seq<Seq<Ev>>, n: int) -> Seq<char> {
    if n + 1 < runs.len() && separator_of(runs[n + 1]) is Some {
        separator_of(runs[n + 1])->0
    } else {
        Seq::empty()
    }
}

/// The run behind the number made to agree.
#[verifier::rlimit(80)]
proof fn lemma_normalized(events: Seq<Ev>, n: int, wanted: Seq<char>)
    requires
        is_simple(events),
        0 <= n,
        n + 1 < top_runs(events).len(),
        is_separator_text(wanted),
    ensures
        ({
            let out = separator_normalized(events, top_runs(events)[n + 1], wanted);
            &&& is_simple(out)
            &&& payloads(out).len() > n
            &&& payloads(out).take(n + 1) == payloads(events).take(n + 1)
            &&& says(payloads(out), n) == wanted
        }),
{
    lemma_names();
    lemma_separator_tags();
    lemma_around(events, n + 1);
    let runs = payloads(events);
    let span = top_runs(events)[n + 1];
    let inner = runs[n + 1];
    let before = events.take(span.start);
    let after = events.skip(span.end + 1);
    let open = events[span.start];
    let close = events[span.end];
    let none = Seq::<Ev>::empty();
    let out = separator_normalized(events, span, wanted);
    let bare = inner.filter(|e: Ev| !is_separator_event(e));
    lemma_stripped(inner);
    assert(payloads(before).len() == n + 1);
    let tab = has_tab(inner);
    let text = raw_text(inner);
    if !tab && trimmed(text).len() > 0 {
        if wanted.len() > 0 {
            let sep = separator_payload(wanted);
            assert(raw_text(none) =~= Seq::<char>::empty());
            lemma_separator_says(none, wanted);
            assert(none + sep =~= sep);
            lemma_payloads_run(none, open, inner, close, after);
            let rest = whole_run(open, inner, close) + after;
            assert(none + whole_run(open, inner, close) + after =~= rest);
            let a = event(EventKind::Start, lit("w:r"));
            let b = event(EventKind::End, lit("w:r"));
            lemma_payloads_run(before, a, sep, b, rest);
            assert(separator_run(wanted) =~= whole_run(a, sep, b));
            assert(events.skip(span.start) =~= rest);
            assert(out =~= before + whole_run(a, sep, b) + rest);
            assert(payloads(out)[n + 1] == sep);
            assert(payloads(out).take(n + 1) =~= runs.take(n + 1));
        } else {
            assert(wanted =~= Seq::<char>::empty());
        }
    } else {
        let stripped = without_separator(events, span);
        lemma_payloads_run(before, open, bare, close, after);
        assert(stripped =~= before + whole_run(open, bare, close) + after);
        if wanted.len() == 0 {
            assert(payloads(out)[n + 1] == bare);
            assert(payloads(out).take(n + 1) =~= runs.take(n + 1));
            assert(trimmed(Seq::<char>::empty()).len() == 0);
            assert(wanted =~= Seq::<char>::empty());
        } else if (tab && wanted == "\t"@) || (!tab && text == wanted) {
        } else {
            let sep = separator_payload(wanted);
            lemma_separator_says(bare, wanted);
            let now = bare + sep;
            assert forall|i: int| 0 <= i < now.len() implies is_inner(#[trigger] now[i]) by {
                if i < bare.len() {
                    assert(now[i] == bare[i]);
                } else {
                    assert(now[i] == sep[i - bare.len()]);
                }
            }
            let end = span.start + 1 + bare.len();
            assert(stripped[span.start] == open);
            assert(stripped[end] == close);
            assert forall|k: int| span.start + 1 <= k < end implies is_inner(
                #[trigger] stripped[k],
            ) by {
                assert(stripped[k] == bare[k - span.start - 1]);
            }
            lemma_run_stop(stripped, span.start + 1, end);
            assert(run_stop(stripped, span.start, 0) == end);
            lemma_payloads_run(before, open, now, close, after);
            assert(out =~= before + whole_run(open, now, close) + after);
            assert(payloads(out)[n + 1] == now);
            assert(payloads(out).take(n + 1) =~= runs.take(n + 1));
        }
    }
}

proof fn lemma_stop_bounds(events: Seq<Ev>, i: int, depth: int)
    requires
        0 <= i,
    ensures
        0 <= run_stop(events, i, depth) <= events.len(),
    decreases events.len() - i,
{
    if i < events.len() {
        if is_start(events[i], "w:r") {
            lemma_stop_bounds(events, i + 1, depth + 1);
        } else if is_end(events[i], "w:r") {
            lemma_stop_bounds(events, i + 1, depth - 1);
        } else {
            lemma_stop_bounds(events, i + 1, depth);
        }
    }
}

/// A run made to agree is as closed as it was.
proof fn lemma_normalized_form(events: Seq<Ev>, span: SpanView, inner: Seq<Ev>, wanted: Seq<char>)
    requires
        is_closed(events),
        spans_payload(events, span, inner),
        is_separator_text(wanted),
    ensures
        is_closed(separator_normalized(events, span, wanted)),
{
    if wanted.len() > 0 {
        lemma_separator_run_block(wanted);
        lemma_separator_block(wanted);
        lemma_insert(events, span.start, separator_run(wanted));
    }
    assert forall|k: int| span.start < k < span.end implies !is_start(
        #[trigger] events[k],
        "w:r",
    ) && !is_end(events[k], "w:r") by {
        assert(is_inner(inner[k - span.start - 1]));
    }
    lemma_run_inside(events, span.start, span.end);
    lemma_bare_closed(inner);
    let bare = inner.filter(|e: Ev| !is_separator_event(e));
    let a = events.take(span.start + 1);
    let c = events.skip(span.end);
    assert(a + inner + c =~= events);
    if bare.len() > 0 {
        assert((a + bare).last() == bare.last());
    } else {
        assert(a + bare =~= a);
    }
    lemma_replace(a, inner, bare, c);
    let stripped = without_separator(events, span);
    assert(stripped == a + bare + c);
    if wanted.len() > 0 {
        lemma_stop_bounds(stripped, span.start, 0);
        lemma_insert(stripped, run_stop(stripped, span.start, 0), separator_payload(wanted));
    }
}

/// The separator settled.
#[verifier::rlimit(60)]
proof fn lemma_settled(events: Seq<Ev>, n: int, wanted: Seq<char>)
    requires
        is_closed(events),
        is_simple(events),
        0 <= n < top_runs(events).len(),
        is_separator_text(wanted),
    ensures
        ({
            let out = separator_settled(events, n, Some(wanted)).0;
            &&& is_closed(out)
            &&& is_simple(out)
            &&& payloads(out).len() > n
            &&& payloads(out).take(n + 1) == payloads(events).take(n + 1)
            &&& says(payloads(out), n) == wanted
        }),
{
    lemma_around(events, n);
    if n + 1 < top_runs(events).len() {
        lemma_around(events, n + 1);
        lemma_normalized_form(events, top_runs(events)[n + 1], payloads(events)[n + 1], wanted);
        lemma_normalized(events, n, wanted);
    } else if wanted.len() > 0 {
        lemma_separator_tags();
        let runs = payloads(events);
        let span = top_runs(events)[n];
        let inner = runs[n];
        let before = events.take(span.start);
        let after = events.skip(span.end + 1);
        let none = Seq::<Ev>::empty();
        let run = whole_run(events[span.start], inner, events[span.end]);
        lemma_payloads_run(before, events[span.start], inner, events[span.end], none);
        assert(before + run + none =~= before + run);
        let sep = separator_payload(wanted);
        assert(raw_text(none) =~= Seq::<char>::empty());
        lemma_separator_says(none, wanted);
        assert(none + sep =~= sep);
        let a = event(EventKind::Start, lit("w:r"));
        let b = event(EventKind::End, lit("w:r"));
        lemma_payloads_run(before + run, a, sep, b, after);
        assert(separator_run(wanted) =~= whole_run(a, sep, b));
        let out = separator_settled(events, n, Some(wanted)).0;
        assert(out =~= before + run + whole_run(a, sep, b) + after);
        lemma_separator_run_block(wanted);
        lemma_insert(events, span.end + 1, separator_run(wanted));
        assert(payloads(before + run) =~= runs.take(n + 1));
        assert(payloads(out)[n + 1] == sep);
        assert(payloads(out).take(n + 1) =~= runs.take(n + 1));
    } else {
        assert(wanted =~= Seq::<char>::empty());
    }
}

proof fn lemma_number_run(runs: Seq<SpanView>, i: int)
    requires
        0 <= i,
    ensures
        number_run(runs, i) matches Some(n) ==> i <= n < runs.len() && runs[n].has_number
            && forall|k: int| i <= k < n ==> !(#[trigger] runs[k]).has_number,
    decreases runs.len() - i,
{
    if i < runs.len() && !runs[i].has_number {
        lemma_number_run(runs, i + 1);
    }
}

proof fn lemma_applied(events: Seq<Ev>, rpr: Seq<u8>, separator: Seq<char>)
    requires
        is_closed(events),
        is_simple(events),
        number_run(top_runs(events), 0) is Some,
        number_is_clear(events, top_runs(events)[number_run(top_runs(events), 0)->0]),
        is_properties(xml_events(rpr)),
        emitted_all(xml_events(rpr)) == rpr,
        is_separator_text(separator),
    ensures
        ({
            let format = FormatView {
                marker_rpr_xml: Some(rpr),
                separator: Some(separator),
            };
            &&& is_closed(first_para(events, format).0)
            &&& is_simple(first_para(events, format).0)
            &&& captured_format(
                capture_from(at_first_paragraph(), first_para(events, format).0),
            ) == format
        }),
{
    let runs = top_runs(events);
    lemma_number_run(runs, 0);
    let n = number_run(runs, 0)->0;
    let whole = events.len() as int;
    assert(events.take(whole) =~= events);
    lemma_spans(events, whole);
    assert forall|k: int| 0 <= k <= n implies has_number_mark(#[trigger] payloads(events)[k])
        == runs[k].has_number by {
        assert(spans_payload(events, runs[k], payloads(events)[k]));
    }
    let marked = with_rpr(events, runs[n], xml_events(rpr));
    lemma_marked(events, n, xml_events(rpr));
    let all = marked.len() as int;
    assert(marked.take(all) =~= marked);
    lemma_spans(marked, all);
    lemma_settled(marked, n, separator);
    let out = separator_settled(marked, n, Some(separator)).0;
    assert forall|k: int| 0 <= k <= n implies #[trigger] payloads(out)[k] == payloads(marked)[k] by {
        assert(payloads(out).take(n + 1)[k] == payloads(marked).take(n + 1)[k]);
    }
    lemma_found(out, n);
}

/// A format that has been applied is found again: in the first paragraph of a numbered
/// note, once the properties of the number and the separator have been set, a capture that
/// reads that paragraph comes to these properties and this separator. Left out are notes
/// without a number and numbers that stand in their own properties, paragraphs with runs
/// inside runs, and formats that are none: properties that are not one element, and a
/// separator other than white space.
pub proof fn law_applied_format_is_found(events: Seq<Ev>, rpr: Seq<u8>, separator: Seq<char>)
    requires
        is_closed(events),
        is_simple(events),
        number_run(top_runs(events), 0) is Some,
        number_is_clear(events, top_runs(events)[number_run(top_runs(events), 0)->0]),
        is_properties(xml_events(rpr)),
        emitted_all(xml_events(rpr)) == rpr,
        is_separator_text(separator),
    ensures
        ({
            let format = FormatView {
                marker_rpr_xml: Some(rpr),
                separator: Some(separator),
            };
            captured_format(
                capture_from(at_first_paragraph(), first_para(events, format).0),
            ) == format
        }),
{
    lemma_applied(events, rpr, separator);
}

/// A capture goes on where it has come to: what it finds in a part is what it finds in the
/// first paragraph that it enters, and then in the rest.
pub proof fn law_capture_goes_on(before: Seq<Ev>, events: Seq<Ev>)
    ensures
        capture_state(before + events) == capture_from(
            capture_state(before),
            events,
        ),
    decreases events.len(),
{
    if events.len() == 0 {
        assert(before + events =~= before);
    } else {
        law_capture_goes_on(before, events.drop_last());
        assert((before + events).drop_last() =~= before + events.drop_last());
    }
}

// ---------------------------------------------------------------------------
// The format in a part
// ---------------------------------------------------------------------------

/// How far the application to a part has come, with what has been written as events.
#[verifier::ext_equal]
pub struct AppliedView {
    pub out: Seq<Ev>,
    pub in_note: bool,
    pub in_first_para: bool,
    pub paragraphs: int,
    /// The start tag of the first paragraph, and what followed it.
    pub open: Ev,
    pub payload: Seq<Ev>,
}

/// What one event does.
pub open spec fn applied_step(s: AppliedView, format: FormatView, e: Ev) -> AppliedView {
    if is_start(e, "w:footnote") || is_start(e, "w:endnote") {
        AppliedView {
            out: s.out.push(e),
            in_note: has_positive_id(e),
            paragraphs: 0,
            in_first_para: false,
            ..s
        }
    } else if is_end(e, "w:footnote") || is_end(e, "w:endnote") {
        AppliedView { out: s.out.push(e), in_note: false, in_first_para: false, ..s }
    } else if s.in_note && is_start(e, "w:p") {
        if s.paragraphs == 0 {
            AppliedView { paragraphs: 1, in_first_para: true, open: e, payload: Seq::empty(), ..s }
        } else {
            AppliedView { out: s.out.push(e), paragraphs: s.paragraphs + 1, ..s }
        }
    } else if s.in_first_para && is_end(e, "w:p") {
        AppliedView {
            out: (s.out.push(s.open) + first_para(s.payload, format).0).push(e),
            in_first_para: false,
            payload: Seq::empty(),
            ..s
        }
    } else if s.in_first_para {
        AppliedView { payload: s.payload.push(e), ..s }
    } else {
        AppliedView { out: s.out.push(e), ..s }
    }
}

/// What `events` do.
pub open spec fn applied_from(s: AppliedView, format: FormatView, events: Seq<Ev>) -> AppliedView
    decreases events.len(),
{
    if events.len() == 0 {
        s
    } else {
        applied_step(applied_from(s, format, events.drop_last()), format, events.last())
    }
}

/// Nothing written yet.
pub open spec fn applied_start() -> AppliedView {
    AppliedView {
        out: Seq::empty(),
        in_note: false,
        in_first_para: false,
        paragraphs: 0,
        open: Ev { kind: EventKind::Eof, raw: Seq::empty() },
        payload: Seq::empty(),
    }
}

/// The events of a part with the format applied.
pub open spec fn notes_events(events: Seq<Ev>, format: FormatView) -> Seq<Ev> {
    applied_from(applied_start(), format, events).out
}

/// A part with the format applied is written from these events.
pub proof fn law_notes_are_written(events: Seq<Ev>, format: FormatView)
    ensures
        ({
            let a = applied_from(applied_start(), format, events);
            let b = notes_state(events, format);
            &&& notes_formatted(events, format).0 == emitted_all(notes_events(events, format))
            &&& a.in_note == b.in_note
            &&& a.in_first_para == b.in_first_para
            &&& a.paragraphs == b.paragraphs
            &&& a.open == b.open
            &&& a.payload == b.payload
        }),
    decreases events.len(),
{
    if events.len() > 0 {
        let init = events.drop_last();
        let e = events.last();
        law_notes_are_written(init, format);
        let a = applied_from(applied_start(), format, init);
        lemma_emitted_push(a.out, e);
        let para = first_para(a.payload, format).0;
        lemma_emitted_push(a.out, a.open);
        lemma_emitted_concat(a.out.push(a.open), para);
        lemma_emitted_push(a.out.push(a.open) + para, e);
    } else {
        assert(emitted_all(Seq::<Ev>::empty()) =~= Seq::<u8>::empty());
    }
}

proof fn lemma_applied_concat(s: AppliedView, format: FormatView, a: Seq<Ev>, b: Seq<Ev>)
    ensures
        applied_from(s, format, a + b) == applied_from(applied_from(s, format, a), format, b),
    decreases b.len(),
{
    if b.len() == 0 {
        assert(a + b =~= a);
    } else {
        lemma_applied_concat(s, format, a, b.drop_last());
        assert((a + b).drop_last() =~= a + b.drop_last());
    }
}

proof fn lemma_applied_push(s: AppliedView, format: FormatView, events: Seq<Ev>, e: Ev)
    ensures
        applied_from(s, format, events.push(e)) == applied_step(
            applied_from(s, format, events),
            format,
            e,
        ),
{
    assert(events.push(e).drop_last() =~= events);
}

/// What has been written stays.
proof fn lemma_written_stays(s: AppliedView, format: FormatView, events: Seq<Ev>) -> (more: Seq<Ev>)
    ensures
        applied_from(s, format, events).out == s.out + more,
    decreases events.len(),
{
    if events.len() == 0 {
        assert(s.out + Seq::<Ev>::empty() =~= s.out);
        Seq::empty()
    } else {
        let before = lemma_written_stays(s, format, events.drop_last());
        let a = applied_from(s, format, events.drop_last());
        let b = applied_from(s, format, events);
        let more = b.out.skip(s.out.len() as int);
        assert(b.out =~= s.out + more) by {
            assert forall|i: int| 0 <= i < s.out.len() implies b.out[i] == s.out[i] by {
                assert(a.out[i] == s.out[i]);
                assert(b.out[i] == a.out[i]);
            }
        }
        more
    }
}

proof fn lemma_note_names()
    ensures
        lit("w:p") != lit("w:footnote"),
        lit("w:p") != lit("w:endnote"),
        lit("w:footnote") != lit("w:endnote"),
{
    reveal_strlit("w:p");
    reveal_strlit("w:footnote");
    reveal_strlit("w:endnote");
    is_ascii_chars_encode_utf8("w:p"@);
    is_ascii_chars_encode_utf8("w:footnote"@);
    is_ascii_chars_encode_utf8("w:endnote"@);
    assert(lit("w:p").len() == 3 && lit("w:footnote").len() == 10 && lit("w:endnote").len() == 9);
}

/// A capture that has found the properties of the number and looks for no separator in the
/// paragraph that it reads.
spec fn is_settled(s: CaptureView) -> bool {
    &&& s.format.marker_rpr_xml is Some
    &&& s.samples >= 1
    &&& s.expect_separator ==> !s.in_first_para && s.paragraphs >= 1
}

/// Such a capture keeps its format.
proof fn lemma_settled_capture(s: CaptureView, events: Seq<Ev>)
    requires
        is_settled(s),
    ensures
        is_settled(capture_from(s, events)),
        capture_from(s, events).format == s.format,
    decreases events.len(),
{
    if events.len() > 0 {
        lemma_settled_capture(s, events.drop_last());
    }
}

proof fn lemma_capture_concat(s: CaptureView, a: Seq<Ev>, b: Seq<Ev>)
    ensures
        capture_from(s, a + b) == capture_from(capture_from(s, a), b),
    decreases b.len(),
{
    if b.len() == 0 {
        assert(a + b =~= a);
    } else {
        lemma_capture_concat(s, a, b.drop_last());
        assert((a + b).drop_last() =~= a + b.drop_last());
    }
}

/// A tag of a note.
pub open spec fn is_note_tag(e: Ev) -> bool {
    is_start(e, "w:footnote") || is_end(e, "w:footnote") || is_start(e, "w:endnote") || is_end(
        e,
        "w:endnote",
    )
}

/// An event in the first paragraph of a numbered note: no tag of a note or of another
/// paragraph; and where the paragraph ends, no run of it stands in another, if it holds a
/// number.
pub open spec fn is_plain_at(s: AppliedView, e: Ev) -> bool {
    s.in_first_para ==> {
        &&& !is_note_tag(e)
        &&& !is_start(e, "w:p")
        &&& is_end(e, "w:p") && number_run(top_runs(s.payload), 0) is Some ==> is_simple(s.payload)
    }
}

/// The first paragraphs of the numbered notes are plain.
pub open spec fn notes_are_plain(events: Seq<Ev>) -> bool {
    forall|i: int|
        #![trigger events[i]]
        0 <= i < events.len() ==> is_plain_at(
            applied_from(applied_start(), no_format(), events.take(i)),
            events[i],
        )
}

/// Where a part has come to does not depend on the format.
proof fn lemma_same_place(events: Seq<Ev>, format: FormatView)
    ensures
        ({
            let a = applied_from(applied_start(), no_format(), events);
            let b = applied_from(applied_start(), format, events);
            a == (AppliedView { out: a.out, ..b })
        }),
    decreases events.len(),
{
    if events.len() > 0 {
        lemma_same_place(events.drop_last(), format);
    }
}

/// A format that can be applied: its properties are one element, its separator is white
/// space.
pub open spec fn is_proper(format: FormatView) -> bool {
    &&& format.marker_rpr_xml matches Some(rpr) ==> is_properties(xml_events(rpr))
    &&& format.separator matches Some(text) ==> is_separator_text(text)
}

/// No event is a tag of a footnote.
spec fn no_footnotes(events: Seq<Ev>) -> bool {
    forall|i: int|
        0 <= i < events.len() ==> !is_start(#[trigger] events[i], "w:footnote") && !is_end(
            events[i],
            "w:footnote",
        )
}

proof fn lemma_simple_no_footnotes(events: Seq<Ev>)
    requires
        payloads_from(between_runs(Seq::empty()), events).simple,
    ensures
        no_footnotes(events),
    decreases events.len(),
{
    if events.len() > 0 {
        let init = events.drop_last();
        let e = events.last();
        assert(events =~= init.push(e));
        lemma_payloads_push(between_runs(Seq::empty()), init, e);
        lemma_simple_no_footnotes(init);
        assert forall|i: int| 0 <= i < events.len() implies !is_start(
            #[trigger] events[i],
            "w:footnote",
        ) && !is_end(events[i], "w:footnote") by {
            if i < init.len() {
                assert(events[i] == init[i]);
            }
        }
    }
}

/// A first paragraph with the format applied is as closed as it was, and holds no note.
proof fn lemma_para_form(payload: Seq<Ev>, format: FormatView)
    requires
        is_closed(payload),
        no_footnotes(payload),
        number_run(top_runs(payload), 0) is Some ==> is_simple(payload),
        is_proper(format),
    ensures
        is_closed(first_para(payload, format).0),
        no_footnotes(first_para(payload, format).0),
{
    let runs = top_runs(payload);
    lemma_number_run(runs, 0);
    if let Some(n) = number_run(runs, 0) {
        let marked = match format.marker_rpr_xml {
            Some(rpr) => with_rpr(payload, runs[n], xml_events(rpr)),
            None => payload,
        };
        lemma_around(payload, n);
        if let Some(rpr) = format.marker_rpr_xml {
            lemma_marked(payload, n, xml_events(rpr));
        }
        assert(marked.take(marked.len() as int) =~= marked);
        lemma_spans(marked, marked.len() as int);
        if let Some(text) = format.separator {
            lemma_settled(marked, n, text);
        }
        lemma_simple_no_footnotes(first_para(payload, format).0);
    }
}

/// How what has been written of a part relates to what has been read.
spec fn in_form(a: AppliedView, before: Seq<Ev>) -> bool {
    let names = open_names(before)->0;
    let outer = open_names(a.out)->0;
    let inner = open_names(a.payload)->0;
    let k = outer.len() as int;
    &&& well_formed(a.out)
    &&& a.out.len() > 0 ==> before.len() > 0 && a.out[0] == before[0]
    &&& !a.in_first_para ==> {
        &&& outer == names
        &&& ends_in_text(a.out) ==> ends_in_text(before)
        &&& before.len() > 0 ==> a.out.len() > 0
    }
    &&& a.in_first_para ==> {
        &&& before.len() > 0
        &&& k < names.len()
        &&& outer == names.take(k)
        &&& names[k] == lit("w:p")
        &&& names.skip(k + 1) == inner
        &&& is_start(a.open, "w:p")
        &&& is_token(a.open)
        &&& well_formed(a.payload)
        &&& forall|i: int| 0 <= i < inner.len() ==> #[trigger] inner[i] != lit("w:p")
        &&& ends_in_text(a.payload) ==> ends_in_text(before)
        &&& no_footnotes(a.payload)
        &&& a.out.len() == 0 ==> a.open == before[0]
    }
}

/// An event outside first paragraphs keeps the form.
#[verifier::rlimit(40)]
proof fn lemma_form_outside(a: AppliedView, format: FormatView, before: Seq<Ev>, e: Ev)
    requires
        in_form(a, before),
        !a.in_first_para,
        well_formed(before),
        is_token(e),
        e.kind == EventKind::Text ==> !ends_in_text(before),
        names_after(open_names(before)->0, e) is Some,
        open_names(before.push(e)) == names_after(open_names(before)->0, e),
    ensures
        in_form(applied_step(a, format, e), before.push(e)),
{
    let now = before.push(e);
    let names = open_names(before)->0;
    let k = names.len() as int;
    let none = Seq::<Ev>::empty();
    if before.len() > 0 {
        assert(now[0] == before[0]);
    }
    assert(now.last() == e);
    lemma_push(a.out, e);
    assert(a.out.push(e).last() == e);
    lemma_note_names();
    lemma_no_block();
    if is_start(e, "w:p") {
        let after = names.push(lit("w:p"));
        assert(after.take(k) =~= names);
        assert(after.skip(k + 1) =~= Seq::empty());
        assert(open_names(none)->0 =~= Seq::empty());
    }
}

/// The end of a first paragraph keeps the form.
#[verifier::rlimit(40)]
proof fn lemma_form_closed(a: AppliedView, format: FormatView, before: Seq<Ev>, e: Ev)
    requires
        in_form(a, before),
        a.in_first_para,
        is_plain_at(a, e),
        is_proper(format),
        is_end(e, "w:p"),
        is_token(e),
        names_after(open_names(before)->0, e) is Some,
        open_names(before.push(e)) == names_after(open_names(before)->0, e),
    ensures
        in_form(applied_step(a, format, e), before.push(e)),
        is_closed(a.payload),
{
    let now = before.push(e);
    let names = open_names(before)->0;
    let inner = open_names(a.payload)->0;
    let k = open_names(a.out)->0.len() as int;
    lemma_note_names();
    if inner.len() > 0 {
        assert(inner.last() == names.last());
        assert(inner[inner.len() - 1] != lit("w:p"));
    }
    assert(inner =~= Seq::empty());
    assert(open_names(a.payload) == Some(Seq::<Seq<u8>>::empty())) by {
        reveal(well_formed);
    }
    lemma_para_form(a.payload, format);
    let para = first_para(a.payload, format).0;
    lemma_push(a.out, a.open);
    let opened = a.out.push(a.open);
    assert(opened.last() == a.open);
    lemma_append(opened, para, para.len() as int);
    assert(para.take(para.len() as int) =~= para);
    let filled = opened + para;
    let outer = open_names(a.out)->0;
    assert(open_names(filled)->0 =~= outer.push(lit("w:p")));
    lemma_push(filled, e);
    assert(names =~= outer.push(lit("w:p")));
    assert(names.drop_last() =~= outer);
    assert(now[0] == before[0]);
    assert(filled.push(e).last() == e && now.last() == e);
    if a.out.len() > 0 {
        assert(filled.push(e)[0] == a.out[0]);
    } else {
        assert(filled.push(e)[0] == a.open);
    }
}

/// An event inside a first paragraph keeps the form.
#[verifier::rlimit(40)]
proof fn lemma_form_inside(a: AppliedView, format: FormatView, before: Seq<Ev>, e: Ev)
    requires
        in_form(a, before),
        a.in_first_para,
        is_plain_at(a, e),
        !is_end(e, "w:p"),
        is_token(e),
        e.kind == EventKind::Text ==> !ends_in_text(before),
        names_after(open_names(before)->0, e) is Some,
        open_names(before.push(e)) == names_after(open_names(before)->0, e),
    ensures
        in_form(applied_step(a, format, e), before.push(e)),
{
    let now = before.push(e);
    let names = open_names(before)->0;
    let after = names_after(names, e)->0;
    let inner = open_names(a.payload)->0;
    let k = open_names(a.out)->0.len() as int;
    assert(now[0] == before[0]);
    assert(now.last() == e);
    let longer = a.payload.push(e);
    assert(longer.last() == e);
    if e.kind == EventKind::End {
        if inner.len() == 0 {
            assert(names.last() == names[k]);
        }
        assert(inner.last() == names.last());
        assert(after.skip(k + 1) =~= inner.drop_last());
    }
    if e.kind == EventKind::Start {
        assert(after.skip(k + 1) =~= inner.push(tag_name(e)));
    }
    lemma_push(a.payload, e);
    assert(after.take(k) =~= names.take(k));
    assert(after[k] == names[k]);
    assert forall|i: int| 0 <= i < longer.len() implies !is_start(
        #[trigger] longer[i],
        "w:footnote",
    ) && !is_end(longer[i], "w:footnote") by {
        if i < a.payload.len() {
            assert(longer[i] == a.payload[i]);
        }
    }
}

/// The application keeps the form of a part.
#[verifier::rlimit(40)]
proof fn lemma_form(events: Seq<Ev>, format: FormatView, n: int)
    requires
        well_formed(events),
        notes_are_plain(events),
        is_proper(format),
        0 <= n <= events.len(),
    ensures
        in_form(applied_from(applied_start(), format, events.take(n)), events.take(n)),
    decreases n,
{
    let now = events.take(n);
    if n == 0 {
        lemma_no_block();
        assert(now =~= Seq::empty());
    } else {
        lemma_form(events, format, n - 1);
        lemma_next(events, n - 1);
        lemma_nested_next(events, n - 1);
        let before = events.take(n - 1);
        let e = events[n - 1];
        assert(now =~= before.push(e));
        assert(now.drop_last() =~= before);
        let a = applied_from(applied_start(), format, before);
        lemma_same_place(before, format);
        assert(is_plain_at(applied_from(applied_start(), no_format(), before), e));
        lemma_note_names();
        if !a.in_first_para {
            lemma_form_outside(a, format, before, e);
        } else if is_end(e, "w:p") {
            lemma_form_closed(a, format, before, e);
        } else {
            lemma_form_inside(a, format, before, e);
        }
    }
}

/// Events without footnotes leave a capture that has seen none as it is.
proof fn lemma_idle(events: Seq<Ev>)
    requires
        no_footnotes(events),
    ensures
        capture_from(capture_start(), events) == capture_start(),
    decreases events.len(),
{
    if events.len() > 0 {
        let init = events.drop_last();
        assert forall|i: int| 0 <= i < init.len() implies !is_start(
            #[trigger] init[i],
            "w:footnote",
        ) && !is_end(init[i], "w:footnote") by {
            assert(init[i] == events[i]);
        }
        assert(!is_start(events[events.len() - 1], "w:footnote"));
        assert(!is_end(events[events.len() - 1], "w:footnote"));
        lemma_idle(init);
    }
}

/// A paragraph without footnotes leaves a capture that has seen none as it is.
proof fn lemma_idle_para(out: Seq<Ev>, open: Ev, para: Seq<Ev>, close: Ev)
    requires
        capture_state(out) == capture_start(),
        is_start(open, "w:p"),
        no_footnotes(para),
        is_end(close, "w:p"),
    ensures
        capture_state((out.push(open) + para).push(close)) == capture_start(),
{
    lemma_note_names();
    let whole = (seq![open] + para).push(close);
    assert forall|i: int| 0 <= i < whole.len() implies !is_start(
        #[trigger] whole[i],
        "w:footnote",
    ) && !is_end(whole[i], "w:footnote") by {
        if 0 < i < whole.len() - 1 {
            assert(whole[i] == para[i - 1]);
        }
    }
    lemma_idle(whole);
    law_capture_goes_on(out, whole);
    assert((out.push(open) + para).push(close) =~= out + whole);
}

/// Before the first numbered footnote, a capture has seen nothing, neither in what is read
/// nor in what is written.
#[verifier::rlimit(40)]
proof fn lemma_nothing_captured(events: Seq<Ev>, format: FormatView, n: int)
    requires
        well_formed(events),
        notes_are_plain(events),
        is_proper(format),
        0 <= n <= events.len(),
        capture_state(events.take(n)).samples == 0,
    ensures
        capture_state(events.take(n)) == capture_start(),
        capture_state(applied_from(applied_start(), format, events.take(n)).out)
            == capture_start(),
    decreases n,
{
    let now = events.take(n);
    if n == 0 {
        assert(now =~= Seq::empty());
    } else {
        let before = events.take(n - 1);
        let e = events[n - 1];
        assert(now =~= before.push(e));
        assert(now.drop_last() =~= before);
        lemma_samples_grow(before, e);
        lemma_nothing_captured(events, format, n - 1);
        lemma_form(events, format, n - 1);
        lemma_next(events, n - 1);
        lemma_nested_next(events, n - 1);
        lemma_same_place(before, format);
        assert(is_plain_at(applied_from(applied_start(), no_format(), before), e));
        let a = applied_from(applied_start(), format, before);
        lemma_note_names();
        assert(a.out.push(e).drop_last() =~= a.out);
        if a.in_first_para && is_end(e, "w:p") {
            lemma_form_closed(a, format, before, e);
            lemma_para_form(a.payload, format);
            lemma_idle_para(a.out, a.open, first_para(a.payload, format).0, e);
        }
    }
}

proof fn lemma_samples_grow(before: Seq<Ev>, e: Ev)
    ensures
        capture_state(before).samples >= 0,
        capture_state(before.push(e)).samples >= capture_state(before).samples,
    decreases before.len(),
{
    assert(before.push(e).drop_last() =~= before);
    if before.len() > 0 {
        lemma_samples_grow(before.drop_last(), before.last());
        assert(before.drop_last().push(before.last()) =~= before);
    }
}

/// No event is a tag of a note or opens a paragraph.
pub open spec fn is_lead(events: Seq<Ev>) -> bool {
    forall|i: int|
        0 <= i < events.len() ==> !is_note_tag(#[trigger] events[i]) && !is_start(events[i], "w:p")
}

/// What stands in a note before its first paragraph is copied, and not captured.
proof fn lemma_lead(a: AppliedView, c: CaptureView, format: FormatView, lead: Seq<Ev>)
    requires
        is_lead(lead),
        !a.in_first_para,
        !c.in_first_para,
        c.run is None,
    ensures
        applied_from(a, format, lead) == (AppliedView { out: a.out + lead, ..a }),
        capture_from(c, lead) == c,
    decreases lead.len(),
{
    if lead.len() == 0 {
        assert(a.out + lead =~= a.out);
    } else {
        let init = lead.drop_last();
        assert forall|i: int| 0 <= i < init.len() implies !is_note_tag(#[trigger] init[i])
            && !is_start(init[i], "w:p") by {
            assert(init[i] == lead[i]);
        }
        assert(!is_note_tag(lead[lead.len() - 1]) && !is_start(lead[lead.len() - 1], "w:p"));
        lemma_lead(a, c, format, init);
        assert(a.out + lead =~= (a.out + init).push(lead.last()));
    }
}

/// What stands in a first paragraph is read to its end before it is rewritten.
proof fn lemma_payload_read(events: Seq<Ev>, format: FormatView, first: Seq<Ev>, n: int)
    requires
        notes_are_plain(events),
        0 <= n,
        first.len() + n <= events.len(),
        first == events.take(first.len() as int),
        applied_from(applied_start(), format, first).in_first_para,
        applied_from(applied_start(), format, first).payload.len() == 0,
        forall|k: int|
            first.len() <= k < first.len() + n ==> !is_end(#[trigger] events[k], "w:p"),
    ensures
        applied_from(applied_start(), format, events.take(first.len() + n)) == (AppliedView {
            payload: events.subrange(first.len() as int, first.len() + n),
            ..applied_from(applied_start(), format, first)
        }),
    decreases n,
{
    let a = applied_from(applied_start(), format, first);
    if n == 0 {
        assert(events.take(first.len() + n) =~= first);
        assert(a.payload =~= events.subrange(first.len() as int, first.len() as int));
    } else {
        lemma_payload_read(events, format, first, n - 1);
        let at = first.len() + n - 1;
        let before = events.take(at);
        let e = events[at];
        assert(events.take(at + 1).drop_last() =~= before);
        assert(events.take(at + 1).last() == e);
        lemma_same_place(before, format);
        assert(is_plain_at(applied_from(applied_start(), no_format(), before), e));
        assert(events.subrange(first.len() as int, at + 1) =~= events.subrange(
            first.len() as int,
            at,
        ).push(e));
    }
}

/// A part whose first numbered footnote is `note`, with `lead` and then a paragraph in it.
pub open spec fn noted(
    head: Seq<Ev>,
    note: Ev,
    lead: Seq<Ev>,
    open: Ev,
    payload: Seq<Ev>,
    close: Ev,
    rest: Seq<Ev>,
) -> Seq<Ev> {
    (head.push(note) + lead).push(open) + payload.push(close) + rest
}

/// These are the parts of such a part.
pub open spec fn is_noted(
    head: Seq<Ev>,
    note: Ev,
    lead: Seq<Ev>,
    open: Ev,
    payload: Seq<Ev>,
    close: Ev,
) -> bool {
    &&& capture_state(head).samples == 0
    &&& is_start(note, "w:footnote")
    &&& has_positive_id(note)
    &&& is_lead(lead)
    &&& is_start(open, "w:p")
    &&& is_end(close, "w:p")
    &&& forall|k: int| 0 <= k < payload.len() ==> !is_end(#[trigger] payload[k], "w:p")
}

/// Where the first paragraph of the first numbered footnote has been opened.
#[verifier::rlimit(40)]
proof fn lemma_note_opened(
    head: Seq<Ev>,
    note: Ev,
    lead: Seq<Ev>,
    open: Ev,
    events: Seq<Ev>,
    format: FormatView,
)
    requires
        well_formed(events),
        notes_are_plain(events),
        is_proper(format),
        head.len() < events.len(),
        events.take(head.len() as int) == head,
        events[head.len() as int] == note,
        capture_state(head).samples == 0,
        is_start(note, "w:footnote"),
        has_positive_id(note),
        is_lead(lead),
        is_start(open, "w:p"),
    ensures
        ({
            let a = applied_from(applied_start(), format, head.push(note) + lead);
            let b = applied_from(applied_start(), format, (head.push(note) + lead).push(open));
            &&& capture_step(capture_state(a.out), open) == at_first_paragraph()
            &&& b.out == a.out
            &&& b.in_first_para
            &&& b.open == open
            &&& b.payload.len() == 0
        }),
{
    lemma_note_names();
    let start = applied_start();
    let h = head.len() as int;
    lemma_nothing_captured(events, format, h);
    lemma_same_place(head, format);
    assert(is_plain_at(applied_from(start, no_format(), events.take(h)), events[h]));
    let a0 = applied_from(start, format, head);
    let first = head.push(note);
    lemma_applied_push(start, format, head, note);
    let a1 = applied_from(start, format, first);
    let c1 = capture_step(capture_start(), note);
    assert(a1.out.drop_last() =~= a0.out);
    assert(capture_state(a1.out) == c1);
    lemma_lead(a1, c1, format, lead);
    lemma_applied_concat(start, format, first, lead);
    law_capture_goes_on(a1.out, lead);
    lemma_applied_push(start, format, first + lead, open);
}

/// A first paragraph is read and rewritten: `first` ends with its start.
#[verifier::rlimit(40)]
proof fn lemma_note_closed(
    first: Seq<Ev>,
    payload: Seq<Ev>,
    close: Ev,
    events: Seq<Ev>,
    format: FormatView,
)
    requires
        well_formed(events),
        notes_are_plain(events),
        is_proper(format),
        first.len() + payload.len() < events.len(),
        events.take(first.len() as int) == first,
        events.take((first.len() + payload.len()) as int) == first + payload,
        events[(first.len() + payload.len()) as int] == close,
        is_end(close, "w:p"),
        forall|k: int| 0 <= k < payload.len() ==> !is_end(#[trigger] payload[k], "w:p"),
        applied_from(applied_start(), format, first).in_first_para,
        applied_from(applied_start(), format, first).payload.len() == 0,
    ensures
        is_closed(payload),
        number_run(top_runs(payload), 0) is Some ==> is_simple(payload),
        ({
            let a = applied_from(applied_start(), format, first);
            applied_from(applied_start(), format, (first + payload).push(close)).out == (a.out.push(
                a.open,
            ) + first_para(payload, format).0).push(close)
        }),
        number_run(top_runs(payload), 0) is Some && format.marker_rpr_xml is Some ==> notes_state(
            (first + payload).push(close),
            format,
        ).touched > 0,
{
    lemma_note_names();
    let start = applied_start();
    let n = payload.len() as int;
    let read = first + payload;
    let at = read.len() as int;
    assert forall|k: int| first.len() <= k < first.len() + n implies !is_end(
        #[trigger] events[k],
        "w:p",
    ) by {
        assert(events[k] == read[k]);
        assert(read[k] == payload[k - first.len()]);
    }
    lemma_payload_read(events, format, first, n);
    assert(events.subrange(first.len() as int, at) =~= payload) by {
        assert(events.subrange(first.len() as int, at) =~= read.skip(first.len() as int));
    }
    let a = applied_from(start, format, read);
    lemma_same_place(read, format);
    assert(is_plain_at(applied_from(start, no_format(), events.take(at)), events[at]));
    lemma_form(events, format, at);
    lemma_next(events, at);
    lemma_nested_next(events, at);
    assert(events.take(at + 1) =~= read.push(close));
    lemma_form_closed(a, format, read, close);
    lemma_applied_push(start, format, read, close);
    law_notes_are_written(read, format);
    assert(read.push(close).drop_last() =~= read);
    lemma_touched_is_nat(read, format);
}

proof fn lemma_touched_is_nat(events: Seq<Ev>, format: FormatView)
    ensures
        notes_state(events, format).touched >= 0,
    decreases events.len(),
{
    if events.len() > 0 {
        lemma_touched_is_nat(events.drop_last(), format);
    }
}

/// How such a part is put together.
proof fn lemma_noted(
    head: Seq<Ev>,
    note: Ev,
    lead: Seq<Ev>,
    open: Ev,
    payload: Seq<Ev>,
    close: Ev,
    rest: Seq<Ev>,
)
    ensures
        ({
            let events = noted(head, note, lead, open, payload, close, rest);
            let first = (head.push(note) + lead).push(open);
            let read = first + payload;
            &&& read.len() < events.len()
            &&& events.take(head.len() as int) == head
            &&& events[head.len() as int] == note
            &&& events.take(first.len() as int) == first
            &&& events.take(read.len() as int) == read
            &&& events[read.len() as int] == close
            &&& events == read.push(close) + rest
        }),
{
    let events = noted(head, note, lead, open, payload, close, rest);
    let first = (head.push(note) + lead).push(open);
    let read = first + payload;
    assert(events =~= read.push(close) + rest);
    assert(events.take(read.len() as int) =~= read);
    assert(events.take(first.len() as int) =~= first);
    assert(events.take(head.len() as int) =~= head);
}

proof fn lemma_regrouped(a: Seq<Ev>, b: Seq<Ev>, e: Ev, c: Seq<Ev>)
    ensures
        (a + b).push(e) + c == a + (b.push(e) + c),
{
    assert((a + b).push(e) + c =~= a + (b.push(e) + c));
}

/// What is written of such a part, and what a capture finds where the paragraph starts.
#[verifier::rlimit(40)]
proof fn lemma_part_written(
    head: Seq<Ev>,
    note: Ev,
    lead: Seq<Ev>,
    open: Ev,
    payload: Seq<Ev>,
    close: Ev,
    rest: Seq<Ev>,
    format: FormatView,
) -> (r: (Seq<Ev>, Seq<Ev>))
    requires
        well_formed(noted(head, note, lead, open, payload, close, rest)),
        notes_are_plain(noted(head, note, lead, open, payload, close, rest)),
        is_noted(head, note, lead, open, payload, close),
        is_proper(format),
    ensures
        notes_events(noted(head, note, lead, open, payload, close, rest), format) == r.0.push(open)
            + (first_para(payload, format).0.push(close) + r.1),
        capture_step(capture_state(r.0), open) == at_first_paragraph(),
        is_closed(payload),
        number_run(top_runs(payload), 0) is Some ==> is_simple(payload),
        number_run(top_runs(payload), 0) is Some && format.marker_rpr_xml is Some ==> notes_state(
            noted(head, note, lead, open, payload, close, rest),
            format,
        ).touched > 0,
{
    let events = noted(head, note, lead, open, payload, close, rest);
    let start = applied_start();
    let second = head.push(note) + lead;
    let first = second.push(open);
    let read = first + payload;
    let closed = read.push(close);
    lemma_noted(head, note, lead, open, payload, close, rest);
    lemma_note_opened(head, note, lead, open, events, format);
    lemma_note_closed(first, payload, close, events, format);
    let a = applied_from(start, format, closed);
    lemma_applied_concat(start, format, closed, rest);
    let more = lemma_written_stays(a, format, rest);
    let x = applied_from(start, format, second).out;
    let para = first_para(payload, format).0;
    lemma_regrouped(x.push(open), para, close, more);
    lemma_touched_grows(closed, rest, format);
    (x, more)
}

proof fn lemma_touched_grows(a: Seq<Ev>, b: Seq<Ev>, format: FormatView)
    ensures
        notes_state(a, format).touched <= notes_state(a + b, format).touched,
    decreases b.len(),
{
    if b.len() == 0 {
        assert(a + b =~= a);
    } else {
        lemma_touched_grows(a, b.drop_last(), format);
        assert((a + b).drop_last() =~= a + b.drop_last());
    }
}

/// A format that has been applied is the format that is extracted, and some note was
/// touched. The footnotes part is read up to its first numbered footnote (`head`), the start
/// of that (`note`), what stands before its first paragraph (`lead`), that paragraph (`open`,
/// `payload`, `close`) and what follows (`rest`). Left out are a number that is missing or
/// stands in its own properties; first paragraphs of numbered notes that hold a note or a
/// paragraph, or a number and runs inside runs; formats that are none, which means
/// properties that are not one element and a separator other than white space; and parts
/// that start with a second byte order mark.
#[verifier::rlimit(40)]
pub proof fn law_applied_format_is_extracted(
    before: Parts,
    after: Parts,
    res: Result<usize, Error>,
    found: Result<FootnoteFormat, Error>,
    head: Seq<Ev>,
    note: Ev,
    lead: Seq<Ev>,
    open: Ev,
    payload: Seq<Ev>,
    close: Ev,
    rest: Seq<Ev>,
    rpr: Seq<u8>,
    separator: Seq<char>,
)
    requires
        format_set(
            before,
            (FormatView { marker_rpr_xml: Some(rpr), separator: Some(separator) }),
            after,
            res,
        ),
        res is Ok,
        format_found(after, found),
        part(before, PART_FOOTNOTES@) is Some,
        xml_events(part(before, PART_FOOTNOTES@)->0) == noted(
            head,
            note,
            lead,
            open,
            payload,
            close,
            rest,
        ),
        is_noted(head, note, lead, open, payload, close),
        notes_are_plain(noted(head, note, lead, open, payload, close, rest)),
        !starts_with_mark(noted(head, note, lead, open, payload, close, rest)),
        number_run(top_runs(payload), 0) is Some,
        number_is_clear(payload, top_runs(payload)[number_run(top_runs(payload), 0)->0]),
        is_properties(xml_events(rpr)),
        emitted_all(xml_events(rpr)) == rpr,
        is_separator_text(separator),
    ensures
        res->Ok_0 >= 1,
        found is Ok,
        found->Ok_0@ == (FormatView { marker_rpr_xml: Some(rpr), separator: Some(separator) }),
{
    let format = FormatView { marker_rpr_xml: Some(rpr), separator: Some(separator) };
    let data = part(before, PART_FOOTNOTES@)->0;
    let events = noted(head, note, lead, open, payload, close, rest);
    let (x, more) = lemma_part_written(head, note, lead, open, payload, close, rest, format);
    lemma_applied(payload, rpr, separator);
    lemma_part_captured(x, open, first_para(payload, format).0, close, more, format);
    law_notes_are_written(events, format);
    let n = events.len() as int;
    assert(events.take(n) =~= events);
    lemma_form(events, format, n);
    let out = notes_events(events, format);
    let f = |evs: Seq<Ev>| notes_formatted(evs, format);
    let p0 = Pass { parts: before, count: 0, failed: None };
    let p1 = pass_part(p0, PART_FOOTNOTES@, f);
    lemma_story_names();
    lemma_with_part(before, PART_FOOTNOTES@, emitted_all(out));
    lemma_pass_part(p1, PART_ENDNOTES@, f);
    assert(p1.failed is None);
    assert(part(after, PART_FOOTNOTES@) == Some(emitted_all(out)));
    assert(reads_back(out));
}

/// Applying a format changes no part but the footnotes and the endnotes.
pub proof fn law_other_parts_keep(before: Parts, format: FormatView, other: Seq<char>)
    requires
        other != PART_FOOTNOTES@,
        other != PART_ENDNOTES@,
    ensures
        part(format_applied(before, format).parts, other) == part(before, other),
{
    let f = |evs: Seq<Ev>| notes_formatted(evs, format);
    let p0 = Pass { parts: before, count: 0, failed: None };
    lemma_pass_part(p0, PART_FOOTNOTES@, f);
    lemma_pass_part(pass_part(p0, PART_FOOTNOTES@, f), PART_ENDNOTES@, f);
}

/// What stands in no numbered note is copied.
proof fn lemma_copied(s: AppliedView, format: FormatView, events: Seq<Ev>)
    requires
        !s.in_note,
        !s.in_first_para,
        forall|i: int| 0 <= i < events.len() ==> !is_note_tag(#[trigger] events[i]),
    ensures
        applied_from(s, format, events) == (AppliedView { out: s.out + events, ..s }),
    decreases events.len(),
{
    if events.len() == 0 {
        assert(s.out + events =~= s.out);
    } else {
        let init = events.drop_last();
        assert forall|i: int| 0 <= i < init.len() implies !is_note_tag(#[trigger] init[i]) by {
            assert(init[i] == events[i]);
        }
        assert(!is_note_tag(events[events.len() - 1]));
        lemma_copied(s, format, init);
        assert(s.out + events =~= (s.out + init).push(events.last()));
    }
}

/// A note without a number greater than zero keeps its bytes, whatever stands before and
/// after it.
pub proof fn law_other_notes_keep(
    before: Seq<Ev>,
    note: Ev,
    inner: Seq<Ev>,
    end: Ev,
    rest: Seq<Ev>,
    format: FormatView,
) -> (r: (Seq<u8>, Seq<u8>))
    requires
        is_start(note, "w:footnote") || is_start(note, "w:endnote"),
        !has_positive_id(note),
        forall|i: int| 0 <= i < inner.len() ==> !is_note_tag(#[trigger] inner[i]),
        is_end(end, "w:footnote") || is_end(end, "w:endnote"),
    ensures
        r.0 == notes_formatted(before, format).0,
        notes_formatted((before.push(note) + inner).push(end) + rest, format).0 == r.0
            + emitted_all((seq![note] + inner).push(end)) + r.1,
{
    lemma_note_names();
    let start = applied_start();
    let first = before.push(note);
    let second = first + inner;
    let third = second.push(end);
    let a = applied_from(start, format, before);
    lemma_applied_push(start, format, before, note);
    lemma_copied(applied_from(start, format, first), format, inner);
    lemma_applied_concat(start, format, first, inner);
    lemma_applied_push(start, format, second, end);
    let b = applied_from(start, format, third);
    lemma_applied_concat(start, format, third, rest);
    let more = lemma_written_stays(b, format, rest);
    let whole = (seq![note] + inner).push(end);
    assert(b.out =~= a.out + whole);
    lemma_emitted_concat(a.out, whole);
    lemma_emitted_concat(b.out, more);
    law_notes_are_written(before, format);
    law_notes_are_written(third + rest, format);
    (emitted_all(a.out), emitted_all(more))
}

/// What is captured from such a part.
proof fn lemma_part_captured(
    before: Seq<Ev>,
    open: Ev,
    para: Seq<Ev>,
    close: Ev,
    more: Seq<Ev>,
    format: FormatView,
)
    requires
        capture_step(capture_state(before), open) == at_first_paragraph(),
        is_end(close, "w:p"),
        is_simple(para),
        captured_format(capture_from(at_first_paragraph(), para)) == format,
        format.marker_rpr_xml is Some,
    ensures
        captured_format(capture_state(before.push(open) + (para.push(close) + more))) == format,
{
    lemma_note_names();
    let first = before.push(open);
    law_capture_goes_on(first, para.push(close) + more);
    assert(first.drop_last() =~= before);
    lemma_capture_concat(at_first_paragraph(), para.push(close), more);
    assert(para.push(close).drop_last() =~= para);
    lemma_capture(para);
    let c = capture_from(at_first_paragraph(), para);
    let d = capture_step(c, close);
    assert(is_settled(d));
    lemma_settled_capture(d, more);
}

} // verus!
