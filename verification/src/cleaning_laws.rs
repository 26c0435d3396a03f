//! What cleaning leaves of runs, and which paragraphs lose their bold.

use vstd::prelude::*;
use vstd::utf8::is_ascii_chars_encode_utf8;

use crate::bytes::lit;
use crate::clean_runs::{
    clean_state, cleaned_run, filter_state, filter_step, has_footnote_mark, is_footnote_mark,
    is_kept, keep_rpr_tags, CleanView, FilterView,
};
use crate::heading_inference::is_off;
use crate::run_laws::paragraphs_level;
use crate::strip_paragraph_bold::{
    bold_state, bold_step, is_all_bold, plain_paragraph, strip_state, strip_step, unbold_state,
    BoldView, StripView,
};
use crate::xml::{attr_value, is_end, is_start, tag_attrs, tag_name, Ev, EventKind};

verus! {

// ---------------------------------------------------------------------------
// Properties
// ---------------------------------------------------------------------------

/// Bold, italics, underlining, both kinds of striking, raised and lowered text, highlighting,
/// small and large capitals, emphasis marks and hiding.
pub open spec fn has_meaning(e: Ev) -> bool {
    let n = tag_name(e);
    ||| n == lit("w:b") || n == lit("w:bCs")
    ||| n == lit("w:i") || n == lit("w:iCs")
    ||| n == lit("w:u")
    ||| n == lit("w:strike") || n == lit("w:dstrike")
    ||| n == lit("w:vertAlign")
    ||| n == lit("w:highlight")
    ||| n == lit("w:smallCaps") || n == lit("w:allCaps")
    ||| n == lit("w:em")
    ||| n == lit("w:vanish")
}

/// The properties that are kept are those that carry meaning.
pub proof fn law_meaning_is_kept(e: Ev)
    ensures
        is_kept(e) <==> has_meaning(e),
{
    let all = keep_rpr_tags();
    assert(all.len() == 13);
    if has_meaning(e) {
        let n = tag_name(e);
        assert(n == all[0] || n == all[1] || n == all[2] || n == all[3] || n == all[4] || n
            == all[5] || n == all[6] || n == all[7] || n == all[8] || n == all[9] || n == all[10]
            || n == all[11] || n == all[12]);
        assert(all.contains(n));
    }
    if is_kept(e) {
        let i = choose|i: int| 0 <= i < all.len() && all[i] == tag_name(e);
        assert(all[i] == tag_name(e));
    }
}

/// The events of `props` that carry meaning.
pub open spec fn meaningful(props: Seq<Ev>) -> Seq<Ev>
    decreases props.len(),
{
    if props.len() == 0 {
        Seq::empty()
    } else if has_meaning(props.last()) {
        meaningful(props.drop_last()).push(props.last())
    } else {
        meaningful(props.drop_last())
    }
}

/// No event is a tag of run properties or of a run.
pub open spec fn is_plain_inside(events: Seq<Ev>) -> bool {
    forall|i: int|
        0 <= i < events.len() ==> !is_start(#[trigger] events[i], "w:rPr") && !is_end(
            events[i],
            "w:rPr",
        ) && !is_start(events[i], "w:r") && !is_end(events[i], "w:r")
}

/// Every event is an empty tag.
pub open spec fn all_empty(events: Seq<Ev>) -> bool {
    forall|i: int| 0 <= i < events.len() ==> (#[trigger] events[i]).kind == EventKind::Empty
}

proof fn lemma_plain_init(events: Seq<Ev>)
    requires
        is_plain_inside(events),
        events.len() > 0,
    ensures
        is_plain_inside(events.drop_last()),
        !is_start(events.last(), "w:rPr"),
        !is_end(events.last(), "w:rPr"),
        !is_start(events.last(), "w:r"),
        !is_end(events.last(), "w:r"),
{
    let init = events.drop_last();
    assert forall|i: int| 0 <= i < init.len() implies !is_start(#[trigger] init[i], "w:rPr")
        && !is_end(init[i], "w:rPr") && !is_start(init[i], "w:r") && !is_end(init[i], "w:r") by {
        assert(init[i] == events[i]);
    }
    assert(events[events.len() - 1] == events.last());
}

proof fn lemma_props_filtered(before: Seq<Ev>, props: Seq<Ev>)
    requires
        filter_state(before).in_rpr,
        filter_state(before).dropping == 0,
        all_empty(props),
    ensures
        filter_state(before + props) == (FilterView {
            out: filter_state(before).out + meaningful(props),
            removed: filter_state(before).removed + (props.len() - meaningful(props).len()) as nat,
            ..filter_state(before)
        }),
        meaningful(props).len() <= props.len(),
    decreases props.len(),
{
    let s = filter_state(before);
    if props.len() == 0 {
        assert(before + props =~= before);
        assert(s.out + meaningful(props) =~= s.out);
    } else {
        let init = props.drop_last();
        assert(all_empty(init)) by {
            assert forall|i: int| 0 <= i < init.len() implies (#[trigger] init[i]).kind
                == EventKind::Empty by {
                assert(init[i] == props[i]);
            }
        }
        assert(props[props.len() - 1].kind == EventKind::Empty);
        lemma_props_filtered(before, init);
        assert((before + props).drop_last() =~= before + init);
        assert((before + props).last() == props.last());
        law_meaning_is_kept(props.last());
        assert(s.out + meaningful(init).push(props.last()) =~= (s.out + meaningful(init)).push(
            props.last(),
        ));
    }
}

proof fn lemma_rest_filtered(before: Seq<Ev>, rest: Seq<Ev>)
    requires
        !filter_state(before).in_rpr,
        filter_state(before).dropping == 0,
        is_plain_inside(rest),
    ensures
        filter_state(before + rest) == (FilterView {
            out: filter_state(before).out + rest,
            ..filter_state(before)
        }),
    decreases rest.len(),
{
    let s = filter_state(before);
    if rest.len() == 0 {
        assert(before + rest =~= before);
        assert(s.out + rest =~= s.out);
    } else {
        let init = rest.drop_last();
        lemma_plain_init(rest);
        lemma_rest_filtered(before, init);
        assert((before + rest).drop_last() =~= before + init);
        assert((before + rest).last() == rest.last());
        assert(s.out + rest =~= (s.out + init).push(rest.last()));
    }
}

/// Of the properties of a run those that carry meaning stay, in order, and the others go and
/// are counted; what else the run holds stays. Left out are properties that hold elements.
pub proof fn law_properties_without_meaning_go(open: Ev, props: Seq<Ev>, close: Ev, body: Seq<Ev>)
    requires
        is_start(open, "w:rPr"),
        all_empty(props),
        is_end(close, "w:rPr"),
        is_plain_inside(body),
        !has_footnote_mark((seq![open] + props).push(close) + body),
    ensures
        cleaned_run((seq![open] + props).push(close) + body) == (
            (seq![open] + meaningful(props)).push(close) + body,
            (props.len() - meaningful(props).len()) as nat,
        ),
        meaningful(props).len() <= props.len(),
{
    let one = seq![open];
    assert(one.drop_last() =~= Seq::empty());
    let s = filter_state(one);
    assert(s == filter_step(filter_state(Seq::empty()), open));
    assert(s.in_rpr && s.dropping == 0 && s.removed == 0);
    assert(s.out =~= one);
    lemma_props_filtered(one, props);
    let two = (one + props).push(close);
    assert(two.drop_last() =~= one + props);
    let t = filter_state(two);
    assert(t.out == (one + meaningful(props)).push(close));
    lemma_rest_filtered(two, body);
}

/// A run without properties stays as it is.
pub proof fn law_runs_without_properties_stay(body: Seq<Ev>)
    requires
        is_plain_inside(body),
    ensures
        cleaned_run(body) == (body, 0nat),
{
    let none = Seq::<Ev>::empty();
    lemma_rest_filtered(none, body);
    assert(none + body =~= body);
}

/// A run that refers to a footnote, or marks the number of one, stays as it is.
pub proof fn law_footnote_runs_stay(payload: Seq<Ev>, i: int)
    requires
        0 <= i < payload.len(),
        payload[i].kind == EventKind::Start || payload[i].kind == EventKind::Empty,
        tag_name(payload[i]) == lit("w:footnoteReference") || tag_name(payload[i]) == lit(
            "w:footnoteRef",
        ),
    ensures
        cleaned_run(payload) == (payload, 0nat),
{
    assert(is_footnote_mark(payload[i]));
}

/// A run is cleaned where it stands, and what stands outside runs stays as it is.
pub proof fn law_runs_are_cleaned_in_place(before: Seq<Ev>, open: Ev, payload: Seq<Ev>, close: Ev)
    requires
        clean_state(before).depth == 0,
        is_start(open, "w:r"),
        is_end(close, "w:r"),
        forall|i: int|
            0 <= i < payload.len() ==> !is_start(#[trigger] payload[i], "w:r") && !is_end(
                payload[i],
                "w:r",
            ),
    ensures
        ({
            let a = clean_state(before);
            let b = clean_state((before.push(open) + payload).push(close));
            let (kept, n) = cleaned_run(payload);
            &&& b.out == (a.out.push(open) + kept).push(close)
            &&& b.removed == a.removed + n
            &&& b.depth == 0
        }),
{
    let a = before.push(open);
    assert(a.drop_last() =~= before);
    lemma_run_read(a, payload, payload.len() as int);
    assert(payload.take(payload.len() as int) =~= payload);
    let all = (a + payload).push(close);
    assert(all.drop_last() =~= a + payload);
}

proof fn lemma_run_read(a: Seq<Ev>, payload: Seq<Ev>, n: int)
    requires
        clean_state(a).depth == 1,
        clean_state(a).payload.len() == 0,
        0 <= n <= payload.len(),
        forall|i: int|
            0 <= i < payload.len() ==> !is_start(#[trigger] payload[i], "w:r") && !is_end(
                payload[i],
                "w:r",
            ),
    ensures
        clean_state(a + payload.take(n)) == (CleanView {
            payload: payload.take(n),
            ..clean_state(a)
        }),
    decreases n,
{
    if n == 0 {
        assert(a + payload.take(0) =~= a);
        assert(payload.take(0) =~= clean_state(a).payload);
    } else {
        lemma_run_read(a, payload, n - 1);
        assert((a + payload.take(n)).drop_last() =~= a + payload.take(n - 1));
        assert((a + payload.take(n)).last() == payload[n - 1]);
        assert(payload.take(n) =~= payload.take(n - 1).push(payload[n - 1]));
    }
}

/// What stands outside runs stays as it is.
pub proof fn law_outside_runs_nothing_is_cleaned(before: Seq<Ev>, e: Ev)
    requires
        clean_state(before).depth == 0,
        !is_start(e, "w:r"),
    ensures
        ({
            let a = clean_state(before);
            let b = clean_state(before.push(e));
            b.out == a.out.push(e) && b.removed == a.removed && b.depth == 0
        }),
{
    assert(before.push(e).drop_last() =~= before);
}

// ---------------------------------------------------------------------------
// Bold paragraphs
// ---------------------------------------------------------------------------

/// A run with properties.
pub struct PlainRun {
    pub open: Ev,
    pub rpr: Ev,
    pub props: Seq<Ev>,
    pub rpr_end: Ev,
    pub body: Seq<Ev>,
    pub close: Ev,
}

/// The tags are those of a run and of its properties, which are empty tags, and the run holds
/// no other run.
pub open spec fn is_plain_run(r: PlainRun) -> bool {
    &&& is_start(r.open, "w:r")
    &&& is_start(r.rpr, "w:rPr")
    &&& all_empty(r.props)
    &&& is_end(r.rpr_end, "w:rPr")
    &&& is_plain_inside(r.body)
    &&& is_end(r.close, "w:r")
}

/// The events of a run.
pub open spec fn run_events(r: PlainRun) -> Seq<Ev> {
    ((seq![r.open, r.rpr] + r.props).push(r.rpr_end) + r.body).push(r.close)
}

/// The events of the first `n` runs.
pub open spec fn runs_events(runs: Seq<PlainRun>, n: int) -> Seq<Ev>
    decreases n,
{
    if n <= 0 {
        Seq::empty()
    } else {
        runs_events(runs, n - 1) + run_events(runs[n - 1])
    }
}

/// Some property makes the run bold: an empty `<w:b>` that is not switched off.
pub open spec fn is_bold_run(r: PlainRun) -> bool {
    exists|i: int|
        0 <= i < r.props.len() && tag_name(#[trigger] r.props[i]) == lit("w:b") && !is_off(
            r.props[i],
        )
}

/// A property is switched off by the value `0` or `false`, and by no other.
pub proof fn law_switched_off(e: Ev)
    ensures
        is_off(e) <==> exists|v: Seq<u8>| #[trigger]
            attr_value(tag_attrs(e, true), "w:val") == Some(v) && (v == seq![0x30u8] || v
                == seq![0x66u8, 0x61u8, 0x6cu8, 0x73u8, 0x65u8]),
{
    reveal_strlit("0");
    reveal_strlit("false");
    is_ascii_chars_encode_utf8("0"@);
    is_ascii_chars_encode_utf8("false"@);
    assert(lit("0") =~= seq![0x30u8]);
    assert(lit("false") =~= seq![0x66u8, 0x61u8, 0x6cu8, 0x73u8, 0x65u8]);
    if is_off(e) {
        let v = attr_value(tag_attrs(e, true), "w:val")->0;
        assert(attr_value(tag_attrs(e, true), "w:val") == Some(v));
    }
}

proof fn lemma_tag_names()
    ensures
        lit("w:r") != lit("w:rPr"),
        lit("w:b") != lit("w:r"),
        lit("w:b") != lit("w:rPr"),
{
    reveal_strlit("w:b");
    reveal_strlit("w:r");
    reveal_strlit("w:rPr");
    is_ascii_chars_encode_utf8("w:b"@);
    is_ascii_chars_encode_utf8("w:r"@);
    is_ascii_chars_encode_utf8("w:rPr"@);
    assert(lit("w:r").len() != lit("w:rPr").len());
    assert(lit("w:b")[2] != lit("w:r")[2]);
    assert(lit("w:b").len() != lit("w:rPr").len());
}

proof fn lemma_bold_push(events: Seq<Ev>, e: Ev)
    ensures
        bold_state(events.push(e)) == bold_step(bold_state(events), e),
{
    assert(events.push(e).drop_last() =~= events);
}

/// Some of the first events is an empty `<w:b>` that is not switched off.
spec fn some_bold(props: Seq<Ev>) -> bool {
    exists|i: int|
        0 <= i < props.len() && tag_name(#[trigger] props[i]) == lit("w:b") && !is_off(props[i])
}

proof fn lemma_bold_props(before: Seq<Ev>, props: Seq<Ev>)
    requires
        all_empty(props),
        bold_state(before).runs.len() > 0,
        bold_state(before).in_rpr,
    ensures
        bold_state(before + props) == (BoldView {
            runs: if some_bold(props) {
                bold_state(before).runs.drop_last().push(true)
            } else {
                bold_state(before).runs
            },
            ..bold_state(before)
        }),
    decreases props.len(),
{
    let s = bold_state(before);
    if props.len() == 0 {
        assert(before + props =~= before);
    } else {
        let init = props.drop_last();
        let e = props.last();
        assert(all_empty(init)) by {
            assert forall|i: int| 0 <= i < init.len() implies (#[trigger] init[i]).kind
                == EventKind::Empty by {
                assert(init[i] == props[i]);
            }
        }
        assert(props[props.len() - 1].kind == EventKind::Empty);
        lemma_bold_props(before, init);
        assert(before + props =~= (before + init).push(e));
        lemma_bold_push(before + init, e);
        if some_bold(init) {
            let i = choose|i: int|
                0 <= i < init.len() && tag_name(#[trigger] init[i]) == lit("w:b") && !is_off(
                    init[i],
                );
            assert(props[i] == init[i]);
        }
        if some_bold(props) && !some_bold(init) {
            let i = choose|i: int|
                0 <= i < props.len() && tag_name(#[trigger] props[i]) == lit("w:b") && !is_off(
                    props[i],
                );
            if i < init.len() {
                assert(init[i] == props[i]);
            }
        }
        assert(s.runs.drop_last().push(true).drop_last() =~= s.runs.drop_last());
    }
}

proof fn lemma_bold_body(before: Seq<Ev>, body: Seq<Ev>)
    requires
        is_plain_inside(body),
        !bold_state(before).in_rpr,
    ensures
        bold_state(before + body) == bold_state(before),
    decreases body.len(),
{
    if body.len() == 0 {
        assert(before + body =~= before);
    } else {
        let init = body.drop_last();
        lemma_plain_init(body);
        lemma_bold_body(before, init);
        assert(before + body =~= (before + init).push(body.last()));
        lemma_bold_push(before + init, body.last());
    }
}

proof fn lemma_bold_run(before: Seq<Ev>, r: PlainRun)
    requires
        is_plain_run(r),
        bold_state(before).runs.len() == 0,
        !bold_state(before).in_rpr,
    ensures
        bold_state(before + run_events(r)) == (BoldView {
            any_run: true,
            all_bold: bold_state(before).all_bold && is_bold_run(r),
            ..bold_state(before)
        }),
{
    lemma_tag_names();
    let s = bold_state(before);
    let a = before.push(r.open);
    let b = a.push(r.rpr);
    let c = b + r.props;
    let d = c.push(r.rpr_end);
    let e = d + r.body;
    lemma_bold_push(before, r.open);
    lemma_bold_push(a, r.rpr);
    lemma_bold_props(b, r.props);
    lemma_bold_push(c, r.rpr_end);
    lemma_bold_body(d, r.body);
    lemma_bold_push(e, r.close);
    assert(before + run_events(r) =~= e.push(r.close));
    assert(some_bold(r.props) == is_bold_run(r));
    assert(s.runs.push(false).drop_last().push(true).drop_last() =~= s.runs);
    assert(s.runs.push(false).drop_last() =~= s.runs);
}

proof fn lemma_bold_runs(before: Seq<Ev>, runs: Seq<PlainRun>, n: int)
    requires
        0 <= n <= runs.len(),
        forall|i: int| 0 <= i < runs.len() ==> is_plain_run(#[trigger] runs[i]),
        bold_state(before) == bold_state(Seq::empty()),
    ensures
        ({
            let s = bold_state(before + runs_events(runs, n));
            &&& s.any_run == (n > 0)
            &&& s.all_bold == (forall|i: int| 0 <= i < n ==> is_bold_run(#[trigger] runs[i]))
            &&& s.runs.len() == 0
            &&& !s.in_rpr
        }),
    decreases n,
{
    if n == 0 {
        assert(before + runs_events(runs, 0) =~= before);
    } else {
        lemma_bold_runs(before, runs, n - 1);
        lemma_bold_run(before + runs_events(runs, n - 1), runs[n - 1]);
        assert(before + runs_events(runs, n) =~= before + runs_events(runs, n - 1) + run_events(
            runs[n - 1],
        ));
    }
}

/// A paragraph counts as bold exactly where it has runs and every run is bold.
pub proof fn law_bold_throughout(open: Ev, runs: Seq<PlainRun>, close: Ev)
    requires
        is_start(open, "w:p"),
        is_end(close, "w:p"),
        forall|i: int| 0 <= i < runs.len() ==> is_plain_run(#[trigger] runs[i]),
    ensures
        is_all_bold((seq![open] + runs_events(runs, runs.len() as int)).push(close)) <==> (
        runs.len() > 0 && forall|i: int| 0 <= i < runs.len() ==> is_bold_run(#[trigger] runs[i])),
{
    let n = runs.len() as int;
    let one = seq![open];
    assert(lit("w:p") != lit("w:r") && lit("w:p") != lit("w:rPr")) by {
        reveal_strlit("w:p");
        reveal_strlit("w:r");
        reveal_strlit("w:rPr");
        is_ascii_chars_encode_utf8("w:p"@);
        is_ascii_chars_encode_utf8("w:r"@);
        is_ascii_chars_encode_utf8("w:rPr"@);
        assert(lit("w:p")[2] != lit("w:r")[2]);
        assert(lit("w:p").len() != lit("w:rPr").len());
    }
    assert(one =~= Seq::<Ev>::empty().push(open));
    lemma_bold_push(Seq::empty(), open);
    lemma_bold_runs(one, runs, n);
    lemma_bold_push(one + runs_events(runs, n), close);
}

/// Only tags of bold go: the other events of a paragraph stay, in order.
pub open spec fn without_bold(events: Seq<Ev>) -> Seq<Ev>
    decreases events.len(),
{
    if events.len() == 0 {
        Seq::empty()
    } else {
        let e = events.last();
        let before = without_bold(events.drop_last());
        if tag_name(e) == lit("w:b") || tag_name(e) == lit("w:bCs") {
            before
        } else {
            before.push(e)
        }
    }
}

proof fn lemma_without_bold_push(events: Seq<Ev>, e: Ev)
    ensures
        without_bold(events.push(e)) == if tag_name(e) == lit("w:b") || tag_name(e) == lit(
            "w:bCs",
        ) {
            without_bold(events)
        } else {
            without_bold(events).push(e)
        },
{
    assert(events.push(e).drop_last() =~= events);
}

/// Removing bold takes nothing but tags of bold out of a paragraph.
pub proof fn law_only_bold_goes(events: Seq<Ev>)
    ensures
        without_bold(unbold_state(events).out) == without_bold(events),
        without_bold(plain_paragraph(events)) == without_bold(events),
    decreases events.len(),
{
    if events.len() > 0 {
        let init = events.drop_last();
        law_only_bold_goes(init);
        lemma_without_bold_push(unbold_state(init).out, events.last());
    }
}

proof fn lemma_strip_push(events: Seq<Ev>, e: Ev)
    ensures
        strip_state(events.push(e)) == strip_step(strip_state(events), e),
{
    assert(events.push(e).drop_last() =~= events);
}

proof fn lemma_paragraph_upto(before: Seq<Ev>, open: Ev, inner: Seq<Ev>, k: int)
    requires
        strip_state(before).depth == 0,
        is_start(open, "w:p"),
        forall|k: int| 0 <= k <= inner.len() ==> paragraphs_level(#[trigger] inner.take(k)) >= 0,
        0 <= k <= inner.len(),
    ensures
        strip_state(before.push(open) + inner.take(k)) == (StripView {
            depth: 1 + paragraphs_level(inner.take(k)),
            para: seq![open] + inner.take(k),
            ..strip_state(before)
        }),
    decreases k,
{
    let a = before.push(open);
    lemma_strip_push(before, open);
    if k == 0 {
        assert(inner.take(0) =~= Seq::empty());
        assert(a + inner.take(0) =~= a);
        assert(seq![open] + inner.take(0) =~= seq![open]);
    } else {
        let last = inner.take(k - 1);
        let e = inner[k - 1];
        lemma_paragraph_upto(before, open, inner, k - 1);
        assert(inner.take(k) =~= last.push(e));
        assert(inner.take(k).drop_last() =~= last);
        assert(paragraphs_level(inner.take(k)) >= 0);
        assert(paragraphs_level(inner.take(k - 1)) >= 0);
        assert(a + inner.take(k) =~= (a + last).push(e));
        lemma_strip_push(a + last, e);
        assert((seq![open] + last).push(e) =~= seq![open] + inner.take(k));
    }
}

/// Each paragraph of a document is stripped by itself, with the paragraphs inside it, and
/// counted where it lost its bold; what stands outside of paragraphs stays.
pub proof fn law_paragraphs_are_stripped_in_place(
    before: Seq<Ev>,
    open: Ev,
    inner: Seq<Ev>,
    close: Ev,
    other: Ev,
)
    requires
        strip_state(before).depth == 0,
        is_start(open, "w:p"),
        paragraphs_level(inner) == 0,
        forall|k: int| 0 <= k <= inner.len() ==> paragraphs_level(#[trigger] inner.take(k)) >= 0,
        is_end(close, "w:p"),
        !is_start(other, "w:p"),
    ensures
        ({
            let s = strip_state(before);
            let para = seq![open] + inner + seq![close];
            let t = strip_state(before + para);
            &&& t.depth == 0
            &&& t.out == s.out + plain_paragraph(para)
            &&& is_all_bold(para) && unbold_state(para).removed > 0 ==> t.stripped == s.stripped + 1
            &&& !(is_all_bold(para) && unbold_state(para).removed > 0) ==> t.stripped == s.stripped
            &&& strip_state(before.push(other)).out == s.out.push(other)
            &&& strip_state(before.push(other)).depth == 0
            &&& strip_state(before.push(other)).stripped == s.stripped
        }),
{
    let para = seq![open] + inner + seq![close];
    lemma_paragraph_upto(before, open, inner, inner.len() as int);
    assert(inner.take(inner.len() as int) =~= inner);
    let a = before.push(open) + inner;
    lemma_strip_push(a, close);
    assert(before + para =~= a.push(close));
    assert((seq![open] + inner).push(close) =~= para);
    lemma_strip_push(before, other);
}

} // verus!
