//! What is seen of paragraphs, and which of them become headings.

use vstd::prelude::*;
use vstd::utf8::is_ascii_chars_encode_utf8;

use crate::bytes::lit;
use crate::heading_inference::{
    apply_state, apply_step, collect_event, collect_state, collect_step, heading_style_id, is_off,
    level_for, pstyle_to, CollectView, InferenceView, ScanView,
};
use crate::style_mapper::{is_open_tag, last_val, StyleIndexView};
use crate::text::utf8_text;
use crate::xml::{emitted, is_empty_tag, is_end, is_start, tag_attrs, tag_name, Ev, EventKind};

verus! {

// ---------------------------------------------------------------------------
// Application
// ---------------------------------------------------------------------------

/// Of the inferences for a paragraph the last counts, and a paragraph without one has no
/// level.
pub proof fn law_last_inference_counts(inferences: Seq<InferenceView>, index: int, k: int)
    requires
        0 <= k < inferences.len(),
        inferences[k].paragraph_index == index,
        forall|l: int|
            k < l < inferences.len() ==> (#[trigger] inferences[l]).paragraph_index != index,
    ensures
        level_for(inferences, index) == Some(inferences[k].heading_level),
    decreases inferences.len(),
{
    if k < inferences.len() - 1 {
        let init = inferences.drop_last();
        assert(inferences[inferences.len() - 1].paragraph_index != index);
        assert forall|l: int| k < l < init.len() implies (#[trigger] init[l]).paragraph_index
            != index by {
            assert(init[l] == inferences[l]);
        }
        law_last_inference_counts(init, index, k);
    }
}

/// A paragraph without an inference has no level.
pub proof fn law_no_inference(inferences: Seq<InferenceView>, index: int)
    requires
        forall|l: int|
            0 <= l < inferences.len() ==> (#[trigger] inferences[l]).paragraph_index != index,
    ensures
        level_for(inferences, index) is None,
    decreases inferences.len(),
{
    if inferences.len() > 0 {
        let init = inferences.drop_last();
        assert(inferences[inferences.len() - 1].paragraph_index != index);
        assert forall|l: int| 0 <= l < init.len() implies (#[trigger] init[l]).paragraph_index
            != index by {
            assert(init[l] == inferences[l]);
        }
        law_no_inference(init, index);
    }
}

proof fn lemma_apply_push(
    events: Seq<Ev>,
    inferences: Seq<InferenceView>,
    idx: StyleIndexView,
    e: Ev,
)
    ensures
        apply_state(events.push(e), inferences, idx) == apply_step(
            apply_state(events, inferences, idx),
            inferences,
            idx,
            e,
        ),
{
    assert(events.push(e).drop_last() =~= events);
}

proof fn lemma_style_names()
    ensures
        lit("w:p") != lit("w:body"),
        lit("w:p") != lit("w:pPr"),
        lit("w:p") != lit("w:pStyle"),
        lit("w:pPr") != lit("w:body"),
        lit("w:pPr") != lit("w:pStyle"),
        lit("w:pStyle") != lit("w:body"),
{
    reveal_strlit("w:p");
    reveal_strlit("w:body");
    reveal_strlit("w:pPr");
    reveal_strlit("w:pStyle");
    is_ascii_chars_encode_utf8("w:p"@);
    is_ascii_chars_encode_utf8("w:body"@);
    is_ascii_chars_encode_utf8("w:pPr"@);
    is_ascii_chars_encode_utf8("w:pStyle"@);
    assert(lit("w:p").len() == 3);
    assert(lit("w:body").len() == 6);
    assert(lit("w:pPr").len() == 5);
    assert(lit("w:pStyle").len() == 8);
}

/// The style reference of a body paragraph becomes that of the blueprint's heading of its
/// level, where there is an inference for the paragraph's place, and stays where there is
/// none.
pub proof fn law_headings_get_their_style(
    before: Seq<Ev>,
    inferences: Seq<InferenceView>,
    idx: StyleIndexView,
    p: Ev,
    ppr: Ev,
    style: Ev,
)
    requires
        apply_state(before, inferences, idx).in_body,
        apply_state(before, inferences, idx).depth == 0,
        is_start(p, "w:p"),
        is_start(ppr, "w:pPr"),
        is_empty_tag(style, "w:pStyle") || is_start(style, "w:pStyle"),
    ensures
        ({
            let a = apply_state(before, inferences, idx);
            let b = apply_state(before.push(p).push(ppr).push(style), inferences, idx);
            let head = a.out + emitted(p) + emitted(ppr);
            &&& level_for(inferences, a.opened) matches Some(level) ==> b.out == head + emitted(
                Ev { kind: style.kind, raw: pstyle_to(heading_style_id(idx, level as u8)) },
            ) && b.rewritten == a.rewritten + 1
            &&& level_for(inferences, a.opened) is None ==> b.out == head + emitted(style)
                && b.rewritten == a.rewritten
        }),
{
    lemma_style_names();
    lemma_apply_push(before, inferences, idx, p);
    lemma_apply_push(before.push(p), inferences, idx, ppr);
    lemma_apply_push(before.push(p).push(ppr), inferences, idx, style);
    let a = apply_state(before, inferences, idx);
    let b = apply_state(before.push(p), inferences, idx);
    assert(b.in_p && b.depth == 1 && b.opened == a.opened + 1);
    let c = apply_state(before.push(p).push(ppr), inferences, idx);
    assert(c.in_p && c.depth == 2 && c.opened == a.opened + 1);
}

/// What is no style reference stays as it is.
pub proof fn law_only_style_references_change(
    before: Seq<Ev>,
    inferences: Seq<InferenceView>,
    idx: StyleIndexView,
    e: Ev,
)
    requires
        !is_open_tag(e, "w:pStyle"),
    ensures
        ({
            let a = apply_state(before, inferences, idx);
            let b = apply_state(before.push(e), inferences, idx);
            b.out == a.out + emitted(e) && b.rewritten == a.rewritten
        }),
{
    lemma_apply_push(before, inferences, idx, e);
}

proof fn lemma_collect_push(events: Seq<Ev>, e: Ev)
    ensures
        collect_state(events.push(e)) == collect_step(collect_state(events), e),
{
    assert(events.push(e).drop_last() =~= events);
}

/// A paragraph that is open has not been left by other tags than its own.
pub open spec fn is_nested(events: Seq<Ev>) -> bool {
    forall|i: int|
        #![trigger events.take(i)]
        0 <= i <= events.len() && collect_state(events.take(i)).in_p ==> collect_state(
            events.take(i),
        ).depth >= 1
}

proof fn lemma_counted(
    events: Seq<Ev>,
    n: int,
    inferences: Seq<InferenceView>,
    idx: StyleIndexView,
)
    requires
        is_nested(events),
        0 <= n <= events.len(),
    ensures
        ({
            let c = collect_state(events.take(n));
            let a = apply_state(events.take(n), inferences, idx);
            &&& a.in_body == c.in_body
            &&& a.depth == c.depth
            &&& a.in_p == c.in_p
            &&& a.opened == c.done.len() + (if c.in_p {
                1int
            } else {
                0
            })
        }),
    decreases n,
{
    if n == 0 {
        assert(events.take(0) =~= Seq::empty());
    } else {
        lemma_counted(events, n - 1, inferences, idx);
        let before = events.take(n - 1);
        let e = events[n - 1];
        assert(events.take(n) =~= before.push(e));
        lemma_collect_push(before, e);
        lemma_apply_push(before, inferences, idx, e);
        reveal(collect_event);
        lemma_style_names();
        assert(collect_state(before).in_p ==> collect_state(before).depth >= 1);
        assert(collect_state(events.take(n)).in_p ==> collect_state(events.take(n)).depth >= 1);
    }
}

/// Paragraphs are counted alike where they are looked at and where headings are applied: as
/// many have been opened as have been looked at.
pub proof fn law_paragraphs_are_counted_alike(
    events: Seq<Ev>,
    inferences: Seq<InferenceView>,
    idx: StyleIndexView,
)
    requires
        is_nested(events),
    ensures
        apply_state(events, inferences, idx).opened == collect_state(events).done.len() + (
        if collect_state(events).in_p {
            1int
        } else {
            0
        }),
{
    lemma_counted(events, events.len() as int, inferences, idx);
    assert(events.take(events.len() as int) =~= events);
}

// ---------------------------------------------------------------------------
// Looking at a paragraph
// ---------------------------------------------------------------------------

/// A run with properties and a text.
pub struct TextRun {
    pub open: Ev,
    pub rpr: Ev,
    pub props: Seq<Ev>,
    pub rpr_end: Ev,
    pub t: Ev,
    pub text: Ev,
    pub t_end: Ev,
    pub close: Ev,
}

/// The tags are those of a run, of its properties, which are empty tags, and of its text, which
/// is not empty.
pub open spec fn is_text_run(r: TextRun) -> bool {
    &&& is_start(r.open, "w:r")
    &&& is_start(r.rpr, "w:rPr")
    &&& forall|i: int| 0 <= i < r.props.len() ==> is_property(#[trigger] r.props[i])
    &&& is_end(r.rpr_end, "w:rPr")
    &&& is_start(r.t, "w:t")
    &&& r.text.kind == EventKind::Text
    &&& utf8_text(r.text.raw) is Some
    &&& utf8_text(r.text.raw)->0.len() > 0
    &&& is_end(r.t_end, "w:t")
    &&& is_end(r.close, "w:r")
}

/// An empty tag that is none of a paragraph, of run properties or of a style reference.
pub open spec fn is_property(e: Ev) -> bool {
    &&& e.kind == EventKind::Empty
    &&& tag_name(e) != lit("w:p")
    &&& tag_name(e) != lit("w:pStyle")
}

/// The events of a run.
pub open spec fn text_run_events(r: TextRun) -> Seq<Ev> {
    (seq![r.open, r.rpr] + r.props) + seq![r.rpr_end, r.t, r.text, r.t_end, r.close]
}

/// Some property is an empty `<w:b>` that is not switched off.
pub open spec fn is_bold(props: Seq<Ev>) -> bool {
    exists|i: int|
        0 <= i < props.len() && tag_name(#[trigger] props[i]) == lit("w:b") && !is_off(props[i])
}

/// The size that the last `<w:sz>` of the properties gives.
pub open spec fn size_of(props: Seq<Ev>) -> Option<Seq<char>>
    decreases props.len(),
{
    if props.len() == 0 {
        None
    } else if tag_name(props.last()) == lit("w:sz") {
        last_val(tag_attrs(props.last(), true))
    } else {
        size_of(props.drop_last())
    }
}

proof fn lemma_scan_names()
    ensures
        lit("w:r") != lit("w:body"),
        lit("w:r") != lit("w:p"),
        lit("w:r") != lit("w:pPr"),
        lit("w:r") != lit("w:pStyle"),
        lit("w:r") != lit("w:rPr"),
        lit("w:r") != lit("w:t"),
        lit("w:rPr") != lit("w:body"),
        lit("w:rPr") != lit("w:p"),
        lit("w:rPr") != lit("w:pPr"),
        lit("w:rPr") != lit("w:pStyle"),
        lit("w:rPr") != lit("w:t"),
        lit("w:t") != lit("w:body"),
        lit("w:t") != lit("w:p"),
        lit("w:t") != lit("w:pPr"),
        lit("w:t") != lit("w:pStyle"),
        lit("w:b") != lit("w:sz"),
        lit("w:p") != lit("w:body"),
{
    reveal_strlit("w:r");
    reveal_strlit("w:body");
    reveal_strlit("w:p");
    reveal_strlit("w:pPr");
    reveal_strlit("w:pStyle");
    reveal_strlit("w:rPr");
    reveal_strlit("w:t");
    reveal_strlit("w:b");
    reveal_strlit("w:sz");
    is_ascii_chars_encode_utf8("w:r"@);
    is_ascii_chars_encode_utf8("w:body"@);
    is_ascii_chars_encode_utf8("w:p"@);
    is_ascii_chars_encode_utf8("w:pPr"@);
    is_ascii_chars_encode_utf8("w:pStyle"@);
    is_ascii_chars_encode_utf8("w:rPr"@);
    is_ascii_chars_encode_utf8("w:t"@);
    is_ascii_chars_encode_utf8("w:b"@);
    is_ascii_chars_encode_utf8("w:sz"@);
    assert(lit("w:r")[2] != lit("w:p")[2]);
    assert(lit("w:r")[2] != lit("w:t")[2]);
    assert(lit("w:p")[2] != lit("w:t")[2]);
    assert(lit("w:rPr")[2] != lit("w:pPr")[2]);
    assert(lit("w:r").len() == 3 && lit("w:p").len() == 3 && lit("w:t").len() == 3);
    assert(lit("w:body").len() == 6 && lit("w:pPr").len() == 5 && lit("w:rPr").len() == 5);
    assert(lit("w:pStyle").len() == 8 && lit("w:b").len() == 3 && lit("w:sz").len() == 4);
}

/// Inside a body paragraph, outside its properties and its runs.
spec fn is_between_runs(s: CollectView) -> bool {
    &&& s.in_body
    &&& s.in_p
    &&& s.depth == 1
    &&& !s.in_ppr
    &&& !s.in_ppr_rpr
    &&& !s.in_run
    &&& !s.in_run_rpr
}

proof fn lemma_scan_props(before: Seq<Ev>, props: Seq<Ev>)
    requires
        forall|i: int| 0 <= i < props.len() ==> is_property(#[trigger] props[i]),
        collect_state(before).in_body,
        collect_state(before).in_p,
        collect_state(before).depth == 3,
        !collect_state(before).in_ppr,
        !collect_state(before).in_ppr_rpr,
        collect_state(before).in_run,
        collect_state(before).in_run_rpr,
        !collect_state(before).run_bold,
        collect_state(before).run_size is None,
    ensures
        collect_state(before + props) == (CollectView {
            run_bold: is_bold(props),
            run_size: size_of(props),
            ..collect_state(before)
        }),
    decreases props.len(),
{
    if props.len() == 0 {
        assert(before + props =~= before);
    } else {
        let init = props.drop_last();
        let e = props.last();
        assert forall|i: int| 0 <= i < init.len() implies is_property(#[trigger] init[i]) by {
            assert(init[i] == props[i]);
        }
        assert(is_property(props[props.len() - 1]));
        lemma_scan_props(before, init);
        assert(before + props =~= (before + init).push(e));
        lemma_collect_push(before + init, e);
        reveal(collect_event);
        lemma_scan_names();
        if is_bold(init) {
            let i = choose|i: int|
                0 <= i < init.len() && tag_name(#[trigger] init[i]) == lit("w:b") && !is_off(
                    init[i],
                );
            assert(props[i] == init[i]);
        }
        if is_bold(props) && !is_bold(init) {
            let i = choose|i: int|
                0 <= i < props.len() && tag_name(#[trigger] props[i]) == lit("w:b") && !is_off(
                    props[i],
                );
            if i < init.len() {
                assert(init[i] == props[i]);
            }
        }
        if tag_name(e) == lit("w:b") && !is_off(e) {
            assert(is_bold(props)) by {
                assert(props[props.len() - 1] == e);
            }
        }
    }
}

#[verifier::rlimit(60)]
proof fn lemma_scan_run(before: Seq<Ev>, r: TextRun)
    requires
        is_text_run(r),
        is_between_runs(collect_state(before)),
    ensures
        ({
            let s = collect_state(before);
            let t = collect_state(before + text_run_events(r));
            &&& is_between_runs(t)
            &&& t.done == s.done
            &&& t.pstyle == s.pstyle
            &&& t.text == s.text + utf8_text(r.text.raw)->0
            &&& t.ppr_bold == s.ppr_bold
            &&& t.ppr_size == s.ppr_size
            &&& t.has_text_run
            &&& t.all_bold == (s.all_bold && is_bold(r.props))
            &&& t.run_sizes == (match size_of(r.props) {
                Some(z) => s.run_sizes.push(z),
                None => s.run_sizes,
            })
        }),
{
    lemma_scan_names();
    let a = before.push(r.open);
    let b = a.push(r.rpr);
    let c = b + r.props;
    let d = c.push(r.rpr_end);
    let e = d.push(r.t);
    let f = e.push(r.text);
    let g = f.push(r.t_end);
    let h = g.push(r.close);
    assert(before + text_run_events(r) =~= h);
    lemma_collect_push(before, r.open);
    lemma_collect_push(a, r.rpr);
    lemma_collect_push(c, r.rpr_end);
    lemma_collect_push(d, r.t);
    lemma_collect_push(e, r.text);
    lemma_collect_push(f, r.t_end);
    lemma_collect_push(g, r.close);
    let s = collect_state(before);
    let sa = collect_state(a);
    assert(sa == (CollectView {
        in_run: true,
        run_bold: false,
        run_size: None,
        run_has_text: false,
        depth: 2,
        ..s
    })) by {
        reveal(collect_event);
    }
    let sb = collect_state(b);
    assert(sb == (CollectView { in_run_rpr: true, depth: 3, ..sa })) by {
        reveal(collect_event);
    }
    lemma_scan_props(b, r.props);
    let sc = collect_state(c);
    let sd = collect_state(d);
    assert(sd == (CollectView { in_run_rpr: false, depth: 2, ..sc })) by {
        reveal(collect_event);
    }
    let se = collect_state(e);
    assert(se == (CollectView { depth: 3, ..sd })) by {
        reveal(collect_event);
    }
    let sf = collect_state(f);
    assert(sf == (CollectView {
        run_has_text: true,
        text: se.text + utf8_text(r.text.raw)->0,
        ..se
    })) by {
        reveal(collect_event);
    }
    let sg = collect_state(g);
    assert(sg == (CollectView { depth: 2, ..sf })) by {
        reveal(collect_event);
    }
    let sh = collect_state(h);
    assert(sh == (CollectView {
        in_run: false,
        in_run_rpr: false,
        has_text_run: true,
        all_bold: sg.all_bold && sg.run_bold,
        run_sizes: match sg.run_size {
            Some(z) => sg.run_sizes.push(z),
            None => sg.run_sizes,
        },
        depth: 1,
        ..sg
    })) by {
        reveal(collect_event);
    }
}

/// The events of the first `n` runs.
pub open spec fn text_runs_events(runs: Seq<TextRun>, n: int) -> Seq<Ev>
    decreases n,
{
    if n <= 0 {
        Seq::empty()
    } else {
        text_runs_events(runs, n - 1) + text_run_events(runs[n - 1])
    }
}

/// The text of the first `n` runs.
pub open spec fn text_of_runs(runs: Seq<TextRun>, n: int) -> Seq<char>
    decreases n,
{
    if n <= 0 {
        Seq::empty()
    } else {
        text_of_runs(runs, n - 1) + utf8_text(runs[n - 1].text.raw)->0
    }
}

/// The sizes that the first `n` runs give.
pub open spec fn sizes_of_runs(runs: Seq<TextRun>, n: int) -> Seq<Seq<char>>
    decreases n,
{
    if n <= 0 {
        Seq::empty()
    } else {
        match size_of(runs[n - 1].props) {
            Some(z) => sizes_of_runs(runs, n - 1).push(z),
            None => sizes_of_runs(runs, n - 1),
        }
    }
}

proof fn lemma_scan_runs(before: Seq<Ev>, runs: Seq<TextRun>, n: int)
    requires
        0 <= n <= runs.len(),
        forall|i: int| 0 <= i < runs.len() ==> is_text_run(#[trigger] runs[i]),
        is_between_runs(collect_state(before)),
        collect_state(before).text.len() == 0,
        collect_state(before).run_sizes.len() == 0,
        collect_state(before).all_bold,
        !collect_state(before).has_text_run,
    ensures
        ({
            let s = collect_state(before);
            let t = collect_state(before + text_runs_events(runs, n));
            &&& is_between_runs(t)
            &&& t.done == s.done
            &&& t.pstyle == s.pstyle
            &&& t.text == text_of_runs(runs, n)
            &&& t.ppr_bold == s.ppr_bold
            &&& t.ppr_size == s.ppr_size
            &&& t.has_text_run == (n > 0)
            &&& t.all_bold == (forall|i: int|
                0 <= i < n ==> is_bold((#[trigger] runs[i]).props))
            &&& t.run_sizes == sizes_of_runs(runs, n)
        }),
    decreases n,
{
    if n == 0 {
        assert(before + text_runs_events(runs, 0) =~= before);
        assert(collect_state(before).text =~= text_of_runs(runs, 0));
        assert(collect_state(before).run_sizes =~= sizes_of_runs(runs, 0));
    } else {
        lemma_scan_runs(before, runs, n - 1);
        lemma_scan_run(before + text_runs_events(runs, n - 1), runs[n - 1]);
        assert(before + text_runs_events(runs, n) =~= before + text_runs_events(runs, n - 1)
            + text_run_events(runs[n - 1]));
    }
}

/// What is seen of a body paragraph: the text of its runs, whether it has any and all of them
/// are bold, and the sizes that they give.
pub proof fn law_paragraphs_are_looked_at(before: Seq<Ev>, p: Ev, runs: Seq<TextRun>, p_end: Ev)
    requires
        collect_state(before).in_body,
        collect_state(before).depth == 0,
        is_start(p, "w:p"),
        forall|i: int| 0 <= i < runs.len() ==> is_text_run(#[trigger] runs[i]),
        is_end(p_end, "w:p"),
    ensures
        ({
            let n = runs.len() as int;
            let all = (before.push(p) + text_runs_events(runs, n)).push(p_end);
            collect_state(all).done == collect_state(before).done.push(
                ScanView {
                    pstyle: None,
                    text: text_of_runs(runs, n),
                    effective_bold: n > 0 && forall|i: int|
                        0 <= i < n ==> is_bold((#[trigger] runs[i]).props),
                    run_sizes: sizes_of_runs(runs, n),
                    ppr_size: None,
                },
            )
        }),
{
    lemma_scan_names();
    let n = runs.len() as int;
    let a = before.push(p);
    lemma_collect_push(before, p);
    assert(is_between_runs(collect_state(a)) && collect_state(a).text.len() == 0 && collect_state(
        a,
    ).run_sizes.len() == 0 && collect_state(a).all_bold && !collect_state(a).has_text_run
        && collect_state(a).pstyle is None && !collect_state(a).ppr_bold && collect_state(
        a,
    ).ppr_size is None && collect_state(a).done == collect_state(before).done) by {
        reveal(collect_event);
    }
    lemma_scan_runs(a, runs, n);
    let b = a + text_runs_events(runs, n);
    lemma_collect_push(b, p_end);
    reveal(collect_event);
}

} // verus!
