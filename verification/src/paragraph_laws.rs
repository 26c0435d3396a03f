//! Paragraphs that are written are read back.

use vstd::prelude::*;
use vstd::utf8::*;

use crate::bytes::lit;
use crate::error::Error;
use crate::ns::PART_DOCUMENT;
use crate::package::{lemma_with_part, part, Parts};
use crate::paragraph_runs::{
    blank_paragraph, blank_run, escaped_events, extract_fresh, extract_in_run,
    extract_inside, extract_state, extract_step, extracted, joined_bytes, lemma_run_tags,
    lemma_text_block, lemma_text_element, optional, paragraph_bytes, paragraphs_extracted,
    paragraphs_replaced, paragraphs_view, replace_state, replace_step, run_bytes,
    run_reads_back, runs_bytes, runs_read_back, text_events, ExtractView, ParagraphInfo,
    ParagraphView, ReplaceView, RunView,
};
use crate::wellformed::{
    count_name, depth_after, ends_in_text, is_block, is_element, is_token, is_whole,
    lemma_append_block, lemma_blocks, lemma_count_name, lemma_emitted_concat, lemma_emitted_one,
    lemma_emitted_push, lemma_enclose, lemma_inner_names, lemma_next, lemma_no_block,
    lemma_opened, lemma_part_next, lemma_part_start, lemma_push, lemma_push_block, lemma_spans,
    lemma_whole_block, open_names, opened, paragraph_end, paragraphs_open, part_of_element, spans,
    starts_with_mark, tag, well_formed,
};
use crate::xml::{
    emitted, emitted_all, is_empty_tag, is_end, is_start, reads_back, xml_events,
    xml_readable, Ev, EventKind,
};

verus! {

// ---------------------------------------------------------------------------
// Paragraphs as events
// ---------------------------------------------------------------------------

/// The events that the bytes in a run stand for.
pub struct RunEvents {
    pub rpr: Seq<Ev>,
    pub refs: Seq<Ev>,
}

/// The events that the bytes in a paragraph stand for.
pub struct ParagraphEvents {
    pub ppr: Seq<Ev>,
    pub leading: Seq<Ev>,
    pub runs: Seq<RunEvents>,
    pub trailing: Seq<Ev>,
}

/// The bytes, where there are any, are those of one element with the given name or of an
/// empty tag.
pub open spec fn element_or_none(bytes: Option<Seq<u8>>, events: Seq<Ev>, name: &str) -> bool {
    match bytes {
        None => events.len() == 0,
        Some(b) => is_whole(events, name) && b == emitted_all(events),
    }
}

/// The byte strings are those of empty tags.
pub open spec fn tags_of(bytes: Seq<Seq<u8>>, events: Seq<Ev>) -> bool {
    &&& bytes.len() == events.len()
    &&& forall|i: int|
        0 <= i < events.len() ==> bytes[i] == emitted(#[trigger] events[i]) && events[i].kind
            == EventKind::Empty && is_token(events[i])
}

/// Every tag is an empty tag with the given name.
pub open spec fn all_named(events: Seq<Ev>, name: &str) -> bool {
    forall|i: int| 0 <= i < events.len() ==> is_empty_tag(#[trigger] events[i], name)
}

/// Every tag is a bookmark.
pub open spec fn all_bookmarks(events: Seq<Ev>) -> bool {
    forall|i: int|
        0 <= i < events.len() ==> is_empty_tag(#[trigger] events[i], "w:bookmarkStart")
            || is_empty_tag(events[i], "w:bookmarkEnd")
}

/// The bytes in the run stand for the events.
pub open spec fn run_written(r: RunView, x: RunEvents) -> bool {
    &&& element_or_none(r.rpr_xml, x.rpr, "w:rPr")
    &&& tags_of(r.footnote_refs, x.refs)
    &&& all_named(x.refs, "w:footnoteReference")
}

/// The bytes in the paragraph stand for the events.
pub open spec fn paragraph_written(p: ParagraphView, x: ParagraphEvents) -> bool {
    &&& element_or_none(p.ppr_xml, x.ppr, "w:pPr")
    &&& tags_of(p.leading_bookmark_starts, x.leading)
    &&& all_named(x.leading, "w:bookmarkStart")
    &&& tags_of(p.trailing_bookmark_ends, x.trailing)
    &&& all_bookmarks(x.trailing)
    &&& p.runs.len() == 0 ==> all_named(x.trailing, "w:bookmarkEnd")
    &&& p.runs.len() == x.runs.len()
    &&& forall|i: int| 0 <= i < p.runs.len() ==> run_written(#[trigger] p.runs[i], x.runs[i])
}

/// A paragraph such as extraction gives: its properties and those of its runs are whole
/// elements, and its references and bookmarks are tags of that name.
pub open spec fn is_written(p: ParagraphView) -> bool {
    exists|x: ParagraphEvents| paragraph_written(p, x)
}

/// The text element of a run that has text.
pub open spec fn run_text_events(text: Seq<char>) -> Seq<Ev> {
    if text.len() == 0 {
        Seq::empty()
    } else {
        text_events(text)
    }
}

/// The events of a run.
pub open spec fn run_events(r: RunView, x: RunEvents) -> Seq<Ev> {
    seq![tag(EventKind::Start, "w:r")] + (x.rpr + run_text_events(r.text) + x.refs) + seq![
        tag(EventKind::End, "w:r"),
    ]
}

/// The events of several runs.
pub open spec fn runs_events(runs: Seq<RunView>, xs: Seq<RunEvents>) -> Seq<Ev>
    decreases runs.len(),
{
    if runs.len() == 0 {
        Seq::empty()
    } else {
        runs_events(runs.drop_last(), xs.drop_last()) + run_events(runs.last(), xs.last())
    }
}

/// The events between `<w:p>` and `</w:p>`.
pub open spec fn paragraph_events(p: ParagraphView, x: ParagraphEvents) -> Seq<Ev> {
    x.leading + x.ppr + runs_events(p.runs, x.runs) + x.trailing
}

// ---------------------------------------------------------------------------
// Writing
// ---------------------------------------------------------------------------

proof fn lemma_tags_bytes(bytes: Seq<Seq<u8>>, events: Seq<Ev>)
    requires
        tags_of(bytes, events),
    ensures
        joined_bytes(bytes) == emitted_all(events),
        is_block(events),
    decreases events.len(),
{
    if events.len() == 0 {
        lemma_no_block();
        assert(events =~= Seq::empty());
        assert(joined_bytes(bytes) =~= emitted_all(events));
    } else {
        let init = events.drop_last();
        assert forall|i: int| 0 <= i < init.len() implies bytes.drop_last()[i] == emitted(
            #[trigger] init[i],
        ) && init[i].kind == EventKind::Empty && is_token(init[i]) by {
            assert(init[i] == events[i]);
        }
        lemma_tags_bytes(bytes.drop_last(), init);
        let e = events[events.len() - 1];
        assert(bytes.last() == emitted(e));
        lemma_push_block(init, e);
        assert(init.push(e) =~= events);
    }
}

proof fn lemma_run_bytes(r: RunView, x: RunEvents)
    requires
        run_written(r, x),
    ensures
        emitted_all(run_events(r, x)) == run_bytes(r),
        is_block(run_events(r, x)),
{
    let open = tag(EventKind::Start, "w:r");
    let close = tag(EventKind::End, "w:r");
    let text = run_text_events(r.text);
    let inner = x.rpr + text + x.refs;
    lemma_tags_bytes(r.footnote_refs, x.refs);
    lemma_no_block();
    if r.rpr_xml is None {
        assert(x.rpr =~= Seq::empty());
    } else {
        lemma_whole_block(x.rpr, "w:rPr");
    }
    lemma_text_block(r.text);
    lemma_text_element(r.text);
    lemma_blocks(x.rpr, text);
    lemma_blocks(x.rpr + text, x.refs);
    lemma_run_tags();
    lemma_enclose(open, inner, close);
    lemma_emitted_concat(seq![open] + inner, seq![close]);
    lemma_emitted_concat(seq![open], inner);
    lemma_emitted_concat(x.rpr + text, x.refs);
    lemma_emitted_concat(x.rpr, text);
    lemma_emitted_one(open);
    lemma_emitted_one(close);
    reveal_strlit("<");
    reveal_strlit("</");
    reveal_strlit(">");
    reveal_strlit("w:r");
    reveal_strlit("<w:r>");
    reveal_strlit("</w:r>");
    is_ascii_chars_encode_utf8("<"@);
    is_ascii_chars_encode_utf8("</"@);
    is_ascii_chars_encode_utf8(">"@);
    is_ascii_chars_encode_utf8("w:r"@);
    is_ascii_chars_encode_utf8("<w:r>"@);
    is_ascii_chars_encode_utf8("</w:r>"@);
    assert(emitted(open) =~= lit("<w:r>"));
    assert(emitted(close) =~= lit("</w:r>"));
    assert(emitted_all(x.rpr) =~= optional(r.rpr_xml));
    assert(emitted_all(run_events(r, x)) =~= run_bytes(r));
}

proof fn lemma_runs_bytes(runs: Seq<RunView>, xs: Seq<RunEvents>)
    requires
        runs.len() == xs.len(),
        forall|i: int| 0 <= i < runs.len() ==> run_written(#[trigger] runs[i], xs[i]),
    ensures
        emitted_all(runs_events(runs, xs)) == runs_bytes(runs),
        is_block(runs_events(runs, xs)),
    decreases runs.len(),
{
    if runs.len() == 0 {
        lemma_no_block();
    } else {
        let init = runs.drop_last();
        assert forall|i: int| 0 <= i < init.len() implies run_written(
            #[trigger] init[i],
            xs.drop_last()[i],
        ) by {
            assert(init[i] == runs[i]);
        }
        lemma_runs_bytes(init, xs.drop_last());
        assert(run_written(runs[runs.len() - 1], xs[runs.len() - 1]));
        lemma_run_bytes(runs.last(), xs.last());
        let a = runs_events(init, xs.drop_last());
        let b = run_events(runs.last(), xs.last());
        lemma_emitted_concat(a, b);
        lemma_blocks(a, b);
    }
}

/// The events of a paragraph are written as its bytes, and are whole elements.
proof fn lemma_paragraph_bytes(p: ParagraphView, x: ParagraphEvents)
    requires
        paragraph_written(p, x),
    ensures
        emitted_all(paragraph_events(p, x)) == paragraph_bytes(p),
        is_block(paragraph_events(p, x)),
{
    let runs = runs_events(p.runs, x.runs);
    lemma_no_block();
    if p.ppr_xml is None {
        assert(x.ppr =~= Seq::empty());
    } else {
        lemma_whole_block(x.ppr, "w:pPr");
    }
    lemma_tags_bytes(p.leading_bookmark_starts, x.leading);
    lemma_tags_bytes(p.trailing_bookmark_ends, x.trailing);
    lemma_runs_bytes(p.runs, x.runs);
    lemma_blocks(x.leading, x.ppr);
    lemma_blocks(x.leading + x.ppr, runs);
    lemma_blocks(x.leading + x.ppr + runs, x.trailing);
    lemma_emitted_concat(x.leading, x.ppr);
    lemma_emitted_concat(x.leading + x.ppr, runs);
    lemma_emitted_concat(x.leading + x.ppr + runs, x.trailing);
    assert(emitted_all(x.ppr) =~= optional(p.ppr_xml));
    assert(emitted_all(paragraph_events(p, x)) =~= paragraph_bytes(p));
}

// ---------------------------------------------------------------------------
// Reading a paragraph back
// ---------------------------------------------------------------------------

proof fn lemma_extract_push(events: Seq<Ev>, e: Ev)
    ensures
        extract_state(events.push(e)) == extract_step(extract_state(events), e),
{
    assert(events.push(e).drop_last() =~= events);
}

proof fn lemma_names()
    ensures
        lit("w:p") != lit("w:r"),
        lit("w:p") != lit("w:t"),
        lit("w:p") != lit("w:pPr"),
        lit("w:p") != lit("w:rPr"),
        lit("w:r") != lit("w:t"),
        lit("w:r") != lit("w:pPr"),
        lit("w:t") != lit("w:rPr"),
        lit("w:tab") != lit("w:rPr"),
        lit("w:br") != lit("w:rPr"),
        lit("w:footnoteReference") != lit("w:rPr"),
        lit("w:bookmarkStart") != lit("w:pPr"),
        lit("w:bookmarkEnd") != lit("w:pPr"),
        lit("w:bookmarkStart") != lit("w:bookmarkEnd"),
        lit("w:footnoteReference") != lit("w:tab"),
        lit("w:footnoteReference") != lit("w:br"),
{
    reveal_strlit("w:p");
    reveal_strlit("w:r");
    reveal_strlit("w:t");
    reveal_strlit("w:pPr");
    reveal_strlit("w:rPr");
    reveal_strlit("w:tab");
    reveal_strlit("w:br");
    reveal_strlit("w:footnoteReference");
    reveal_strlit("w:bookmarkStart");
    reveal_strlit("w:bookmarkEnd");
    is_ascii_chars_encode_utf8("w:p"@);
    is_ascii_chars_encode_utf8("w:r"@);
    is_ascii_chars_encode_utf8("w:t"@);
    is_ascii_chars_encode_utf8("w:pPr"@);
    is_ascii_chars_encode_utf8("w:rPr"@);
    is_ascii_chars_encode_utf8("w:tab"@);
    is_ascii_chars_encode_utf8("w:br"@);
    is_ascii_chars_encode_utf8("w:footnoteReference"@);
    is_ascii_chars_encode_utf8("w:bookmarkStart"@);
    is_ascii_chars_encode_utf8("w:bookmarkEnd"@);
    assert(lit("w:p")[2] != lit("w:r")[2]);
    assert(lit("w:p")[2] != lit("w:t")[2]);
    assert(lit("w:r")[2] != lit("w:t")[2]);
    assert(lit("w:tab")[2] != lit("w:rPr")[2]);
}

/// The properties of a paragraph are read as they were written.
proof fn lemma_read_ppr(
    events: Seq<Ev>,
    done: Seq<ParagraphView>,
    p: ParagraphView,
    element: Seq<Ev>,
    i: int,
)
    requires
        is_element(element, "w:pPr"),
        extract_state(events) == extract_fresh(done, Some(p)),
        0 < i <= element.len(),
    ensures
        i < element.len() ==> extract_state(events + element.take(i)) == (ExtractView {
            nested: count_name(open_names(element.take(i))->0, lit("w:p")),
            ppr_depth: open_names(element.take(i))->0.len() as int,
            ppr: emitted_all(element.take(i)),
            ..extract_fresh(done, Some(p))
        }),
        i == element.len() ==> extract_state(events + element) == extract_fresh(
            done,
            Some(ParagraphView { ppr_xml: Some(emitted_all(element)), ..p }),
        ),
    decreases i,
{
    lemma_names();
    let fresh = extract_fresh(done, Some(p));
    if i == 1 {
        let e = element[0];
        lemma_next(element, 0);
        assert(element.take(0) =~= Seq::empty());
        assert(element.take(1) =~= seq![e]);
        assert(events + element.take(1) =~= events.push(e));
        lemma_extract_push(events, e);
        lemma_emitted_one(e);
        let names = open_names(element.take(1))->0;
        assert(names =~= seq![lit("w:pPr")]);
        assert(names.drop_last() =~= Seq::empty());
        reveal_with_fuel(count_name, 2);
    } else {
        lemma_read_ppr(events, done, p, element, i - 1);
        lemma_inner_names(element, "w:pPr", i - 1);
        let e = element[i - 1];
        let before = events + element.take(i - 1);
        assert(events + element.take(i) =~= before.push(e));
        lemma_extract_push(before, e);
        assert(element.take(i) =~= element.take(i - 1).push(e));
        lemma_emitted_push(element.take(i - 1), e);
        if i == element.len() {
            assert(element.take(i) =~= element);
        }
    }
}

/// The properties of a run are read as they were written.
proof fn lemma_read_rpr(events: Seq<Ev>, s: ExtractView, element: Seq<Ev>, i: int)
    requires
        is_element(element, "w:rPr"),
        extract_state(events) == s,
        s.paragraph is Some,
        s.nested == 0,
        s.ppr_depth == 0,
        s.in_run,
        s.run_depth == 1,
        s.rpr_depth == 0,
        s.rpr == Seq::<u8>::empty(),
        0 < i <= element.len(),
    ensures
        i < element.len() ==> extract_state(events + element.take(i)) == (ExtractView {
            nested: count_name(open_names(element.take(i))->0, lit("w:p")),
            rpr_depth: open_names(element.take(i))->0.len() as int,
            rpr: emitted_all(element.take(i)),
            ..s
        }),
        i == element.len() ==> extract_state(events + element) == (ExtractView {
            run: RunView { rpr_xml: Some(emitted_all(element)), ..s.run },
            ..s
        }),
    decreases i,
{
    lemma_names();
    if i == 1 {
        let e = element[0];
        lemma_next(element, 0);
        assert(element.take(0) =~= Seq::empty());
        assert(element.take(1) =~= seq![e]);
        assert(events + element.take(1) =~= events.push(e));
        lemma_extract_push(events, e);
        lemma_emitted_one(e);
        let names = open_names(element.take(1))->0;
        assert(names =~= seq![lit("w:rPr")]);
        assert(names.drop_last() =~= Seq::empty());
        reveal_with_fuel(count_name, 2);
    } else {
        lemma_read_rpr(events, s, element, i - 1);
        lemma_inner_names(element, "w:rPr", i - 1);
        let e = element[i - 1];
        let before = events + element.take(i - 1);
        assert(events + element.take(i) =~= before.push(e));
        lemma_extract_push(before, e);
        assert(element.take(i) =~= element.take(i - 1).push(e));
        lemma_emitted_push(element.take(i - 1), e);
        if i == element.len() {
            assert(element.take(i) =~= element);
        }
    }
}

/// The references of a run are read as they were written.
proof fn lemma_read_refs(events: Seq<Ev>, s: ExtractView, bytes: Seq<Seq<u8>>, refs: Seq<Ev>, i: int)
    requires
        tags_of(bytes, refs),
        all_named(refs, "w:footnoteReference"),
        extract_state(events) == s,
        s.paragraph is Some,
        s.ppr_depth == 0,
        s.in_run,
        s.rpr_depth == 0,
        s.run.footnote_refs == Seq::<Seq<u8>>::empty(),
        0 <= i <= refs.len(),
    ensures
        extract_state(events + refs.take(i)) == (ExtractView {
            run: RunView { footnote_refs: bytes.take(i), ..s.run },
            ..s
        }),
    decreases i,
{
    lemma_names();
    if i == 0 {
        assert(events + refs.take(0) =~= events);
        assert(bytes.take(0) =~= s.run.footnote_refs);
    } else {
        lemma_read_refs(events, s, bytes, refs, i - 1);
        let e = refs[i - 1];
        assert(is_empty_tag(e, "w:footnoteReference"));
        let before = events + refs.take(i - 1);
        assert(events + refs.take(i) =~= before.push(e));
        lemma_extract_push(before, e);
        assert(bytes.take(i) =~= bytes.take(i - 1).push(emitted(e)));
    }
}

/// A run is read as it was written.
proof fn lemma_read_run(
    events: Seq<Ev>,
    done: Seq<ParagraphView>,
    p: ParagraphView,
    r: RunView,
    x: RunEvents,
)
    requires
        run_written(r, x),
        run_reads_back(r),
        extract_state(events) == extract_fresh(done, Some(p)),
    ensures
        extract_state(events + run_events(r, x)) == extract_fresh(
            done,
            Some(ParagraphView { runs: p.runs.push(r), ..p }),
        ),
{
    lemma_names();
    lemma_run_tags();
    let fresh = extract_fresh(done, Some(p));
    let open = tag(EventKind::Start, "w:r");
    let close = tag(EventKind::End, "w:r");
    let a = events.push(open);
    lemma_extract_push(events, open);
    let s = ExtractView { in_run: true, run_depth: 1, ..fresh };
    assert(extract_state(a) == s);
    let b = a + x.rpr;
    let with_rpr = ExtractView { run: RunView { rpr_xml: r.rpr_xml, ..s.run }, ..s };
    if r.rpr_xml is None {
        assert(b =~= a);
    } else if is_element(x.rpr, "w:rPr") {
        lemma_read_rpr(a, s, x.rpr, x.rpr.len() as int);
    } else {
        assert(b =~= a.push(x.rpr[0]));
        assert(x.rpr =~= seq![x.rpr[0]]);
        lemma_emitted_one(x.rpr[0]);
        lemma_extract_push(a, x.rpr[0]);
    }
    assert(extract_state(b) == with_rpr);
    let c = b + run_text_events(r.text);
    let with_text = ExtractView { run: RunView { text: r.text, ..with_rpr.run }, ..with_rpr };
    if r.text.len() == 0 {
        assert(c =~= b);
        assert(r.text =~= with_rpr.run.text);
    } else {
        let open_text = tag(EventKind::Start, "w:t xml:space=\"preserve\"");
        let close_text = tag(EventKind::End, "w:t");
        let t = escaped_events(r.text)[0];
        lemma_extract_push(b, open_text);
        let d = b.push(open_text);
        lemma_extract_push(d, t);
        let f = d.push(t);
        assert(with_rpr.run.text + r.text =~= r.text);
        lemma_extract_push(f, close_text);
        assert(c =~= f.push(close_text));
    }
    assert(extract_state(c) == with_text);
    lemma_read_refs(c, with_text, r.footnote_refs, x.refs, x.refs.len() as int);
    assert(x.refs.take(x.refs.len() as int) =~= x.refs);
    assert(r.footnote_refs.take(x.refs.len() as int) =~= r.footnote_refs);
    let g = c + x.refs;
    assert(extract_state(g) == (ExtractView { run: r, ..s }));
    lemma_extract_push(g, close);
    assert(events + run_events(r, x) =~= g.push(close));
}

/// Runs are read as they were written.
proof fn lemma_read_runs(
    events: Seq<Ev>,
    done: Seq<ParagraphView>,
    p: ParagraphView,
    runs: Seq<RunView>,
    xs: Seq<RunEvents>,
)
    requires
        p.runs.len() == 0,
        runs.len() == xs.len(),
        forall|i: int| 0 <= i < runs.len() ==> run_written(#[trigger] runs[i], xs[i]),
        runs_read_back(runs),
        extract_state(events) == extract_fresh(done, Some(p)),
    ensures
        extract_state(events + runs_events(runs, xs)) == extract_fresh(
            done,
            Some(ParagraphView { runs, ..p }),
        ),
    decreases runs.len(),
{
    if runs.len() == 0 {
        assert(events + runs_events(runs, xs) =~= events);
        assert(runs =~= p.runs);
    } else {
        let init = runs.drop_last();
        let k = runs.len() - 1;
        assert forall|i: int| 0 <= i < init.len() implies run_written(
            #[trigger] init[i],
            xs.drop_last()[i],
        ) by {
            assert(init[i] == runs[i]);
        }
        assert forall|i: int| 0 <= i < init.len() implies run_reads_back(#[trigger] init[i]) by {
            assert(init[i] == runs[i]);
        }
        lemma_read_runs(events, done, p, init, xs.drop_last());
        assert(run_written(runs[k], xs[k]));
        assert(run_reads_back(runs[k]));
        let before = events + runs_events(init, xs.drop_last());
        let q = ParagraphView { runs: init, ..p };
        lemma_read_run(before, done, q, runs[k], xs[k]);
        assert(events + runs_events(runs, xs) =~= before + run_events(runs[k], xs[k]));
        assert(init.push(runs[k]) =~= runs);
    }
}

/// The bookmarks before the first run are read as they were written.
proof fn lemma_read_leading(
    events: Seq<Ev>,
    done: Seq<ParagraphView>,
    p: ParagraphView,
    bytes: Seq<Seq<u8>>,
    tags: Seq<Ev>,
    i: int,
)
    requires
        tags_of(bytes, tags),
        all_named(tags, "w:bookmarkStart"),
        p.runs.len() == 0,
        p.leading_bookmark_starts.len() == 0,
        extract_state(events) == extract_fresh(done, Some(p)),
        0 <= i <= tags.len(),
    ensures
        extract_state(events + tags.take(i)) == extract_fresh(
            done,
            Some(ParagraphView { leading_bookmark_starts: bytes.take(i), ..p }),
        ),
    decreases i,
{
    lemma_names();
    if i == 0 {
        assert(events + tags.take(0) =~= events);
        assert(bytes.take(0) =~= p.leading_bookmark_starts);
    } else {
        lemma_read_leading(events, done, p, bytes, tags, i - 1);
        let e = tags[i - 1];
        assert(is_empty_tag(e, "w:bookmarkStart"));
        let before = events + tags.take(i - 1);
        assert(events + tags.take(i) =~= before.push(e));
        lemma_extract_push(before, e);
        assert(bytes.take(i) =~= bytes.take(i - 1).push(emitted(e)));
    }
}

/// The bookmarks after that are read as they were written.
proof fn lemma_read_trailing(
    events: Seq<Ev>,
    done: Seq<ParagraphView>,
    p: ParagraphView,
    bytes: Seq<Seq<u8>>,
    tags: Seq<Ev>,
    i: int,
)
    requires
        tags_of(bytes, tags),
        all_bookmarks(tags),
        p.runs.len() == 0 ==> all_named(tags, "w:bookmarkEnd"),
        p.trailing_bookmark_ends.len() == 0,
        extract_state(events) == extract_fresh(done, Some(p)),
        0 <= i <= tags.len(),
    ensures
        extract_state(events + tags.take(i)) == extract_fresh(
            done,
            Some(ParagraphView { trailing_bookmark_ends: bytes.take(i), ..p }),
        ),
    decreases i,
{
    lemma_names();
    if i == 0 {
        assert(events + tags.take(0) =~= events);
        assert(bytes.take(0) =~= p.trailing_bookmark_ends);
    } else {
        lemma_read_trailing(events, done, p, bytes, tags, i - 1);
        let e = tags[i - 1];
        assert(p.runs.len() == 0 ==> is_empty_tag(e, "w:bookmarkEnd"));
        let before = events + tags.take(i - 1);
        assert(events + tags.take(i) =~= before.push(e));
        lemma_extract_push(before, e);
        assert(bytes.take(i) =~= bytes.take(i - 1).push(emitted(e)));
    }
}

/// A paragraph is read as it was written.
proof fn lemma_read_paragraph(
    events: Seq<Ev>,
    done: Seq<ParagraphView>,
    p: ParagraphView,
    x: ParagraphEvents,
)
    requires
        paragraph_written(p, x),
        runs_read_back(p.runs),
        extract_state(events) == extract_fresh(done, Some(blank_paragraph())),
    ensures
        extract_state(events + paragraph_events(p, x)) == extract_fresh(done, Some(p)),
{
    lemma_names();
    let blank = blank_paragraph();
    let n = x.leading.len() as int;
    lemma_read_leading(events, done, blank, p.leading_bookmark_starts, x.leading, n);
    assert(x.leading.take(n) =~= x.leading);
    assert(p.leading_bookmark_starts.take(n) =~= p.leading_bookmark_starts);
    let p1 = ParagraphView { leading_bookmark_starts: p.leading_bookmark_starts, ..blank };
    let a = events + x.leading;
    let b = a + x.ppr;
    if p.ppr_xml is None {
        assert(b =~= a);
    } else if is_element(x.ppr, "w:pPr") {
        lemma_read_ppr(a, done, p1, x.ppr, x.ppr.len() as int);
    } else {
        assert(b =~= a.push(x.ppr[0]));
        assert(x.ppr =~= seq![x.ppr[0]]);
        lemma_emitted_one(x.ppr[0]);
        lemma_extract_push(a, x.ppr[0]);
    }
    let p2 = ParagraphView { ppr_xml: p.ppr_xml, ..p1 };
    lemma_read_runs(b, done, p2, p.runs, x.runs);
    let p3 = ParagraphView { runs: p.runs, ..p2 };
    let c = b + runs_events(p.runs, x.runs);
    let m = x.trailing.len() as int;
    lemma_read_trailing(c, done, p3, p.trailing_bookmark_ends, x.trailing, m);
    assert(x.trailing.take(m) =~= x.trailing);
    assert(p.trailing_bookmark_ends.take(m) =~= p.trailing_bookmark_ends);
    assert(events + paragraph_events(p, x) =~= c + x.trailing);
}

// ---------------------------------------------------------------------------
// Reading a document back
// ---------------------------------------------------------------------------

/// The paragraphs once the first of them have been replaced.
pub open spec fn with_first(old: Seq<ParagraphView>, new: Seq<ParagraphView>) -> Seq<
    ParagraphView,
> {
    Seq::new(
        old.len(),
        |i: int|
            if i < new.len() {
                new[i]
            } else {
                old[i]
            },
    )
}

/// The events that a replacement writes.
spec fn written_out(events: Seq<Ev>, ps: Seq<ParagraphView>, xs: Seq<ParagraphEvents>) -> Seq<Ev>
    decreases events.len(),
{
    if events.len() == 0 {
        Seq::empty()
    } else {
        let e = events.last();
        let s = replace_state(events.drop_last(), ps);
        let out = written_out(events.drop_last(), ps, xs);
        if is_start(e, "w:p") && !s.in_paragraph {
            if s.index < ps.len() {
                out.push(e) + paragraph_events(ps[s.index], xs[s.index])
            } else {
                out.push(e)
            }
        } else if is_empty_tag(e, "w:p") && !s.in_paragraph && s.index < ps.len() {
            (out.push(opened(e)) + paragraph_events(ps[s.index], xs[s.index])).push(
                paragraph_end(),
            )
        } else if is_end(e, "w:p") && s.in_paragraph && s.nested == 0 {
            out.push(e)
        } else if s.dropping {
            out
        } else {
            out.push(e)
        }
    }
}

/// Each paragraph stands for its events.
spec fn all_written(ps: Seq<ParagraphView>, xs: Seq<ParagraphEvents>) -> bool {
    &&& ps.len() == xs.len()
    &&& forall|i: int| 0 <= i < ps.len() ==> paragraph_written(#[trigger] ps[i], xs[i])
}

/// How what has been written relates to what has been read.
spec fn in_form(out: Seq<Ev>, s: ReplaceView, before: Seq<Ev>) -> bool {
    let names = open_names(before)->0;
    let outer = open_names(out)->0;
    &&& well_formed(out)
    &&& s.out == emitted_all(out)
    &&& s.index >= 0
    &&& before.len() > 0 ==> out.len() > 0 && (out[0] == before[0] || out[0].kind
        != EventKind::Text)
    &&& if s.dropping {
        &&& s.in_paragraph
        &&& s.nested >= 0
        &&& !ends_in_text(out)
        &&& spans(names, outer, s.nested + 1)
        &&& before.len() > 0
    } else {
        outer == names && (ends_in_text(out) ==> ends_in_text(before))
    }
}

proof fn lemma_paragraph_start(
    out: Seq<Ev>,
    s: ReplaceView,
    before: Seq<Ev>,
    e: Ev,
    ps: Seq<ParagraphView>,
    xs: Seq<ParagraphEvents>,
)
    requires
        in_form(out, s, before),
        well_formed(before),
        well_formed(before.push(e)),
        before.len() == 0 ==> out.len() == 0,
        is_token(e),
        is_start(e, "w:p"),
        !s.in_paragraph,
        s.index < ps.len(),
        all_written(ps, xs),
    ensures
        in_form(
            out.push(e) + paragraph_events(ps[s.index], xs[s.index]),
            replace_step(s, ps, e),
            before.push(e),
        ),
{
    assert(paragraph_written(ps[s.index], xs[s.index]));
    let more = paragraph_events(ps[s.index], xs[s.index]);
    lemma_paragraph_bytes(ps[s.index], xs[s.index]);
    lemma_push(out, e);
    lemma_emitted_push(out, e);
    lemma_append_block(out.push(e), more);
    lemma_emitted_concat(out.push(e), more);
    let names = open_names(before.push(e))->0;
    assert(before.push(e).drop_last() =~= before);
    assert(names == open_names(before)->0.push(lit("w:p"))) by {
        reveal(well_formed);
    }
    let outer = open_names(out.push(e) + more)->0;
    assert(outer == names);
    assert(names.skip(names.len() as int) =~= Seq::empty());
    assert(names.take(names.len() as int) =~= names);
    if before.len() > 0 {
        assert((out.push(e) + more)[0] == out[0]);
        assert(before.push(e)[0] == before[0]);
    }
    if more.len() == 0 {
        assert(out.push(e) + more =~= out.push(e));
    }
}

/// An empty paragraph that has been replaced.
proof fn lemma_empty_paragraph(
    out: Seq<Ev>,
    s: ReplaceView,
    before: Seq<Ev>,
    e: Ev,
    ps: Seq<ParagraphView>,
    xs: Seq<ParagraphEvents>,
)
    requires
        in_form(out, s, before),
        !s.dropping,
        well_formed(before),
        well_formed(before.push(e)),
        before.len() == 0 ==> out.len() == 0,
        is_token(e),
        is_empty_tag(e, "w:p"),
        !s.in_paragraph,
        s.index < ps.len(),
        all_written(ps, xs),
    ensures
        in_form(
            (out.push(opened(e)) + paragraph_events(ps[s.index], xs[s.index])).push(
                paragraph_end(),
            ),
            replace_step(s, ps, e),
            before.push(e),
        ),
{
    assert(paragraph_written(ps[s.index], xs[s.index]));
    let more = paragraph_events(ps[s.index], xs[s.index]);
    lemma_paragraph_bytes(ps[s.index], xs[s.index]);
    lemma_opened(e);
    let start = opened(e);
    lemma_push(out, start);
    lemma_emitted_push(out, start);
    lemma_append_block(out.push(start), more);
    lemma_emitted_concat(out.push(start), more);
    let filled = out.push(start) + more;
    let whole = filled.push(paragraph_end());
    lemma_push(filled, paragraph_end());
    lemma_emitted_push(filled, paragraph_end());
    assert(open_names(out)->0.push(lit("w:p")).drop_last() =~= open_names(out)->0);
    reveal(well_formed);
    assert(before.push(e).drop_last() =~= before);
    assert(whole.last() == paragraph_end());
    if before.len() > 0 {
        assert(whole[0] == out[0]);
        assert(before.push(e)[0] == before[0]);
    } else {
        assert(whole[0] == start);
    }
}

/// The replacement keeps the form of a document.
proof fn lemma_form(
    events: Seq<Ev>,
    ps: Seq<ParagraphView>,
    xs: Seq<ParagraphEvents>,
    n: int,
)
    requires
        well_formed(events),
        all_written(ps, xs),
        0 <= n <= events.len(),
    ensures
        in_form(
            written_out(events.take(n), ps, xs),
            replace_state(events.take(n), ps),
            events.take(n),
        ),
    decreases n,
{
    let before = events.take(n);
    if n == 0 {
        lemma_no_block();
        assert(before =~= Seq::empty());
        assert(written_out(before, ps, xs) =~= Seq::empty());
    } else {
        let shorter = events.take(n - 1);
        lemma_form(events, ps, xs, n - 1);
        lemma_next(events, n - 1);
        let e = events[n - 1];
        assert(before.drop_last() =~= shorter);
        assert(before == shorter.push(e));
        let s = replace_state(shorter, ps);
        let out = written_out(shorter, ps, xs);
        let done = written_out(before, ps, xs);
        assert(replace_state(before, ps) == replace_step(s, ps, e));
        let names = open_names(shorter)->0;
        let outer = open_names(out)->0;
        if n == 1 {
            assert(shorter =~= Seq::empty());
            assert(out.len() == 0);
        } else {
            assert(before[0] == shorter[0]);
        }
        if is_start(e, "w:p") && !s.in_paragraph && s.index < ps.len() {
            lemma_paragraph_start(out, s, shorter, e, ps, xs);
        } else if is_empty_tag(e, "w:p") && !s.in_paragraph && s.index < ps.len() {
            lemma_empty_paragraph(out, s, shorter, e, ps, xs);
        } else if is_end(e, "w:p") && s.in_paragraph && s.nested == 0 && s.dropping {
            let rest = names.skip(outer.len() as int);
            if rest.len() > 0 {
                assert(rest.last() == names.last());
                lemma_count_name(rest.drop_last(), lit("w:p"));
            }
            assert(names =~= outer);
            lemma_push(out, e);
            lemma_emitted_push(out, e);
            assert(done[0] == out[0]);
        } else if s.dropping {
            lemma_spans(shorter, e, outer, s.nested + 1);
        } else {
            lemma_push(out, e);
            lemma_emitted_push(out, e);
            if n > 1 {
                assert(done[0] == out[0]);
            }
        }
    }
}

/// How many paragraphs have been started.
spec fn started(s: ReplaceView) -> int {
    s.index + if s.in_paragraph {
        1int
    } else {
        0int
    }
}

/// How the paragraphs of what has been written relate to those of what has been read.
spec fn in_step(out: Seq<Ev>, s: ReplaceView, before: Seq<Ev>, ps: Seq<ParagraphView>) -> bool {
    let old = extract_state(before);
    let new = extract_state(out);
    &&& old.paragraph is Some == s.in_paragraph
    &&& s.in_paragraph ==> old.nested == s.nested
    &&& old.done.len() == s.index
    &&& new.done == with_first(old.done, ps)
    &&& s.dropping ==> s.in_paragraph && s.index < ps.len()
    &&& if !s.in_paragraph {
        new.paragraph is None
    } else if s.dropping {
        new == extract_fresh(new.done, Some(ps[s.index]))
    } else {
        new == (ExtractView { done: new.done, ..old }) && s.index >= ps.len()
    }
}

/// An event inside a paragraph leaves what has been extracted before it.
proof fn lemma_done_apart(s: ExtractView, done: Seq<ParagraphView>, e: Ev)
    requires
        s.paragraph is Some,
        !(is_end(e, "w:p") && s.nested == 0),
    ensures
        extract_step(ExtractView { done, ..s }, e) == (ExtractView { done, ..extract_step(s, e) }),
        extract_step(s, e).done == s.done,
        extract_step(s, e).nested == paragraphs_open(s.nested, e),
        extract_step(s, e).paragraph is Some,
{
}

/// The replacement and the extraction go in step.
proof fn lemma_in_step(
    events: Seq<Ev>,
    ps: Seq<ParagraphView>,
    xs: Seq<ParagraphEvents>,
    n: int,
)
    requires
        well_formed(events),
        all_written(ps, xs),
        forall|i: int|
            0 <= i < started(replace_state(events.take(n), ps)) && i < ps.len() ==> runs_read_back(
                (#[trigger] ps[i]).runs,
            ),
        0 <= n <= events.len(),
    ensures
        in_step(
            written_out(events.take(n), ps, xs),
            replace_state(events.take(n), ps),
            events.take(n),
            ps,
        ),
    decreases n,
{
    let before = events.take(n);
    if n == 0 {
        assert(before =~= Seq::empty());
        assert(with_first(Seq::empty(), ps) =~= Seq::empty());
    } else {
        let shorter = events.take(n - 1);
        let e = events[n - 1];
        assert(before.drop_last() =~= shorter);
        assert(before =~= shorter.push(e));
        let s = replace_state(shorter, ps);
        let out = written_out(shorter, ps, xs);
        let next = replace_state(before, ps);
        assert(next == replace_step(s, ps, e));
        lemma_in_step(events, ps, xs, n - 1);
        lemma_extract_push(shorter, e);
        let old = extract_state(shorter);
        let new = extract_state(out);
        if is_start(e, "w:p") && !s.in_paragraph {
            lemma_extract_push(out, e);
            if s.index < ps.len() {
                assert(runs_read_back(ps[s.index].runs));
                assert(paragraph_written(ps[s.index], xs[s.index]));
                lemma_read_paragraph(out.push(e), new.done, ps[s.index], xs[s.index]);
            }
        } else if is_empty_tag(e, "w:p") && !s.in_paragraph {
            if s.index < ps.len() {
                lemma_next(events, n - 1);
                lemma_opened(e);
                lemma_extract_push(out, opened(e));
                assert(runs_read_back(ps[s.index].runs));
                assert(paragraph_written(ps[s.index], xs[s.index]));
                lemma_read_paragraph(out.push(opened(e)), new.done, ps[s.index], xs[s.index]);
                let filled = out.push(opened(e)) + paragraph_events(ps[s.index], xs[s.index]);
                lemma_extract_push(filled, paragraph_end());
                assert(with_first(old.done.push(blank_paragraph()), ps) =~= with_first(
                    old.done,
                    ps,
                ).push(ps[s.index]));
            } else {
                lemma_extract_push(out, e);
                assert(with_first(old.done.push(blank_paragraph()), ps) =~= with_first(
                    old.done,
                    ps,
                ).push(blank_paragraph()));
            }
        } else if is_end(e, "w:p") && s.in_paragraph && s.nested == 0 {
            lemma_extract_push(out, e);
            let p = old.paragraph->0;
            let q = new.paragraph->0;
            assert(with_first(old.done.push(p), ps) =~= with_first(old.done, ps).push(q));
        } else if s.in_paragraph {
            lemma_done_apart(old, old.done, e);
            if !s.dropping {
                lemma_extract_push(out, e);
                lemma_done_apart(old, new.done, e);
            }
        } else {
            lemma_extract_push(out, e);
        }
    }
}

/// Paragraphs that are written are read back: in a document whose first paragraphs have
/// been replaced by paragraphs such as extraction gives, with any texts in their runs,
/// these are what extraction finds, and the others are as they were. A document that
/// starts with a second byte order mark is left out.
pub proof fn law_paragraphs_are_read_back(
    before: Parts,
    paragraphs: Seq<ParagraphView>,
    after: Parts,
    res: Result<Vec<ParagraphInfo>, Error>,
)
    requires
        part(before, PART_DOCUMENT@) is Some,
        xml_readable(part(before, PART_DOCUMENT@)->0),
        !starts_with_mark(xml_events(part(before, PART_DOCUMENT@)->0)),
        forall|i: int| 0 <= i < paragraphs.len() ==> is_written(#[trigger] paragraphs[i]),
        paragraphs_replaced(before, paragraphs, after),
        paragraphs_extracted(after, res),
    ensures
        res is Ok,
        paragraphs_view(res->Ok_0@) == with_first(
            extracted(xml_events(part(before, PART_DOCUMENT@)->0)),
            paragraphs,
        ),
{
    let doc = part(before, PART_DOCUMENT@)->0;
    let events = xml_events(doc);
    let xs = Seq::new(
        paragraphs.len(),
        |i: int| choose|x: ParagraphEvents| paragraph_written(paragraphs[i], x),
    );
    assert(all_written(paragraphs, xs)) by {
        assert forall|i: int| 0 <= i < paragraphs.len() implies paragraph_written(
            #[trigger] paragraphs[i],
            xs[i],
        ) by {
            assert(is_written(paragraphs[i]));
        }
    }
    let n = events.len() as int;
    assert(events.take(n) =~= events);
    lemma_form(events, paragraphs, xs, n);
    lemma_in_step(events, paragraphs, xs, n);
    let written = written_out(events, paragraphs, xs);
    lemma_with_part(before, PART_DOCUMENT@, emitted_all(written));
    assert(part(after, PART_DOCUMENT@) == Some(emitted_all(written)));
    if n == 0 {
        assert(events =~= Seq::empty());
    }
    assert(reads_back(written));
}

// ---------------------------------------------------------------------------
// What extraction gives
// ---------------------------------------------------------------------------

/// The bytes are those of part of an element with the given name.
spec fn is_capture(bytes: Seq<u8>, depth: int, name: &str, before: Seq<Ev>) -> bool {
    exists|events: Seq<Ev>|
        #![trigger part_of_element(events, depth, name, before)]
        part_of_element(events, depth, name, before) && bytes == emitted_all(events)
}

proof fn lemma_capture_start(name: &str, before: Seq<Ev>, e: Ev)
    requires
        well_formed(before),
        well_formed(before.push(e)),
        is_token(e),
        is_start(e, name),
    ensures
        is_capture(emitted(e), 1, name, before.push(e)),
{
    lemma_part_start(name, before, e);
    lemma_emitted_one(e);
}

proof fn lemma_capture_next(bytes: Seq<u8>, depth: int, name: &str, before: Seq<Ev>, e: Ev) -> (
    element: Seq<Ev>)
    requires
        well_formed(before),
        well_formed(before.push(e)),
        is_token(e),
        e.kind == EventKind::Text ==> !ends_in_text(before),
        is_capture(bytes, depth, name, before),
    ensures
        depth_after(depth, e) >= 0,
        depth_after(depth, e) >= 1 ==> is_capture(
            bytes + emitted(e),
            depth_after(depth, e),
            name,
            before.push(e),
        ),
        depth_after(depth, e) == 0 ==> is_element(element, name) && emitted_all(element) == bytes
            + emitted(e),
{
    let events = choose|events: Seq<Ev>|
        #![trigger part_of_element(events, depth, name, before)]
        part_of_element(events, depth, name, before) && bytes == emitted_all(events);
    lemma_part_next(events, depth, name, before, e);
    lemma_emitted_push(events, e);
    events.push(e)
}

/// A run such as extraction gives.
spec fn is_run(r: RunView) -> bool {
    exists|x: RunEvents| run_written(r, x)
}

proof fn lemma_tags_push(bytes: Seq<Seq<u8>>, events: Seq<Ev>, e: Ev)
    requires
        tags_of(bytes, events),
        e.kind == EventKind::Empty,
        is_token(e),
    ensures
        tags_of(bytes.push(emitted(e)), events.push(e)),
{
    let more = events.push(e);
    assert forall|i: int| 0 <= i < more.len() implies bytes.push(emitted(e))[i] == emitted(
        #[trigger] more[i],
    ) && more[i].kind == EventKind::Empty && is_token(more[i]) by {
        if i < events.len() {
            assert(more[i] == events[i]);
        }
    }
}

proof fn lemma_named_push(events: Seq<Ev>, e: Ev, name: &str)
    requires
        all_named(events, name),
        is_empty_tag(e, name),
    ensures
        all_named(events.push(e), name),
{
    let more = events.push(e);
    assert forall|i: int| 0 <= i < more.len() implies is_empty_tag(#[trigger] more[i], name) by {
        if i < events.len() {
            assert(more[i] == events[i]);
        }
    }
}

proof fn lemma_blank()
    ensures
        is_run(blank_run()),
        is_written(blank_paragraph()),
{
    let x = RunEvents { rpr: Seq::empty(), refs: Seq::empty() };
    assert(run_written(blank_run(), x));
    let y = ParagraphEvents {
        ppr: Seq::empty(),
        leading: Seq::empty(),
        runs: Seq::empty(),
        trailing: Seq::empty(),
    };
    assert(paragraph_written(blank_paragraph(), y));
}

/// What holds of an extraction after `before`.
spec fn extracts_written(s: ExtractView, before: Seq<Ev>) -> bool {
    &&& forall|i: int| 0 <= i < s.done.len() ==> is_written(#[trigger] s.done[i])
    &&& s.paragraph matches Some(p) ==> {
        &&& is_written(p)
        &&& is_run(s.run)
        &&& s.ppr_depth >= 0
        &&& s.ppr_depth >= 1 ==> is_capture(s.ppr, s.ppr_depth, "w:pPr", before)
        &&& s.rpr_depth >= 0
        &&& s.rpr_depth >= 1 ==> is_capture(s.rpr, s.rpr_depth, "w:rPr", before)
    }
}

proof fn lemma_written_in_run(s: ExtractView, e: Ev)
    requires
        is_run(s.run),
        is_token(e),
    ensures
        is_run(extract_in_run(s, e).run),
{
    let x = choose|x: RunEvents| run_written(s.run, x);
    let r = extract_in_run(s, e).run;
    if r.footnote_refs != s.run.footnote_refs {
        lemma_tags_push(s.run.footnote_refs, x.refs, e);
        lemma_named_push(x.refs, e, "w:footnoteReference");
        assert(run_written(r, RunEvents { refs: x.refs.push(e), ..x }));
    } else {
        assert(run_written(r, x));
    }
}

proof fn lemma_written_between_runs(p: ParagraphView, e: Ev)
    requires
        is_written(p),
        is_token(e),
    ensures
        is_empty_tag(e, "w:bookmarkStart") && p.runs.len() == 0 ==> is_written(
            ParagraphView {
                leading_bookmark_starts: p.leading_bookmark_starts.push(emitted(e)),
                ..p
            },
        ),
        (is_empty_tag(e, "w:bookmarkStart") && p.runs.len() > 0) || is_empty_tag(
            e,
            "w:bookmarkEnd",
        ) ==> is_written(
            ParagraphView {
                trailing_bookmark_ends: p.trailing_bookmark_ends.push(emitted(e)),
                ..p
            },
        ),
{
    let x = choose|x: ParagraphEvents| paragraph_written(p, x);
    if is_empty_tag(e, "w:bookmarkStart") && p.runs.len() == 0 {
        lemma_tags_push(p.leading_bookmark_starts, x.leading, e);
        lemma_named_push(x.leading, e, "w:bookmarkStart");
        let q = ParagraphView {
            leading_bookmark_starts: p.leading_bookmark_starts.push(emitted(e)),
            ..p
        };
        assert(paragraph_written(q, ParagraphEvents { leading: x.leading.push(e), ..x }));
    }
    if (is_empty_tag(e, "w:bookmarkStart") && p.runs.len() > 0) || is_empty_tag(
        e,
        "w:bookmarkEnd",
    ) {
        lemma_tags_push(p.trailing_bookmark_ends, x.trailing, e);
        if p.runs.len() == 0 {
            lemma_named_push(x.trailing, e, "w:bookmarkEnd");
        }
        let more = x.trailing.push(e);
        assert forall|i: int| 0 <= i < more.len() implies is_empty_tag(
            #[trigger] more[i],
            "w:bookmarkStart",
        ) || is_empty_tag(more[i], "w:bookmarkEnd") by {
            if i < x.trailing.len() {
                assert(more[i] == x.trailing[i]);
            }
        }
        let q = ParagraphView {
            trailing_bookmark_ends: p.trailing_bookmark_ends.push(emitted(e)),
            ..p
        };
        assert(paragraph_written(q, ParagraphEvents { trailing: more, ..x }));
    }
}

proof fn lemma_written_run_pushed(p: ParagraphView, r: RunView)
    requires
        is_written(p),
        is_run(r),
    ensures
        is_written(ParagraphView { runs: p.runs.push(r), ..p }),
{
    let x = choose|x: ParagraphEvents| paragraph_written(p, x);
    let y = choose|y: RunEvents| run_written(r, y);
    let q = ParagraphView { runs: p.runs.push(r), ..p };
    let z = ParagraphEvents { runs: x.runs.push(y), ..x };
    assert forall|i: int| 0 <= i < q.runs.len() implies run_written(
        #[trigger] q.runs[i],
        z.runs[i],
    ) by {
        if i < p.runs.len() {
            assert(q.runs[i] == p.runs[i]);
        }
    }
    assert(paragraph_written(q, z));
}

proof fn lemma_written_inside(s: ExtractView, p: ParagraphView, before: Seq<Ev>, e: Ev)
    requires
        s.paragraph == Some(p),
        extracts_written(s, before),
        well_formed(before),
        well_formed(before.push(e)),
        is_token(e),
        e.kind == EventKind::Text ==> !ends_in_text(before),
        !(s.ppr_depth >= 1 && s.rpr_depth >= 1),
    ensures
        extracts_written(extract_inside(s, p, e), before.push(e)),
        !(extract_inside(s, p, e).ppr_depth >= 1 && extract_inside(s, p, e).rpr_depth >= 1),
{
    let next = extract_inside(s, p, e);
    if s.ppr_depth >= 1 {
        let element = lemma_capture_next(s.ppr, s.ppr_depth, "w:pPr", before, e);
        if depth_after(s.ppr_depth, e) == 0 {
            let x = choose|x: ParagraphEvents| paragraph_written(p, x);
            let q = ParagraphView { ppr_xml: Some(s.ppr + emitted(e)), ..p };
            assert(paragraph_written(q, ParagraphEvents { ppr: element, ..x }));
        }
    } else if s.rpr_depth >= 1 {
        let element = lemma_capture_next(s.rpr, s.rpr_depth, "w:rPr", before, e);
        if depth_after(s.rpr_depth, e) == 0 {
            let x = choose|x: RunEvents| run_written(s.run, x);
            let q = RunView { rpr_xml: Some(s.rpr + emitted(e)), ..s.run };
            assert(run_written(q, RunEvents { rpr: element, ..x }));
        }
    } else if s.in_run {
        if s.run_depth == 1 && is_end(e, "w:r") {
            lemma_written_run_pushed(p, s.run);
            lemma_blank();
        } else if s.run_depth == 1 && is_start(e, "w:rPr") {
            lemma_capture_start("w:rPr", before, e);
        } else if s.run_depth == 1 && is_empty_tag(e, "w:rPr") {
            let x = choose|x: RunEvents| run_written(s.run, x);
            lemma_emitted_one(e);
            assert(is_whole(seq![e], "w:rPr"));
            assert(run_written(next.run, RunEvents { rpr: seq![e], ..x }));
        } else {
            lemma_written_in_run(s, e);
        }
    } else if is_start(e, "w:pPr") && s.nested == 0 {
        lemma_capture_start("w:pPr", before, e);
    } else if is_empty_tag(e, "w:pPr") && s.nested == 0 {
        let x = choose|x: ParagraphEvents| paragraph_written(p, x);
        lemma_emitted_one(e);
        assert(is_whole(seq![e], "w:pPr"));
        assert(paragraph_written(next.paragraph->0, ParagraphEvents { ppr: seq![e], ..x }));
    } else if is_start(e, "w:r") {
        lemma_blank();
    } else {
        lemma_written_between_runs(p, e);
    }
}

proof fn lemma_extracts_written(events: Seq<Ev>, n: int)
    requires
        well_formed(events),
        0 <= n <= events.len(),
    ensures
        extracts_written(extract_state(events.take(n)), events.take(n)),
        extract_state(events.take(n)).paragraph is Some ==> !(extract_state(
            events.take(n),
        ).ppr_depth >= 1 && extract_state(events.take(n)).rpr_depth >= 1),
    decreases n,
{
    let before = events.take(n);
    if n == 0 {
        assert(before =~= Seq::empty());
    } else {
        let shorter = events.take(n - 1);
        let e = events[n - 1];
        lemma_extracts_written(events, n - 1);
        lemma_next(events, n - 1);
        assert(before.drop_last() =~= shorter);
        lemma_extract_push(shorter, e);
        let s = extract_state(shorter);
        let next = extract_state(before);
        match s.paragraph {
            None => {
                lemma_blank();
                assert forall|i: int| 0 <= i < next.done.len() implies is_written(
                    #[trigger] next.done[i],
                ) by {
                    if i < s.done.len() {
                        assert(next.done[i] == s.done[i]);
                    }
                }
            },
            Some(p) => {
                if is_end(e, "w:p") && s.nested == 0 {
                    assert forall|i: int| 0 <= i < next.done.len() implies is_written(
                        #[trigger] next.done[i],
                    ) by {
                        if i < s.done.len() {
                            assert(next.done[i] == s.done[i]);
                        }
                    }
                } else {
                    let inside = ExtractView { nested: paragraphs_open(s.nested, e), ..s };
                    lemma_written_inside(inside, p, shorter, e);
                }
            },
        }
    }
}

/// What extraction gives can be written: the properties of its paragraphs and runs are
/// whole elements, and their references and bookmarks are tags of that name.
pub proof fn law_extracted_can_be_written(parts: Parts, res: Result<Vec<ParagraphInfo>, Error>)
    requires
        paragraphs_extracted(parts, res),
        res is Ok,
    ensures
        forall|i: int|
            0 <= i < res->Ok_0@.len() ==> is_written(#[trigger] paragraphs_view(res->Ok_0@)[i]),
{
    let events = xml_events(part(parts, PART_DOCUMENT@)->0);
    lemma_extracts_written(events, events.len() as int);
    assert(events.take(events.len() as int) =~= events);
}

/// Extracting the paragraphs of a document and putting them back loses none of them: the
/// document has the same paragraphs as before. A document that starts with a second byte
/// order mark is left out.
pub proof fn law_round_trip(
    before: Parts,
    first: Result<Vec<ParagraphInfo>, Error>,
    after: Parts,
    second: Result<Vec<ParagraphInfo>, Error>,
)
    requires
        paragraphs_extracted(before, first),
        first is Ok,
        !starts_with_mark(xml_events(part(before, PART_DOCUMENT@)->0)),
        paragraphs_replaced(before, paragraphs_view(first->Ok_0@), after),
        paragraphs_extracted(after, second),
    ensures
        second is Ok,
        paragraphs_view(second->Ok_0@) == paragraphs_view(first->Ok_0@),
{
    let ps = paragraphs_view(first->Ok_0@);
    law_extracted_can_be_written(before, first);
    law_paragraphs_are_read_back(before, ps, after, second);
    assert(with_first(ps, ps) =~= ps);
}

} // verus!
