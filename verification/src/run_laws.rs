//! What is read of the runs of a paragraph, and what is written in its place.

use vstd::prelude::*;
use vstd::utf8::is_ascii_chars_encode_utf8;

use crate::bytes::lit;
use crate::paragraph_runs::{
    blank_paragraph, blank_run, event_text, extract_state, extract_step, joined_bytes,
    lemma_run_tags, lemma_text_element, paragraph_bytes, replace_state, replace_step, run_bytes,
    runs_bytes, text_events, text_reads_back, ExtractView, ParagraphView, RunView,
};
use crate::wellformed::{
    depth_after, lemma_emitted_concat, lemma_emitted_one, lemma_emitted_push, opened,
    paragraph_end, paragraphs_open, tag,
};
use crate::xml::{emitted, emitted_all, is_empty_tag, is_end, is_start, Ev, EventKind};

verus! {

proof fn lemma_names()
    ensures
        lit("w:p") != lit("w:r"),
        lit("w:p") != lit("w:t"),
        lit("w:r") != lit("w:t"),
        lit("w:p").len() == 3,
        lit("w:r").len() == 3,
        lit("w:t").len() == 3,
        lit("w:br").len() == 4,
        lit("w:rPr").len() == 5,
        lit("w:pPr").len() == 5,
        lit("w:tab").len() == 5,
        lit("w:rPr") != lit("w:tab"),
        lit("w:rPr") != lit("w:pPr"),
        lit("w:tab") != lit("w:pPr"),
        lit("w:bookmarkEnd").len() == 13,
        lit("w:bookmarkStart").len() == 15,
        lit("w:footnoteReference").len() == 19,
{
    reveal_strlit("w:p");
    reveal_strlit("w:r");
    reveal_strlit("w:t");
    reveal_strlit("w:br");
    reveal_strlit("w:rPr");
    reveal_strlit("w:pPr");
    reveal_strlit("w:tab");
    reveal_strlit("w:bookmarkEnd");
    reveal_strlit("w:bookmarkStart");
    reveal_strlit("w:footnoteReference");
    is_ascii_chars_encode_utf8("w:p"@);
    is_ascii_chars_encode_utf8("w:r"@);
    is_ascii_chars_encode_utf8("w:t"@);
    is_ascii_chars_encode_utf8("w:br"@);
    is_ascii_chars_encode_utf8("w:rPr"@);
    is_ascii_chars_encode_utf8("w:pPr"@);
    is_ascii_chars_encode_utf8("w:tab"@);
    is_ascii_chars_encode_utf8("w:bookmarkEnd"@);
    is_ascii_chars_encode_utf8("w:bookmarkStart"@);
    is_ascii_chars_encode_utf8("w:footnoteReference"@);
    assert(lit("w:p")[2] == 0x70 && lit("w:r")[2] == 0x72 && lit("w:t")[2] == 0x74);
    assert(lit("w:rPr")[2] == 0x72 && lit("w:pPr")[2] == 0x70 && lit("w:tab")[2] == 0x74);
}

/// How many elements are open after `events`.
pub open spec fn level(events: Seq<Ev>) -> int
    decreases events.len(),
{
    if events.len() == 0 {
        0
    } else {
        depth_after(level(events.drop_last()), events.last())
    }
}

/// No tag of a paragraph.
pub open spec fn no_paragraphs(events: Seq<Ev>) -> bool {
    forall|i: int|
        0 <= i < events.len() ==> !is_start(#[trigger] events[i], "w:p") && !is_end(
            events[i],
            "w:p",
        )
}

/// An element with the given name, that holds no paragraph: an empty tag, or a start tag and all
/// up to where the element is closed.
pub open spec fn is_properties(events: Seq<Ev>, name: &str) -> bool {
    &&& no_paragraphs(events)
    &&& events.len() == 1 && is_empty_tag(events[0], name) || {
        &&& events.len() > 1
        &&& is_start(events[0], name)
        &&& level(events) == 0
        &&& forall|k: int| 0 < k < events.len() ==> level(#[trigger] events.take(k)) >= 1
    }
}

/// Inside a paragraph, outside its properties and its runs.
pub open spec fn between_runs(s: ExtractView) -> bool {
    s.paragraph is Some && s.nested == 0 && s.ppr_depth == 0 && s.rpr_depth == 0 && !s.in_run
}

/// Directly inside a run, outside its properties and its texts.
pub open spec fn directly_in_run(s: ExtractView) -> bool {
    s.paragraph is Some && s.nested == 0 && s.ppr_depth == 0 && s.rpr_depth == 0 && s.in_run
        && s.run_depth == 1 && !s.in_text
}

proof fn lemma_extract_push(events: Seq<Ev>, e: Ev)
    ensures
        extract_state(events.push(e)) == extract_step(extract_state(events), e),
{
    assert(events.push(e).drop_last() =~= events);
}

// ---------------------------------------------------------------------------
// Extraction
// ---------------------------------------------------------------------------

/// A paragraph is found from its start tag to its end tag, an empty tag is a paragraph with
/// nothing in it, and other events outside of paragraphs say nothing.
pub proof fn law_paragraphs_are_found(before: Seq<Ev>, e: Ev)
    ensures
        ({
            let s = extract_state(before);
            let t = extract_state(before.push(e));
            &&& s.paragraph is None && is_start(e, "w:p") ==> between_runs(t) && t.done == s.done
                && t.paragraph == Some(blank_paragraph())
            &&& s.paragraph is None && is_empty_tag(e, "w:p") ==> t.paragraph is None && t.done
                == s.done.push(blank_paragraph())
            &&& s.paragraph is None && !is_start(e, "w:p") && !is_empty_tag(e, "w:p") ==> t == s
            &&& between_runs(s) && is_end(e, "w:p") ==> t.paragraph is None && t.done
                == s.done.push(s.paragraph->0)
        }),
{
    lemma_extract_push(before, e);
}

/// Bookmark starts before the first run lead the paragraph; those after it, and bookmark ends,
/// trail it.
pub proof fn law_bookmarks_are_found(before: Seq<Ev>, e: Ev)
    requires
        between_runs(extract_state(before)),
    ensures
        ({
            let s = extract_state(before);
            let p = s.paragraph->0;
            let t = extract_state(before.push(e));
            let leading = ParagraphView {
                leading_bookmark_starts: p.leading_bookmark_starts.push(emitted(e)),
                ..p
            };
            let trailing = ParagraphView {
                trailing_bookmark_ends: p.trailing_bookmark_ends.push(emitted(e)),
                ..p
            };
            &&& is_empty_tag(e, "w:bookmarkStart") && p.runs.len() == 0 ==> t == ExtractView {
                paragraph: Some(leading),
                ..s
            }
            &&& is_empty_tag(e, "w:bookmarkStart") && p.runs.len() > 0 ==> t == ExtractView {
                paragraph: Some(trailing),
                ..s
            }
            &&& is_empty_tag(e, "w:bookmarkEnd") ==> t == ExtractView {
                paragraph: Some(trailing),
                ..s
            }
        }),
{
    lemma_names();
    lemma_extract_push(before, e);
}

proof fn lemma_ppr(before: Seq<Ev>, ppr: Seq<Ev>, k: int)
    requires
        between_runs(extract_state(before)),
        is_properties(ppr, "w:pPr"),
        ppr.len() > 1,
        0 < k < ppr.len(),
    ensures
        extract_state(before + ppr.take(k)) == (ExtractView {
            ppr_depth: level(ppr.take(k)),
            ppr: emitted_all(ppr.take(k)),
            ..extract_state(before)
        }),
    decreases k,
{
    lemma_names();
    let now = ppr.take(k);
    let last = ppr.take(k - 1);
    let e = ppr[k - 1];
    assert(now =~= last.push(e));
    assert(now.drop_last() =~= last);
    lemma_emitted_push(last, e);
    assert(before + now =~= (before + last).push(e));
    lemma_extract_push(before + last, e);
    if k > 1 {
        lemma_ppr(before, ppr, k - 1);
        assert(level(ppr.take(k - 1)) >= 1);
    } else {
        assert(last =~= Seq::empty());
        assert(before + last =~= before);
        assert(level(last) == 0);
        assert(emitted_all(last) + emitted(e) =~= emitted(e));
    }
    assert(level(ppr.take(k)) >= 1);
}

/// The properties of a paragraph are kept as they are written.
pub proof fn law_paragraph_properties_are_found(before: Seq<Ev>, ppr: Seq<Ev>)
    requires
        between_runs(extract_state(before)),
        is_properties(ppr, "w:pPr"),
    ensures
        ({
            let s = extract_state(before);
            let t = extract_state(before + ppr);
            &&& between_runs(t)
            &&& t.done == s.done
            &&& t.paragraph == Some(
                ParagraphView { ppr_xml: Some(emitted_all(ppr)), ..s.paragraph->0 },
            )
        }),
{
    lemma_names();
    let n = ppr.len() as int;
    let last = ppr.take(n - 1);
    let e = ppr[n - 1];
    assert(ppr =~= last.push(e));
    assert(ppr.drop_last() =~= last);
    lemma_emitted_push(last, e);
    assert(before + ppr =~= (before + last).push(e));
    lemma_extract_push(before + last, e);
    if n > 1 {
        lemma_ppr(before, ppr, n - 1);
        assert(level(ppr.take(n - 1)) >= 1);
    } else {
        assert(last =~= Seq::empty());
        assert(before + last =~= before);
        assert(emitted_all(last) + emitted(e) =~= emitted(e));
    }
}

proof fn lemma_rpr(before: Seq<Ev>, rpr: Seq<Ev>, k: int)
    requires
        directly_in_run(extract_state(before)),
        is_properties(rpr, "w:rPr"),
        rpr.len() > 1,
        0 < k < rpr.len(),
    ensures
        extract_state(before + rpr.take(k)) == (ExtractView {
            rpr_depth: level(rpr.take(k)),
            rpr: emitted_all(rpr.take(k)),
            ..extract_state(before)
        }),
    decreases k,
{
    lemma_names();
    let now = rpr.take(k);
    let last = rpr.take(k - 1);
    let e = rpr[k - 1];
    assert(now =~= last.push(e));
    assert(now.drop_last() =~= last);
    lemma_emitted_push(last, e);
    assert(before + now =~= (before + last).push(e));
    lemma_extract_push(before + last, e);
    if k > 1 {
        lemma_rpr(before, rpr, k - 1);
        assert(level(rpr.take(k - 1)) >= 1);
    } else {
        assert(last =~= Seq::empty());
        assert(before + last =~= before);
        assert(level(last) == 0);
        assert(emitted_all(last) + emitted(e) =~= emitted(e));
    }
    assert(level(rpr.take(k)) >= 1);
}

/// The properties of a run are kept as they are written.
pub proof fn law_run_properties_are_found(before: Seq<Ev>, rpr: Seq<Ev>)
    requires
        directly_in_run(extract_state(before)),
        is_properties(rpr, "w:rPr"),
    ensures
        ({
            let s = extract_state(before);
            let t = extract_state(before + rpr);
            &&& directly_in_run(t)
            &&& t.done == s.done
            &&& t.paragraph == s.paragraph
            &&& t.run == RunView { rpr_xml: Some(emitted_all(rpr)), ..s.run }
        }),
{
    lemma_names();
    let n = rpr.len() as int;
    let last = rpr.take(n - 1);
    let e = rpr[n - 1];
    assert(rpr =~= last.push(e));
    assert(rpr.drop_last() =~= last);
    lemma_emitted_push(last, e);
    assert(before + rpr =~= (before + last).push(e));
    lemma_extract_push(before + last, e);
    if n > 1 {
        lemma_rpr(before, rpr, n - 1);
        assert(level(rpr.take(n - 1)) >= 1);
    } else {
        assert(last =~= Seq::empty());
        assert(before + last =~= before);
        assert(emitted_all(last) + emitted(e) =~= emitted(e));
    }
}

/// A run is found from its start tag to its end tag: it starts with nothing in it, a tab and a
/// line break are characters of it, and a footnote reference in it is kept as it is written.
pub proof fn law_runs_are_found(before: Seq<Ev>, e: Ev)
    ensures
        ({
            let s = extract_state(before);
            let t = extract_state(before.push(e));
            &&& between_runs(s) && is_start(e, "w:r") ==> directly_in_run(t) && t.done == s.done
                && t.paragraph == s.paragraph && t.run == blank_run()
            &&& directly_in_run(s) && is_empty_tag(e, "w:tab") ==> t == (ExtractView {
                run: RunView { text: s.run.text.push('\t'), ..s.run },
                ..s
            })
            &&& directly_in_run(s) && is_empty_tag(e, "w:br") ==> t == (ExtractView {
                run: RunView { text: s.run.text.push('\n'), ..s.run },
                ..s
            })
            &&& directly_in_run(s) && is_empty_tag(e, "w:footnoteReference") ==> t == (
            ExtractView {
                run: RunView { footnote_refs: s.run.footnote_refs.push(emitted(e)), ..s.run },
                ..s
            })
            &&& directly_in_run(s) && is_end(e, "w:r") ==> between_runs(t) && t.done == s.done
                && t.paragraph == Some(
                ParagraphView {
                    runs: s.paragraph->0.runs.push(s.run),
                    ..s.paragraph->0
                },
            )
        }),
{
    lemma_names();
    lemma_extract_push(before, e);
    reveal_strlit("\t");
    reveal_strlit("\n");
    let s = extract_state(before);
    assert(s.run.text + "\t"@ =~= s.run.text.push('\t'));
    assert(s.run.text + "\n"@ =~= s.run.text.push('\n'));
}

/// The text of a run is what its text elements say.
pub proof fn law_texts_are_found(before: Seq<Ev>, open: Ev, text: Ev, close: Ev)
    requires
        directly_in_run(extract_state(before)),
        is_start(open, "w:t"),
        text.kind == EventKind::Text,
        is_end(close, "w:t"),
    ensures
        ({
            let s = extract_state(before);
            extract_state(before.push(open).push(text).push(close)) == (ExtractView {
                run: RunView { text: s.run.text + event_text(text), ..s.run },
                ..s
            })
        }),
{
    lemma_names();
    lemma_extract_push(before, open);
    lemma_extract_push(before.push(open), text);
    lemma_extract_push(before.push(open).push(text), close);
}

proof fn lemma_refs(before: Seq<Ev>, refs: Seq<Ev>)
    requires
        directly_in_run(extract_state(before)),
        forall|i: int|
            0 <= i < refs.len() ==> is_empty_tag(#[trigger] refs[i], "w:footnoteReference"),
    ensures
        extract_state(before + refs) == (ExtractView {
            run: RunView {
                footnote_refs: extract_state(before).run.footnote_refs + refs.map_values(
                    |e: Ev| emitted(e),
                ),
                ..extract_state(before).run
            },
            ..extract_state(before)
        }),
    decreases refs.len(),
{
    let s = extract_state(before);
    let all = refs.map_values(|e: Ev| emitted(e));
    if refs.len() == 0 {
        assert(before + refs =~= before);
        assert(s.run.footnote_refs + all =~= s.run.footnote_refs);
    } else {
        let init = refs.drop_last();
        let e = refs.last();
        assert forall|i: int| 0 <= i < init.len() implies is_empty_tag(
            #[trigger] init[i],
            "w:footnoteReference",
        ) by {
            assert(init[i] == refs[i]);
        }
        lemma_refs(before, init);
        assert(is_empty_tag(refs[refs.len() - 1], "w:footnoteReference"));
        law_runs_are_found(before + init, e);
        assert(before + refs =~= (before + init).push(e));
        assert((s.run.footnote_refs + init.map_values(|e: Ev| emitted(e))).push(emitted(e))
            =~= s.run.footnote_refs + all);
    }
}

proof fn lemma_joined(events: Seq<Ev>)
    ensures
        joined_bytes(events.map_values(|e: Ev| emitted(e))) == emitted_all(events),
    decreases events.len(),
{
    let all = events.map_values(|e: Ev| emitted(e));
    if events.len() > 0 {
        lemma_joined(events.drop_last());
        assert(all.drop_last() =~= events.drop_last().map_values(|e: Ev| emitted(e)));
    }
}

/// The events of a run: its properties, its text if there is any, its footnote references.
pub open spec fn run_events(rpr: Seq<Ev>, text: Seq<char>, refs: Seq<Ev>) -> Seq<Ev> {
    seq![tag(EventKind::Start, "w:r")] + rpr + (if text.len() == 0 {
        Seq::empty()
    } else {
        text_events(text)
    }) + refs + seq![tag(EventKind::End, "w:r")]
}

proof fn lemma_run_written(rpr: Seq<Ev>, text: Seq<char>, refs: Seq<Ev>, r: RunView)
    requires
        r.text == text,
        r.rpr_xml == (if rpr.len() == 0 {
            None
        } else {
            Some(emitted_all(rpr))
        }),
        r.footnote_refs == refs.map_values(|e: Ev| emitted(e)),
    ensures
        emitted_all(run_events(rpr, text, refs)) == run_bytes(r),
{
    let open = seq![tag(EventKind::Start, "w:r")];
    let close = seq![tag(EventKind::End, "w:r")];
    let said = if text.len() == 0 {
        Seq::empty()
    } else {
        text_events(text)
    };
    lemma_emitted_concat(open + rpr + said + refs, close);
    lemma_emitted_concat(open + rpr + said, refs);
    lemma_emitted_concat(open + rpr, said);
    lemma_emitted_concat(open, rpr);
    lemma_emitted_one(open[0]);
    lemma_emitted_one(close[0]);
    lemma_text_element(text);
    lemma_joined(refs);
    assert(lit("<") + lit("w:r") + lit(">") =~= lit("<w:r>")) by {
        reveal_strlit("<");
        reveal_strlit(">");
        reveal_strlit("w:r");
        reveal_strlit("<w:r>");
        is_ascii_chars_encode_utf8("<"@);
        is_ascii_chars_encode_utf8(">"@);
        is_ascii_chars_encode_utf8("w:r"@);
        is_ascii_chars_encode_utf8("<w:r>"@);
    }
    assert(lit("</") + lit("w:r") + lit(">") =~= lit("</w:r>")) by {
        reveal_strlit("</");
        reveal_strlit(">");
        reveal_strlit("w:r");
        reveal_strlit("</w:r>");
        is_ascii_chars_encode_utf8("</"@);
        is_ascii_chars_encode_utf8(">"@);
        is_ascii_chars_encode_utf8("w:r"@);
        is_ascii_chars_encode_utf8("</w:r>"@);
    }
    assert(emitted_all(run_events(rpr, text, refs)) =~= run_bytes(r));
}

proof fn lemma_run_read(before: Seq<Ev>, rpr: Seq<Ev>, text: Seq<char>)
    requires
        directly_in_run(extract_state(before)),
        extract_state(before).run == blank_run(),
        rpr.len() == 0 || is_properties(rpr, "w:rPr"),
        text_reads_back(text),
    ensures
        ({
            let s = extract_state(before);
            let t = extract_state(
                before + rpr + (if text.len() == 0 {
                    Seq::empty()
                } else {
                    text_events(text)
                }),
            );
            &&& directly_in_run(t)
            &&& t.done == s.done
            &&& t.paragraph == s.paragraph
            &&& t.run == RunView {
                text,
                rpr_xml: if rpr.len() == 0 {
                    None
                } else {
                    Some(emitted_all(rpr))
                },
                footnote_refs: Seq::empty(),
            }
        }),
{
    lemma_run_tags();
    if rpr.len() == 0 {
        assert(before + rpr =~= before);
    } else {
        law_run_properties_are_found(before, rpr);
    }
    let a = before + rpr;
    if text.len() == 0 {
        assert(a + Seq::<Ev>::empty() =~= a);
        assert(text =~= Seq::empty());
    } else {
        let said = text_events(text);
        law_texts_are_found(a, said[0], said[1], said[2]);
        assert(a + said =~= a.push(said[0]).push(said[1]).push(said[2]));
        assert(Seq::<char>::empty() + text =~= text);
    }
}

/// A run that has been written is read back: its properties, its text and its footnote
/// references are as they were.
pub proof fn law_runs_are_read_back(
    before: Seq<Ev>,
    rpr: Seq<Ev>,
    text: Seq<char>,
    refs: Seq<Ev>,
    r: RunView,
)
    requires
        between_runs(extract_state(before)),
        rpr.len() == 0 || is_properties(rpr, "w:rPr"),
        text_reads_back(text),
        forall|i: int|
            0 <= i < refs.len() ==> is_empty_tag(#[trigger] refs[i], "w:footnoteReference"),
        r.text == text,
        r.rpr_xml == (if rpr.len() == 0 {
            None
        } else {
            Some(emitted_all(rpr))
        }),
        r.footnote_refs == refs.map_values(|e: Ev| emitted(e)),
    ensures
        ({
            let s = extract_state(before);
            let p = s.paragraph->0;
            let t = extract_state(before + run_events(rpr, text, refs));
            &&& emitted_all(run_events(rpr, text, refs)) == run_bytes(r)
            &&& between_runs(t)
            &&& t.done == s.done
            &&& t.paragraph == Some(ParagraphView { runs: p.runs.push(r), ..p })
        }),
{
    lemma_run_written(rpr, text, refs, r);
    lemma_run_tags();
    let open = tag(EventKind::Start, "w:r");
    let close = tag(EventKind::End, "w:r");
    let said = if text.len() == 0 {
        Seq::empty()
    } else {
        text_events(text)
    };
    let a = before.push(open);
    law_runs_are_found(before, open);
    lemma_run_read(a, rpr, text);
    let b = a + rpr + said;
    lemma_refs(b, refs);
    let c = b + refs;
    law_runs_are_found(c, close);
    assert(Seq::<Seq<u8>>::empty() + r.footnote_refs =~= r.footnote_refs);
    assert(extract_state(c).run =~= r);
    assert(before + run_events(rpr, text, refs) =~= c.push(close));
}

/// A paragraph is written as its leading bookmarks, its properties, its runs and its trailing
/// bookmarks, in this order, and runs in theirs.
pub proof fn law_paragraphs_are_written_in_order(
    leading: Seq<Ev>,
    ppr: Seq<Ev>,
    body: Seq<Ev>,
    trailing: Seq<Ev>,
    p: ParagraphView,
    r: RunView,
)
    requires
        p.leading_bookmark_starts == leading.map_values(|e: Ev| emitted(e)),
        p.ppr_xml == (if ppr.len() == 0 {
            None
        } else {
            Some(emitted_all(ppr))
        }),
        runs_bytes(p.runs) == emitted_all(body),
        p.trailing_bookmark_ends == trailing.map_values(|e: Ev| emitted(e)),
    ensures
        paragraph_bytes(p) == emitted_all(leading + ppr + body + trailing),
        runs_bytes(p.runs.push(r)) == emitted_all(body) + run_bytes(r),
        runs_bytes(Seq::empty()) == Seq::<u8>::empty(),
{
    lemma_joined(leading);
    lemma_joined(trailing);
    lemma_emitted_concat(leading + ppr + body, trailing);
    lemma_emitted_concat(leading + ppr, body);
    lemma_emitted_concat(leading, ppr);
    assert(p.runs.push(r).drop_last() =~= p.runs);
}

// ---------------------------------------------------------------------------
// Replacement
// ---------------------------------------------------------------------------

proof fn lemma_replace_push(events: Seq<Ev>, paragraphs: Seq<ParagraphView>, e: Ev)
    ensures
        replace_state(events.push(e), paragraphs) == replace_step(
            replace_state(events, paragraphs),
            paragraphs,
            e,
        ),
{
    assert(events.push(e).drop_last() =~= events);
}

proof fn lemma_not_dropping(events: Seq<Ev>, paragraphs: Seq<ParagraphView>)
    ensures
        ({
            let s = replace_state(events, paragraphs);
            !s.in_paragraph ==> !s.dropping
        }),
    decreases events.len(),
{
    if events.len() > 0 {
        lemma_not_dropping(events.drop_last(), paragraphs);
    }
}

/// How many paragraphs are open after `events`.
pub open spec fn paragraphs_level(events: Seq<Ev>) -> int
    decreases events.len(),
{
    if events.len() == 0 {
        0
    } else {
        paragraphs_open(paragraphs_level(events.drop_last()), events.last())
    }
}

proof fn lemma_replaced_upto(
    before: Seq<Ev>,
    paragraphs: Seq<ParagraphView>,
    open: Ev,
    inner: Seq<Ev>,
    k: int,
)
    requires
        !replace_state(before, paragraphs).in_paragraph,
        is_start(open, "w:p"),
        forall|k: int| 0 <= k <= inner.len() ==> paragraphs_level(#[trigger] inner.take(k)) >= 0,
        0 <= k <= inner.len(),
    ensures
        ({
            let s = replace_state(before, paragraphs);
            let t = replace_state(before.push(open) + inner.take(k), paragraphs);
            &&& t.in_paragraph
            &&& t.nested == paragraphs_level(inner.take(k))
            &&& t.index == s.index
            &&& t.dropping == (s.index < paragraphs.len())
            &&& s.index < paragraphs.len() ==> t.out == s.out + emitted(open) + paragraph_bytes(
                paragraphs[s.index],
            )
            &&& s.index >= paragraphs.len() ==> t.out == s.out + emitted(open) + emitted_all(
                inner.take(k),
            )
        }),
    decreases k,
{
    let a = before.push(open);
    lemma_not_dropping(before, paragraphs);
    lemma_replace_push(before, paragraphs, open);
    if k == 0 {
        assert(inner.take(0) =~= Seq::empty());
        assert(a + inner.take(0) =~= a);
        let s = replace_state(before, paragraphs);
        assert(s.out + emitted(open) + Seq::<u8>::empty() =~= s.out + emitted(open));
    } else {
        let last = inner.take(k - 1);
        let e = inner[k - 1];
        lemma_replaced_upto(before, paragraphs, open, inner, k - 1);
        assert(inner.take(k) =~= last.push(e));
        assert(inner.take(k).drop_last() =~= last);
        assert(paragraphs_level(inner.take(k)) >= 0);
        assert(a + inner.take(k) =~= (a + last).push(e));
        lemma_replace_push(a + last, paragraphs, e);
        lemma_emitted_push(last, e);
        let s = replace_state(before, paragraphs);
        assert(s.out + emitted(open) + emitted_all(last) + emitted(e) =~= s.out + emitted(open)
            + emitted_all(inner.take(k)));
    }
}

/// The contents of a body paragraph become those given for its place, between its own tags; a
/// paragraph for whose place none are given stays as it is.
pub proof fn law_paragraphs_are_replaced(
    before: Seq<Ev>,
    paragraphs: Seq<ParagraphView>,
    open: Ev,
    inner: Seq<Ev>,
    close: Ev,
)
    requires
        !replace_state(before, paragraphs).in_paragraph,
        is_start(open, "w:p"),
        paragraphs_level(inner) == 0,
        forall|k: int| 0 <= k <= inner.len() ==> paragraphs_level(#[trigger] inner.take(k)) >= 0,
        is_end(close, "w:p"),
    ensures
        ({
            let s = replace_state(before, paragraphs);
            let t = replace_state((before.push(open) + inner).push(close), paragraphs);
            &&& !t.in_paragraph
            &&& t.index == s.index + 1
            &&& s.index < paragraphs.len() ==> t.out == s.out + emitted(open) + paragraph_bytes(
                paragraphs[s.index],
            ) + emitted(close)
            &&& s.index >= paragraphs.len() ==> t.out == s.out + emitted(open) + emitted_all(inner)
                + emitted(close)
        }),
{
    lemma_replaced_upto(before, paragraphs, open, inner, inner.len() as int);
    assert(inner.take(inner.len() as int) =~= inner);
    lemma_replace_push(before.push(open) + inner, paragraphs, close);
}

proof fn lemma_opened_written(out: Seq<u8>, e: Ev, bytes: Seq<u8>)
    ensures
        out + emitted(opened(e)) + bytes + emitted(paragraph_end()) == out + lit("<") + opened(e).raw
            + lit(">") + bytes + lit("</w:p>"),
{
    assert(emitted(paragraph_end()) =~= lit("</w:p>")) by {
        reveal_strlit("</");
        reveal_strlit(">");
        reveal_strlit("w:p");
        reveal_strlit("</w:p>");
        is_ascii_chars_encode_utf8("</"@);
        is_ascii_chars_encode_utf8(">"@);
        is_ascii_chars_encode_utf8("w:p"@);
        is_ascii_chars_encode_utf8("</w:p>"@);
    }
    assert(out + (lit("<") + opened(e).raw + lit(">")) =~= out + lit("<") + opened(e).raw + lit(
        ">",
    ));
}

/// A paragraph that is an empty tag is opened for its contents, and all else outside of
/// paragraphs stays.
#[verifier::rlimit(40)]
pub proof fn law_outside_paragraphs_all_stays(
    before: Seq<Ev>,
    paragraphs: Seq<ParagraphView>,
    e: Ev,
)
    requires
        !replace_state(before, paragraphs).in_paragraph,
    ensures
        ({
            let s = replace_state(before, paragraphs);
            let t = replace_state(before.push(e), paragraphs);
            &&& is_empty_tag(e, "w:p") ==> !t.in_paragraph && t.index == s.index + 1
            &&& is_empty_tag(e, "w:p") && s.index < paragraphs.len() ==> t.out == s.out + lit("<")
                + opened(e).raw + lit(">") + paragraph_bytes(paragraphs[s.index]) + lit("</w:p>")
            &&& is_empty_tag(e, "w:p") && s.index >= paragraphs.len() ==> t.out == s.out + emitted(
                e,
            )
            &&& !is_empty_tag(e, "w:p") && !is_start(e, "w:p") ==> !t.in_paragraph && t.index
                == s.index && t.out == s.out + emitted(e)
        }),
{
    lemma_not_dropping(before, paragraphs);
    lemma_replace_push(before, paragraphs, e);
    let s = replace_state(before, paragraphs);
    if is_empty_tag(e, "w:p") && s.index < paragraphs.len() {
        lemma_opened_written(s.out, e, paragraph_bytes(paragraphs[s.index]));
    }
}

} // verus!
