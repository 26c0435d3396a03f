//! Paragraph-level text I/O.
//!
//! The visible text of every body paragraph can be taken out, changed elsewhere and
//! put back. Paragraph properties, bookmarks and footnote references survive; the
//! runs of a paragraph collapse into one.

use vstd::prelude::*;
use vstd::utf8::*;

use crate::bytes::{lit, push_all, push_str};
use crate::error::Error;
use crate::ns::PART_DOCUMENT;
use crate::package::{lemma_with_part, part, with_part, Package, Parts};
use crate::paragraph_runs::{
    emit_opened, emit_paragraph_end, escaped_events, event_bytes, event_text,
    is_missing_document, lemma_run_tags, lemma_text_block, lemma_text_element, missing_document,
    push_text_element, text_element, text_events, text_reads_back,
};
use crate::wellformed::{
    count_name, depth_after, ends_in_text, is_block, is_element, is_token, is_whole,
    lemma_append_block, lemma_blocks, lemma_count_name, lemma_emitted_concat, lemma_emitted_one,
    lemma_emitted_push, lemma_enclose, lemma_inner_names, lemma_next, lemma_no_block,
    lemma_opened, lemma_part_next, lemma_part_start, lemma_push, lemma_push_block, lemma_spans,
    lemma_whole_block, open_names, opened, paragraph_end, paragraphs_open, part_of_element, spans,
    starts_with_mark, tag, well_formed,
};
use crate::xml::{
    emit, emitted, emitted_all, events_view, is_empty_tag, is_end, is_read, is_start, parse_events,
    reads_back, unescape_text, xml_events, xml_readable, Ev, EventKind, XmlEvent,
};

verus! {

/// The texts of a sequence of strings.
pub open spec fn texts_view(v: Seq<String>) -> Seq<Seq<char>> {
    v.map_values(|s: String| s@)
}

// ---------------------------------------------------------------------------
// Extraction
// ---------------------------------------------------------------------------

/// How far extraction has come.
#[verifier::ext_equal]
pub struct TextsView {
    /// The texts of the complete paragraphs.
    pub done: Seq<Seq<char>>,
    /// How many paragraphs are open.
    pub depth: int,
    /// How many elements are open in its properties.
    pub ppr_depth: int,
    /// How many runs are open.
    pub runs: int,
    /// The text of the outermost open paragraph so far.
    pub current: Seq<char>,
    /// Whether inside a `<w:t>`.
    pub in_text: bool,
}

/// Nothing read yet.
pub open spec fn texts_start() -> TextsView {
    TextsView {
        done: Seq::empty(),
        depth: 0,
        ppr_depth: 0,
        runs: 0,
        current: Seq::empty(),
        in_text: false,
    }
}

/// What one event inside a paragraph does to an extraction. The properties of the
/// paragraph, which stand in no run, hold no text.
pub open spec fn texts_inside(s: TextsView, e: Ev) -> TextsView {
    if s.ppr_depth >= 1 {
        TextsView { ppr_depth: depth_after(s.ppr_depth, e), ..s }
    } else if is_start(e, "w:pPr") && s.depth == 1 && s.runs == 0 {
        TextsView { ppr_depth: 1, ..s }
    } else if is_start(e, "w:r") {
        TextsView { runs: s.runs + 1, ..s }
    } else if is_end(e, "w:r") && s.runs > 0 {
        TextsView { runs: s.runs - 1, ..s }
    } else if is_start(e, "w:t") {
        TextsView { in_text: true, ..s }
    } else if is_end(e, "w:t") {
        TextsView { in_text: false, ..s }
    } else if is_empty_tag(e, "w:tab") {
        TextsView { current: s.current + "\t"@, ..s }
    } else if is_empty_tag(e, "w:br") {
        TextsView { current: s.current + "\n"@, ..s }
    } else if s.in_text && e.kind == EventKind::Text {
        TextsView { current: s.current + event_text(e), ..s }
    } else {
        s
    }
}

/// What one event does to an extraction.
pub open spec fn texts_step(s: TextsView, e: Ev) -> TextsView {
    if s.depth == 0 {
        if is_start(e, "w:p") {
            TextsView {
                depth: 1,
                ppr_depth: 0,
                runs: 0,
                current: Seq::empty(),
                in_text: false,
                ..s
            }
        } else if is_empty_tag(e, "w:p") {
            TextsView { done: s.done.push(Seq::empty()), ..s }
        } else {
            s
        }
    } else if is_end(e, "w:p") && s.depth == 1 {
        TextsView { done: s.done.push(s.current), depth: 0, current: Seq::empty(), ..s }
    } else {
        texts_inside(TextsView { depth: paragraphs_open(s.depth, e), ..s }, e)
    }
}

/// The state of the extraction after `events`.
pub open spec fn texts_state(events: Seq<Ev>) -> TextsView
    decreases events.len(),
{
    if events.len() == 0 {
        texts_start()
    } else {
        texts_step(texts_state(events.drop_last()), events.last())
    }
}

/// The visible texts of the body paragraphs among `events`.
pub open spec fn paragraph_texts(events: Seq<Ev>) -> Seq<Seq<char>> {
    texts_state(events).done
}

/// The visible texts of the body paragraphs among the events of a document.
pub fn texts_from_events(events: &Vec<XmlEvent>) -> (r: Vec<String>)
    ensures
        texts_view(r@) == paragraph_texts(events_view(events@)),
{
    let ghost evs = events_view(events@);
    let mut done: Vec<String> = Vec::new();
    let mut depth: i128 = 0;
    let mut ppr_depth: i128 = 0;
    let mut runs: i128 = 0;
    let mut current = String::new();
    let mut in_text = false;
    let mut i: usize = 0;
    assert(evs.take(0) =~= Seq::empty());
    assert(texts_view(done@) =~= Seq::empty());
    while i < events.len()
        invariant
            i <= events@.len(),
            evs == events_view(events@),
            -i <= depth <= i,
            -i <= ppr_depth <= i,
            0 <= runs <= i,
            texts_state(evs.take(i as int)) == (TextsView {
                done: texts_view(done@),
                depth: depth as int,
                ppr_depth: ppr_depth as int,
                runs: runs as int,
                current: current@,
                in_text,
            }),
        decreases events@.len() - i,
    {
        let ev = &events[i];
        let ghost s = texts_state(evs.take(i as int));
        if depth == 0 {
            if ev.is_start("w:p") {
                depth = 1;
                ppr_depth = 0;
                runs = 0;
                current = String::new();
                in_text = false;
            } else if ev.is_empty_tag("w:p") {
                done.push(String::new());
                assert(texts_view(done@) =~= s.done.push(Seq::empty()));
            }
        } else if ev.is_end("w:p") && depth == 1 {
            let mut finished = String::new();
            std::mem::swap(&mut finished, &mut current);
            done.push(finished);
            assert(texts_view(done@) =~= s.done.push(s.current));
            depth = 0;
        } else {
            if ev.is_start("w:p") {
                depth += 1;
            } else if ev.is_end("w:p") {
                depth -= 1;
            }
            if ppr_depth >= 1 {
                if ev.kind == EventKind::Start {
                    ppr_depth += 1;
                } else if ev.kind == EventKind::End {
                    ppr_depth -= 1;
                }
            } else if ev.is_start("w:pPr") && depth == 1 && runs == 0 {
                ppr_depth = 1;
            } else if ev.is_start("w:r") {
                runs += 1;
            } else if ev.is_end("w:r") && runs > 0 {
                runs -= 1;
            } else if ev.is_start("w:t") {
                in_text = true;
            } else if ev.is_end("w:t") {
                in_text = false;
            } else if ev.is_empty_tag("w:tab") {
                current.append("\t");
            } else if ev.is_empty_tag("w:br") {
                current.append("\n");
            } else if in_text && ev.kind == EventKind::Text {
                if let Ok(t) = unescape_text(&ev.raw) {
                    current.append(&t);
                }
                assert(s.current + event_text(ev@) =~= current@);
            }
        }
        proof {
            assert(evs.take(i + 1).drop_last() =~= evs.take(i as int));
            assert(evs.take(i + 1).last() == ev@);
            assert(texts_step(s, ev@) =~= (TextsView {
                done: texts_view(done@),
                depth: depth as int,
                ppr_depth: ppr_depth as int,
                runs: runs as int,
                current: current@,
                in_text,
            }));
        }
        i += 1;
    }
    assert(evs.take(i as int) =~= evs);
    done
}

/// The visible text of every `<w:p>` of the main document, in document order.
pub fn extract_paragraph_texts(pkg: &Package) -> (res: Result<Vec<String>, Error>)
    ensures
        texts_extracted(pkg@, res),
{
    match pkg.get_part(PART_DOCUMENT) {
        None => Err(missing_document()),
        Some(doc) => {
            let events = parse_events(doc, PART_DOCUMENT)?;
            Ok(texts_from_events(&events))
        },
    }
}

// ---------------------------------------------------------------------------
// Replacement
// ---------------------------------------------------------------------------

/// What a rewritten paragraph holds besides its text.
#[verifier::ext_equal]
pub struct KeptView {
    pub ppr: Seq<Ev>,
    pub bookmark_starts: Seq<Ev>,
    pub footnote_refs: Seq<Ev>,
    pub bookmark_ends: Seq<Ev>,
}

/// Nothing kept.
pub open spec fn nothing_kept() -> KeptView {
    KeptView {
        ppr: Seq::empty(),
        bookmark_starts: Seq::empty(),
        footnote_refs: Seq::empty(),
        bookmark_ends: Seq::empty(),
    }
}

/// The one run of a rewritten paragraph: its text, then the references.
pub open spec fn rewritten_run(text: Seq<char>, refs: Seq<Ev>) -> Seq<Ev> {
    seq![tag(EventKind::Start, "w:r")] + (text_events(text) + refs) + seq![
        tag(EventKind::End, "w:r"),
    ]
}

/// What stands between `<w:p>` and `</w:p>` of a rewritten paragraph.
pub open spec fn rewritten(text: Seq<char>, kept: KeptView) -> Seq<Ev> {
    kept.ppr + kept.bookmark_starts + rewritten_run(text, kept.footnote_refs) + kept.bookmark_ends
}

/// How far a replacement has come.
#[verifier::ext_equal]
pub struct RewriteView {
    /// What has been written.
    pub out: Seq<Ev>,
    /// How many body paragraphs have been closed.
    pub index: int,
    /// How many paragraphs are open.
    pub depth: int,
    /// Whether the outermost open paragraph is being rewritten.
    pub rewriting: bool,
    /// What is kept of it.
    pub kept: KeptView,
    /// How many elements are open in its properties, and their events so far.
    pub ppr_depth: int,
    pub ppr: Seq<Ev>,
}

/// Nothing written yet.
pub open spec fn rewrite_start() -> RewriteView {
    RewriteView {
        out: Seq::empty(),
        index: 0,
        depth: 0,
        rewriting: false,
        kept: nothing_kept(),
        ppr_depth: 0,
        ppr: Seq::empty(),
    }
}

/// An event that is part of an element's structure or text.
pub open spec fn is_content(e: Ev) -> bool {
    e.kind == EventKind::Start || e.kind == EventKind::End || e.kind == EventKind::Empty || e.kind
        == EventKind::Text
}

/// What an event inside a paragraph under rewriting does: the properties of the
/// paragraph, references and bookmarks are kept, all other contents are dropped.
pub open spec fn rewrite_inside(s: RewriteView, e: Ev) -> RewriteView {
    if s.ppr_depth >= 1 {
        if depth_after(s.ppr_depth, e) == 0 {
            RewriteView {
                ppr_depth: 0,
                ppr: Seq::empty(),
                kept: KeptView { ppr: s.ppr.push(e), ..s.kept },
                ..s
            }
        } else {
            RewriteView { ppr_depth: depth_after(s.ppr_depth, e), ppr: s.ppr.push(e), ..s }
        }
    } else if is_start(e, "w:pPr") && s.depth == 1 {
        RewriteView { ppr_depth: 1, ppr: seq![e], ..s }
    } else if is_empty_tag(e, "w:pPr") && s.depth == 1 {
        RewriteView { kept: KeptView { ppr: seq![e], ..s.kept }, ..s }
    } else if is_empty_tag(e, "w:footnoteReference") {
        RewriteView {
            kept: KeptView { footnote_refs: s.kept.footnote_refs.push(e), ..s.kept },
            ..s
        }
    } else if is_empty_tag(e, "w:bookmarkStart") {
        RewriteView {
            kept: KeptView { bookmark_starts: s.kept.bookmark_starts.push(e), ..s.kept },
            ..s
        }
    } else if is_empty_tag(e, "w:bookmarkEnd") {
        RewriteView {
            kept: KeptView { bookmark_ends: s.kept.bookmark_ends.push(e), ..s.kept },
            ..s
        }
    } else if is_content(e) {
        s
    } else {
        RewriteView { out: s.out.push(e), ..s }
    }
}

/// A whole paragraph with the given text.
pub open spec fn filled_paragraph(start: Ev, text: Seq<char>) -> Seq<Ev> {
    (seq![start] + rewritten(text, nothing_kept())).push(paragraph_end())
}

/// What one event does to a replacement.
pub open spec fn rewrite_step(s: RewriteView, texts: Seq<Seq<char>>, e: Ev) -> RewriteView {
    if s.depth == 0 {
        if is_start(e, "w:p") {
            RewriteView {
                out: s.out.push(e),
                depth: 1,
                rewriting: s.index < texts.len(),
                kept: nothing_kept(),
                ppr_depth: 0,
                ppr: Seq::empty(),
                ..s
            }
        } else if is_empty_tag(e, "w:p") {
            RewriteView {
                out: if s.index < texts.len() {
                    s.out + filled_paragraph(opened(e), texts[s.index])
                } else {
                    s.out.push(e)
                },
                index: s.index + 1,
                ..s
            }
        } else {
            RewriteView { out: s.out.push(e), ..s }
        }
    } else if is_end(e, "w:p") && s.depth == 1 {
        RewriteView {
            out: (if s.rewriting {
                s.out + rewritten(texts[s.index], s.kept)
            } else {
                s.out
            }).push(e),
            index: s.index + 1,
            depth: 0,
            rewriting: false,
            ..s
        }
    } else {
        let next = RewriteView { depth: paragraphs_open(s.depth, e), ..s };
        if s.rewriting {
            rewrite_inside(next, e)
        } else {
            RewriteView { out: s.out.push(e), ..next }
        }
    }
}

/// The state of the replacement after `events`.
pub open spec fn rewrite_state(events: Seq<Ev>, texts: Seq<Seq<char>>) -> RewriteView
    decreases events.len(),
{
    if events.len() == 0 {
        rewrite_start()
    } else {
        rewrite_step(rewrite_state(events.drop_last(), texts), texts, events.last())
    }
}

/// The events of a document with the texts of its first body paragraphs replaced.
pub open spec fn events_with_texts(events: Seq<Ev>, texts: Seq<Seq<char>>) -> Seq<Ev> {
    rewrite_state(events, texts).out
}

/// The document with the texts of its first body paragraphs replaced.
pub open spec fn with_texts(events: Seq<Ev>, texts: Seq<Seq<char>>) -> Seq<u8> {
    emitted_all(events_with_texts(events, texts))
}

/// What is kept of a paragraph under rewriting, as bytes.
struct Kept {
    ppr: Vec<u8>,
    bookmark_starts: Vec<u8>,
    footnote_refs: Vec<u8>,
    bookmark_ends: Vec<u8>,
}

impl Kept {
    spec fn stands_for(&self, k: KeptView) -> bool {
        &&& self.ppr@ == emitted_all(k.ppr)
        &&& self.bookmark_starts@ == emitted_all(k.bookmark_starts)
        &&& self.footnote_refs@ == emitted_all(k.footnote_refs)
        &&& self.bookmark_ends@ == emitted_all(k.bookmark_ends)
    }
}

fn keep_nothing() -> (k: Kept)
    ensures
        k.stands_for(nothing_kept()),
{
    let k = Kept {
        ppr: Vec::new(),
        bookmark_starts: Vec::new(),
        footnote_refs: Vec::new(),
        bookmark_ends: Vec::new(),
    };
    assert(k.ppr@ =~= emitted_all(Seq::empty()));
    assert(k.bookmark_starts@ =~= emitted_all(Seq::empty()));
    assert(k.footnote_refs@ =~= emitted_all(Seq::empty()));
    assert(k.bookmark_ends@ =~= emitted_all(Seq::empty()));
    k
}

proof fn lemma_run_bytes(text: Seq<char>, refs: Seq<Ev>)
    ensures
        emitted_all(rewritten_run(text, refs)) == lit("<w:r>") + text_element(text) + emitted_all(
            refs,
        ) + lit("</w:r>"),
{
    let open = tag(EventKind::Start, "w:r");
    let close = tag(EventKind::End, "w:r");
    let inner = text_events(text) + refs;
    lemma_emitted_concat(seq![open] + inner, seq![close]);
    lemma_emitted_concat(seq![open], inner);
    lemma_emitted_concat(text_events(text), refs);
    lemma_emitted_one(open);
    lemma_emitted_one(close);
    lemma_text_element(text);
    reveal_strlit("<");
    reveal_strlit("</");
    reveal_strlit(">");
    reveal_strlit("w:r");
    reveal_strlit("<w:r>");
    reveal_strlit("</w:r>");
    is_ascii_chars_encode_utf8("<"@);
    is_ascii_chars_encode_utf8("</"@);
    is_ascii_chars_encode_utf8(">"@);
    is_ascii_chars_encode_utf8("w:r"@);
    is_ascii_chars_encode_utf8("<w:r>"@);
    is_ascii_chars_encode_utf8("</w:r>"@);
    assert(emitted(open) =~= lit("<w:r>"));
    assert(emitted(close) =~= lit("</w:r>"));
    assert(emitted_all(rewritten_run(text, refs)) =~= lit("<w:r>") + text_element(text)
        + emitted_all(refs) + lit("</w:r>"));
}

/// Writes the contents of a rewritten paragraph.
fn emit_rewritten_paragraph(out: &mut Vec<u8>, text: &str, kept: &Kept, Ghost(k): Ghost<KeptView>)
    requires
        kept.stands_for(k),
    ensures
        final(out)@ == old(out)@ + emitted_all(rewritten(text@, k)),
        text_reads_back(text@),
{
    push_all(out, &kept.ppr);
    push_all(out, &kept.bookmark_starts);
    push_str(out, "<w:r>");
    push_text_element(out, text);
    push_all(out, &kept.footnote_refs);
    push_str(out, "</w:r>");
    push_all(out, &kept.bookmark_ends);
    proof {
        let run = rewritten_run(text@, k.footnote_refs);
        lemma_run_bytes(text@, k.footnote_refs);
        lemma_emitted_concat(k.ppr, k.bookmark_starts);
        lemma_emitted_concat(k.ppr + k.bookmark_starts, run);
        lemma_emitted_concat(k.ppr + k.bookmark_starts + run, k.bookmark_ends);
        assert(out@ =~= old(out)@ + emitted_all(rewritten(text@, k)));
    }
}

/// Writes one more event.
fn emit_next(out: &mut Vec<u8>, ev: &XmlEvent, Ghost(before): Ghost<Seq<Ev>>)
    requires
        old(out)@ == emitted_all(before),
    ensures
        final(out)@ == emitted_all(before.push(ev@)),
{
    emit(out, ev);
    proof {
        lemma_emitted_push(before, ev@);
    }
}

/// Writes an empty paragraph with a text in it.
fn emit_new_paragraph(out: &mut Vec<u8>, ev: &XmlEvent, text: &str, Ghost(before): Ghost<Seq<Ev>>)
    requires
        old(out)@ == emitted_all(before),
    ensures
        final(out)@ == emitted_all(before + filled_paragraph(opened(ev@), text@)),
        text_reads_back(text@),
{
    emit_opened(out, ev);
    emit_rewritten_paragraph(out, text, &keep_nothing(), Ghost(nothing_kept()));
    emit_paragraph_end(out);
    proof {
        let start = opened(ev@);
        let inner = rewritten(text@, nothing_kept());
        lemma_emitted_concat(before, filled_paragraph(start, text@));
        lemma_emitted_push(seq![start] + inner, paragraph_end());
        lemma_emitted_concat(seq![start], inner);
        lemma_emitted_one(start);
        assert(out@ =~= emitted_all(before + filled_paragraph(start, text@)));
    }
}

/// A replacement under way.
struct Rewriter {
    out: Vec<u8>,
    index: usize,
    depth: i128,
    rewriting: bool,
    kept: Kept,
    ppr_depth: i128,
    ppr: Vec<u8>,
}

impl Rewriter {
    spec fn stands_for(&self, s: RewriteView) -> bool {
        &&& self.out@ == emitted_all(s.out)
        &&& self.index == s.index
        &&& self.depth == s.depth
        &&& self.rewriting == s.rewriting
        &&& self.kept.stands_for(s.kept)
        &&& self.ppr_depth == s.ppr_depth
        &&& self.ppr@ == emitted_all(s.ppr)
    }

    /// No counter is further from zero than `n`, and a paragraph under rewriting has
    /// a text.
    spec fn inv(&self, n: int, texts: int) -> bool {
        &&& 0 <= self.depth <= n
        &&& -n <= self.ppr_depth <= n
        &&& self.index <= n
        &&& self.rewriting ==> self.depth >= 1 && self.index < texts
    }

    fn step_inside(&mut self, ev: &XmlEvent, Ghost(s): Ghost<RewriteView>, Ghost(n): Ghost<int>)
        requires
            old(self).stands_for(s),
            1 <= n < i128::MAX,
            -n <= old(self).ppr_depth <= n,
        ensures
            final(self).stands_for(rewrite_inside(s, ev@)),
            -n - 1 <= final(self).ppr_depth <= n + 1,
            final(self).depth == old(self).depth,
            final(self).index == old(self).index,
            final(self).rewriting == old(self).rewriting,
    {
        if self.ppr_depth >= 1 {
            if ev.kind == EventKind::Start {
                self.ppr_depth += 1;
            } else if ev.kind == EventKind::End {
                self.ppr_depth -= 1;
            }
            emit_next(&mut self.ppr, ev, Ghost(s.ppr));
            if self.ppr_depth == 0 {
                let mut captured: Vec<u8> = Vec::new();
                std::mem::swap(&mut captured, &mut self.ppr);
                self.kept.ppr = captured;
                assert(self.ppr@ =~= emitted_all(Seq::empty()));
            }
        } else if ev.is_start("w:pPr") && self.depth == 1 {
            self.ppr_depth = 1;
            self.ppr = event_bytes(ev);
            proof {
                lemma_emitted_one(ev@);
            }
        } else if ev.is_empty_tag("w:pPr") && self.depth == 1 {
            self.kept.ppr = event_bytes(ev);
            proof {
                lemma_emitted_one(ev@);
            }
        } else if ev.is_empty_tag("w:footnoteReference") {
            emit_next(&mut self.kept.footnote_refs, ev, Ghost(s.kept.footnote_refs));
        } else if ev.is_empty_tag("w:bookmarkStart") {
            emit_next(&mut self.kept.bookmark_starts, ev, Ghost(s.kept.bookmark_starts));
        } else if ev.is_empty_tag("w:bookmarkEnd") {
            emit_next(&mut self.kept.bookmark_ends, ev, Ghost(s.kept.bookmark_ends));
        } else if !(ev.kind == EventKind::Start || ev.kind == EventKind::End || ev.kind
            == EventKind::Empty || ev.kind == EventKind::Text) {
            emit_next(&mut self.out, ev, Ghost(s.out));
        }
    }

    fn step(&mut self, texts: &[String], ev: &XmlEvent, Ghost(s): Ghost<RewriteView>, Ghost(n): Ghost<int>)
        requires
            old(self).stands_for(s),
            old(self).inv(n, texts@.len() as int),
            1 <= n < i128::MAX,
            old(self).index < usize::MAX,
        ensures
            final(self).stands_for(rewrite_step(s, texts_view(texts@), ev@)),
            final(self).inv(n + 1, texts@.len() as int),
            (s.rewriting || s.depth == 0 && s.index < texts@.len()) && rewrite_step(
                s,
                texts_view(texts@),
                ev@,
            ).index > s.index ==> text_reads_back(texts_view(texts@)[s.index]),
    {
        if self.depth == 0 && !ev.is_start("w:p") {
            if !ev.is_empty_tag("w:p") {
                emit_next(&mut self.out, ev, Ghost(s.out));
            } else {
                if self.index < texts.len() {
                    assert(texts_view(texts@)[s.index] == texts@[s.index]@);
                    emit_new_paragraph(&mut self.out, ev, &texts[self.index], Ghost(s.out));
                } else {
                    emit_next(&mut self.out, ev, Ghost(s.out));
                }
                self.index += 1;
            }
        } else if self.depth == 0 {
            self.rewriting = self.index < texts.len();
            self.kept = keep_nothing();
            self.ppr_depth = 0;
            self.ppr = Vec::new();
            assert(self.ppr@ =~= emitted_all(Seq::empty()));
            emit_next(&mut self.out, ev, Ghost(s.out));
            self.depth = 1;
        } else if ev.is_end("w:p") && self.depth == 1 {
            let ghost mut before = s.out;
            if self.rewriting {
                assert(texts_view(texts@)[s.index] == texts@[s.index]@);
                emit_rewritten_paragraph(
                    &mut self.out,
                    &texts[self.index],
                    &self.kept,
                    Ghost(s.kept),
                );
                self.rewriting = false;
                proof {
                    let more = rewritten(texts@[s.index]@, s.kept);
                    lemma_emitted_concat(s.out, more);
                    before = s.out + more;
                }
            }
            emit_next(&mut self.out, ev, Ghost(before));
            self.depth = 0;
            self.index += 1;
        } else {
            if ev.is_start("w:p") {
                self.depth += 1;
            } else if ev.is_end("w:p") {
                self.depth -= 1;
            }
            let ghost next = RewriteView { depth: paragraphs_open(s.depth, ev@), ..s };
            if self.rewriting {
                self.step_inside(ev, Ghost(next), Ghost(n));
            } else {
                emit_next(&mut self.out, ev, Ghost(s.out));
            }
        }
    }
}

/// Every text that was put into a paragraph is read back from it.
pub open spec fn texts_read_back(texts: Seq<Seq<char>>, n: int) -> bool {
    forall|i: int| 0 <= i < n && i < texts.len() ==> text_reads_back(#[trigger] texts[i])
}

/// The events of a document with the texts of its first body paragraphs replaced.
pub fn replace_texts_in_events(events: &Vec<XmlEvent>, new_texts: &[String]) -> (out: Vec<u8>)
    ensures
        out@ == with_texts(events_view(events@), texts_view(new_texts@)),
        texts_read_back(
            texts_view(new_texts@),
            rewrite_state(events_view(events@), texts_view(new_texts@)).index,
        ),
{
    let ghost evs = events_view(events@);
    let ghost texts = texts_view(new_texts@);
    let mut rw = Rewriter {
        out: Vec::new(),
        index: 0,
        depth: 0,
        rewriting: false,
        kept: keep_nothing(),
        ppr_depth: 0,
        ppr: Vec::new(),
    };
    let mut i: usize = 0;
    assert(evs.take(0) =~= Seq::empty());
    assert(rw.out@ =~= emitted_all(Seq::empty()));
    while i < events.len()
        invariant
            i <= events@.len(),
            evs == events_view(events@),
            texts == texts_view(new_texts@),
            rw.inv(i + 1, new_texts@.len() as int),
            rw.index <= i,
            rw.stands_for(rewrite_state(evs.take(i as int), texts)),
            !rw.rewriting && rw.depth >= 1 ==> rw.index >= texts.len(),
            texts_read_back(texts, rw.index as int),
        decreases events@.len() - i,
    {
        let ghost s = rewrite_state(evs.take(i as int), texts);
        rw.step(new_texts, &events[i], Ghost(s), Ghost(i + 1));
        proof {
            assert(evs.take(i + 1).drop_last() =~= evs.take(i as int));
            assert(evs.take(i + 1).last() == events@[i as int]@);
        }
        i += 1;
    }
    assert(evs.take(i as int) =~= evs);
    rw.out
}

// ---------------------------------------------------------------------------
// Reading what was written
// ---------------------------------------------------------------------------

/// The properties of a paragraph, as far as they have been read.
spec fn captures(s: RewriteView, before: Seq<Ev>) -> bool {
    &&& s.ppr_depth >= 0
    &&& s.ppr_depth >= 1 ==> part_of_element(s.ppr, s.ppr_depth, "w:pPr", before)
}

/// Whole elements are kept.
spec fn keeps_blocks(k: KeptView) -> bool {
    (k.ppr.len() == 0 || is_whole(k.ppr, "w:pPr")) && is_block(k.bookmark_starts) && is_block(k.footnote_refs) && is_block(
        k.bookmark_ends,
    )
}

/// How what has been written relates to what has been read.
spec fn in_form(s: RewriteView, before: Seq<Ev>) -> bool {
    let names = open_names(before)->0;
    let outer = open_names(s.out)->0;
    &&& well_formed(s.out)
    &&& before.len() > 0 ==> s.out.len() > 0 && (s.out[0] == before[0] || s.out[0].kind
        != EventKind::Text)
    &&& s.depth >= 0
    &&& if s.rewriting {
        &&& s.depth >= 1
        &&& !ends_in_text(s.out)
        &&& spans(names, outer, s.depth)
        &&& captures(s, before)
        &&& keeps_blocks(s.kept)
    } else {
        outer == names && (ends_in_text(s.out) ==> ends_in_text(before))
    }
}

proof fn lemma_rewritten_block(text: Seq<char>, kept: KeptView)
    requires
        keeps_blocks(kept),
    ensures
        is_block(rewritten(text, kept)),
        rewritten(text, kept).len() > 0,
{
    lemma_run_tags();
    if kept.ppr.len() == 0 {
        lemma_no_block();
        assert(kept.ppr =~= Seq::empty());
    } else {
        lemma_whole_block(kept.ppr, "w:pPr");
    }
    lemma_text_block(text);
    lemma_blocks(text_events(text), kept.footnote_refs);
    lemma_enclose(
        tag(EventKind::Start, "w:r"),
        text_events(text) + kept.footnote_refs,
        tag(EventKind::End, "w:r"),
    );
    let run = rewritten_run(text, kept.footnote_refs);
    lemma_blocks(kept.ppr, kept.bookmark_starts);
    lemma_blocks(kept.ppr + kept.bookmark_starts, run);
    lemma_blocks(kept.ppr + kept.bookmark_starts + run, kept.bookmark_ends);
}

/// An event inside a paragraph under rewriting keeps the form.
proof fn lemma_inside_form(s: RewriteView, before: Seq<Ev>, e: Ev)
    requires
        s.rewriting,
        in_form(s, before),
        before.len() > 0,
        well_formed(before),
        well_formed(before.push(e)),
        is_token(e),
        e.kind == EventKind::Text ==> !ends_in_text(before),
        !(is_end(e, "w:p") && s.depth == 1),
    ensures
        in_form(
            rewrite_inside(RewriteView { depth: paragraphs_open(s.depth, e), ..s }, e),
            before.push(e),
        ),
{
    let outer = open_names(s.out)->0;
    let names = open_names(before)->0;
    let next = RewriteView { depth: paragraphs_open(s.depth, e), ..s };
    let done = rewrite_inside(next, e);
    lemma_spans(before, e, outer, s.depth);
    let after = open_names(before.push(e))->0;
    assert(before.push(e)[0] == before[0]);
    if s.ppr_depth >= 1 {
        lemma_part_next(s.ppr, s.ppr_depth, "w:pPr", before, e);
    } else if is_start(e, "w:pPr") && next.depth == 1 {
        lemma_part_start("w:pPr", before, e);
    } else if is_empty_tag(e, "w:pPr") && next.depth == 1 {
        assert(is_whole(seq![e], "w:pPr"));
    } else if is_empty_tag(e, "w:footnoteReference") {
        lemma_push_block(s.kept.footnote_refs, e);
    } else if is_empty_tag(e, "w:bookmarkStart") {
        lemma_push_block(s.kept.bookmark_starts, e);
    } else if is_empty_tag(e, "w:bookmarkEnd") {
        lemma_push_block(s.kept.bookmark_ends, e);
    } else if !is_content(e) {
        lemma_push(s.out, e);
        assert(s.out.push(e)[0] == s.out[0]);
    }
}

/// A whole paragraph is a block.
proof fn lemma_filled(e: Ev, text: Seq<char>)
    requires
        is_empty_tag(e, "w:p"),
        is_token(e),
    ensures
        is_block(filled_paragraph(opened(e), text)),
        filled_paragraph(opened(e), text).len() > 0,
        filled_paragraph(opened(e), text)[0] == opened(e),
{
    lemma_opened(e);
    lemma_no_block();
    lemma_rewritten_block(text, nothing_kept());
    let inner = rewritten(text, nothing_kept());
    lemma_enclose(opened(e), inner, paragraph_end());
    assert(seq![opened(e)] + inner + seq![paragraph_end()] =~= filled_paragraph(opened(e), text));
}

/// The replacement keeps the form of a document.
proof fn lemma_form(events: Seq<Ev>, texts: Seq<Seq<char>>, n: int)
    requires
        well_formed(events),
        0 <= n <= events.len(),
    ensures
        in_form(rewrite_state(events.take(n), texts), events.take(n)),
    decreases n,
{
    let before = events.take(n);
    if n == 0 {
        lemma_no_block();
        assert(before =~= Seq::empty());
    } else {
        let shorter = events.take(n - 1);
        lemma_form(events, texts, n - 1);
        lemma_next(events, n - 1);
        let e = events[n - 1];
        let s = rewrite_state(shorter, texts);
        assert(before.drop_last() =~= shorter);
        assert(before == shorter.push(e));
        let done = rewrite_state(before, texts);
        assert(done == rewrite_step(s, texts, e));
        let names = open_names(shorter)->0;
        let outer = open_names(s.out)->0;
        if n == 1 {
            assert(shorter =~= Seq::empty());
            assert(s.out.len() == 0);
        }
        if s.depth == 0 {
            assert(!s.rewriting);
            if is_empty_tag(e, "w:p") && s.index < texts.len() {
                let more = filled_paragraph(opened(e), texts[s.index]);
                lemma_filled(e, texts[s.index]);
                lemma_append_block(s.out, more);
                assert(done.out.last() == more.last());
                if n > 1 {
                    assert(done.out[0] == s.out[0]);
                } else {
                    assert(done.out[0] == more[0]);
                }
            } else {
                lemma_push(s.out, e);
                if is_start(e, "w:p") {
                    lemma_no_block();
                    let now = open_names(done.out)->0;
                    assert(now == names.push(lit("w:p")));
                    assert(now.skip(now.len() as int) =~= Seq::empty());
                    assert(now.take(now.len() as int) =~= now);
                }
                if n > 1 {
                    assert(done.out[0] == s.out[0]);
                }
            }
        } else if is_end(e, "w:p") && s.depth == 1 {
            if s.rewriting {
                let rest = names.skip(outer.len() as int);
                if rest.len() > 0 {
                    assert(rest.last() == names.last());
                    lemma_count_name(rest.drop_last(), lit("w:p"));
                }
                assert(names =~= outer);
                let more = rewritten(texts[s.index], s.kept);
                lemma_rewritten_block(texts[s.index], s.kept);
                lemma_append_block(s.out, more);
                lemma_push(s.out + more, e);
                assert(done.out[0] == s.out[0]);
            } else {
                lemma_push(s.out, e);
                if n > 1 {
                    assert(done.out[0] == s.out[0]);
                }
            }
        } else if s.rewriting {
            lemma_inside_form(s, shorter, e);
        } else {
            lemma_push(s.out, e);
            if n > 1 {
                assert(done.out[0] == s.out[0]);
            }
        }
    }
}

/// An event that adds no text to a paragraph, and opens neither one nor a run of it nor its
/// properties.
pub open spec fn is_quiet(e: Ev) -> bool {
    &&& !is_start(e, "w:p")
    &&& !is_end(e, "w:p")
    &&& !is_start(e, "w:pPr")
    &&& !is_start(e, "w:r")
    &&& !is_end(e, "w:r")
    &&& !is_start(e, "w:t")
    &&& !is_end(e, "w:t")
    &&& !is_empty_tag(e, "w:tab")
    &&& !is_empty_tag(e, "w:br")
}

/// Every event is quiet.
pub open spec fn all_quiet(events: Seq<Ev>) -> bool {
    forall|i: int| 0 <= i < events.len() ==> is_quiet(#[trigger] events[i])
}

/// The texts of the paragraphs once the first of them have been replaced.
pub open spec fn with_first(old: Seq<Seq<char>>, texts: Seq<Seq<char>>) -> Seq<Seq<char>> {
    Seq::new(
        old.len(),
        |i: int|
            if i < texts.len() {
                texts[i]
            } else {
                old[i]
            },
    )
}

proof fn lemma_texts_push(events: Seq<Ev>, e: Ev)
    ensures
        texts_state(events.push(e)) == texts_step(texts_state(events), e),
{
    assert(events.push(e).drop_last() =~= events);
}

/// Quiet events leave an extraction as it is.
proof fn lemma_quiet(events: Seq<Ev>, more: Seq<Ev>)
    requires
        all_quiet(more),
        texts_state(events).depth == 1,
        texts_state(events).ppr_depth == 0,
        !texts_state(events).in_text,
    ensures
        texts_state(events + more) == texts_state(events),
    decreases more.len(),
{
    if more.len() == 0 {
        assert(events + more =~= events);
    } else {
        let init = more.drop_last();
        assert forall|i: int| 0 <= i < init.len() implies is_quiet(#[trigger] init[i]) by {
            assert(init[i] == more[i]);
        }
        lemma_quiet(events, init);
        assert(events + more =~= (events + init).push(more.last()));
        lemma_texts_push(events + init, more.last());
        assert(is_quiet(more[more.len() - 1]));
    }
}

proof fn lemma_quiet_names()
    ensures
        lit("w:pPr") != lit("w:p"),
        lit("w:pPr") != lit("w:t"),
        lit("w:pPr") != lit("w:r"),
        lit("w:pPr") != lit("w:tab"),
        lit("w:pPr") != lit("w:br"),
        lit("w:r") != lit("w:p"),
        lit("w:r") != lit("w:t"),
        lit("w:t") != lit("w:p"),
        lit("w:footnoteReference") != lit("w:tab"),
        lit("w:footnoteReference") != lit("w:br"),
        lit("w:bookmarkStart") != lit("w:tab"),
        lit("w:bookmarkStart") != lit("w:br"),
        lit("w:bookmarkEnd") != lit("w:tab"),
        lit("w:bookmarkEnd") != lit("w:br"),
{
    reveal_strlit("w:p");
    reveal_strlit("w:r");
    reveal_strlit("w:t");
    reveal_strlit("w:pPr");
    reveal_strlit("w:tab");
    reveal_strlit("w:br");
    reveal_strlit("w:footnoteReference");
    reveal_strlit("w:bookmarkStart");
    reveal_strlit("w:bookmarkEnd");
    is_ascii_chars_encode_utf8("w:p"@);
    is_ascii_chars_encode_utf8("w:r"@);
    is_ascii_chars_encode_utf8("w:t"@);
    is_ascii_chars_encode_utf8("w:pPr"@);
    is_ascii_chars_encode_utf8("w:tab"@);
    is_ascii_chars_encode_utf8("w:br"@);
    is_ascii_chars_encode_utf8("w:footnoteReference"@);
    is_ascii_chars_encode_utf8("w:bookmarkStart"@);
    is_ascii_chars_encode_utf8("w:bookmarkEnd"@);
    assert(lit("w:p")[2] != lit("w:r")[2]);
    assert(lit("w:p")[2] != lit("w:t")[2]);
    assert(lit("w:r")[2] != lit("w:t")[2]);
    assert(lit("w:pPr")[2] != lit("w:tab")[2]);
}

/// The properties of a paragraph leave an extraction as it is.
proof fn lemma_skip_ppr(events: Seq<Ev>, element: Seq<Ev>, i: int)
    requires
        is_element(element, "w:pPr"),
        texts_state(events).depth == 1,
        texts_state(events).ppr_depth == 0,
        texts_state(events).runs == 0,
        0 < i <= element.len(),
    ensures
        texts_state(events + element.take(i)) == (TextsView {
            depth: 1 + count_name(open_names(element.take(i))->0, lit("w:p")),
            ppr_depth: open_names(element.take(i))->0.len() as int,
            ..texts_state(events)
        }),
    decreases i,
{
    lemma_quiet_names();
    if i == 1 {
        let e = element[0];
        lemma_next(element, 0);
        assert(element.take(0) =~= Seq::empty());
        assert(events + element.take(1) =~= events.push(e));
        lemma_texts_push(events, e);
        let names = open_names(element.take(1))->0;
        assert(names =~= seq![lit("w:pPr")]);
        assert(names.drop_last() =~= Seq::empty());
        reveal_with_fuel(count_name, 2);
    } else {
        lemma_skip_ppr(events, element, i - 1);
        lemma_inner_names(element, "w:pPr", i - 1);
        lemma_count_name(open_names(element.take(i - 1))->0, lit("w:p"));
        let e = element[i - 1];
        let before = events + element.take(i - 1);
        assert(events + element.take(i) =~= before.push(e));
        lemma_texts_push(before, e);
    }
}

/// Kept properties leave an extraction as it is.
proof fn lemma_skip_properties(events: Seq<Ev>, ppr: Seq<Ev>)
    requires
        ppr.len() == 0 || is_whole(ppr, "w:pPr"),
        texts_state(events).depth == 1,
        texts_state(events).ppr_depth == 0,
        texts_state(events).runs == 0,
    ensures
        texts_state(events + ppr) == texts_state(events),
{
    lemma_quiet_names();
    if ppr.len() == 0 {
        assert(events + ppr =~= events);
    } else if is_element(ppr, "w:pPr") {
        let n = ppr.len() as int;
        lemma_skip_ppr(events, ppr, n);
        assert(ppr.take(n) =~= ppr);
    } else {
        assert(events + ppr =~= events.push(ppr[0]));
        lemma_texts_push(events, ppr[0]);
    }
}

/// Nothing that is kept adds text.
spec fn keeps_quiet(k: KeptView) -> bool {
    (k.ppr.len() == 0 || is_whole(k.ppr, "w:pPr")) && all_quiet(k.bookmark_starts) && all_quiet(k.footnote_refs) && all_quiet(
        k.bookmark_ends,
    )
}

/// The contents of a rewritten paragraph have the text that was put there.
#[verifier::rlimit(40)]
proof fn lemma_rewritten_text(events: Seq<Ev>, text: Seq<char>, k: KeptView)
    requires
        keeps_quiet(k),
        text_reads_back(text),
        texts_state(events).depth == 1,
        texts_state(events).ppr_depth == 0,
        texts_state(events).runs == 0,
        texts_state(events).current == Seq::<char>::empty(),
        !texts_state(events).in_text,
    ensures
        texts_state(events + rewritten(text, k)) == (TextsView {
            current: text,
            ..texts_state(events)
        }),
{
    lemma_quiet_names();
    lemma_run_tags();
    let u = texts_state(events);
    let open_run = tag(EventKind::Start, "w:r");
    let open_text = tag(EventKind::Start, "w:t xml:space=\"preserve\"");
    let close_text = tag(EventKind::End, "w:t");
    let close_run = tag(EventKind::End, "w:r");
    lemma_skip_properties(events, k.ppr);
    let a = events + k.ppr;
    lemma_quiet(a, k.bookmark_starts);
    let b = a + k.bookmark_starts;
    lemma_texts_push(b, open_run);
    let c = b.push(open_run);
    assert(texts_state(c) == (TextsView { runs: 1, ..u }));
    lemma_texts_push(c, open_text);
    let d = c.push(open_text);
    assert(texts_state(d) == (TextsView { runs: 1, in_text: true, ..u }));
    let f = d + escaped_events(text);
    if text.len() > 0 {
        let t = escaped_events(text)[0];
        assert(f =~= d.push(t));
        lemma_texts_push(d, t);
        assert(u.current + text =~= text);
    } else {
        assert(f =~= d);
        assert(u.current =~= text);
    }
    assert(texts_state(f) == (TextsView { runs: 1, in_text: true, current: text, ..u }));
    lemma_texts_push(f, close_text);
    let g = f.push(close_text);
    let v = TextsView { current: text, ..u };
    assert(texts_state(g) == (TextsView { runs: 1, ..v }));
    lemma_quiet(g, k.footnote_refs);
    let h = g + k.footnote_refs;
    lemma_texts_push(h, close_run);
    let l = h.push(close_run);
    assert(texts_state(l) == v);
    lemma_quiet(l, k.bookmark_ends);
    assert(events + rewritten(text, k) =~= l + k.bookmark_ends);
}

/// How the texts of what has been written relate to those of what has been read.
spec fn in_step(s: RewriteView, before: Seq<Ev>, texts: Seq<Seq<char>>) -> bool {
    let t = texts_state(before);
    let u = texts_state(s.out);
    &&& s.depth == t.depth
    &&& s.index == t.done.len()
    &&& u.done == with_first(t.done, texts)
    &&& if s.rewriting {
        &&& s.index < texts.len()
        &&& s.depth >= 1
        &&& u.depth == 1
        &&& u.ppr_depth == 0
        &&& u.runs == 0
        &&& u.current == Seq::<char>::empty()
        &&& !u.in_text
        &&& keeps_quiet(s.kept)
    } else {
        &&& u.depth == t.depth
        &&& s.depth >= 1 ==> u == (TextsView { done: u.done, ..t }) && s.index >= texts.len()
    }
}

proof fn lemma_quiet_push(events: Seq<Ev>, e: Ev)
    requires
        all_quiet(events),
        is_quiet(e),
    ensures
        all_quiet(events.push(e)),
{
    assert forall|i: int| 0 <= i < events.len() + 1 implies is_quiet(
        #[trigger] events.push(e)[i],
    ) by {
        if i < events.len() {
            assert(events.push(e)[i] == events[i]);
        }
    }
}

/// The replacement and the extraction go in step.
proof fn lemma_in_step(events: Seq<Ev>, texts: Seq<Seq<char>>, n: int)
    requires
        well_formed(events),
        texts_read_back(texts, rewrite_state(events.take(n), texts).index),
        0 <= n <= events.len(),
    ensures
        in_step(rewrite_state(events.take(n), texts), events.take(n), texts),
    decreases n,
{
    let before = events.take(n);
    if n == 0 {
        assert(before =~= Seq::empty());
        assert(with_first(Seq::empty(), texts) =~= Seq::empty());
    } else {
        let shorter = events.take(n - 1);
        let e = events[n - 1];
        assert(before =~= shorter.push(e));
        assert(before.drop_last() =~= shorter);
        let s = rewrite_state(shorter, texts);
        let done = rewrite_state(before, texts);
        assert(done == rewrite_step(s, texts, e));
        lemma_in_step(events, texts, n - 1);
        lemma_form(events, texts, n - 1);
        lemma_texts_push(shorter, e);
        lemma_quiet_names();
        let t = texts_state(shorter);
        let u = texts_state(s.out);
        if s.depth == 0 {
            assert(!s.rewriting);
            let t2 = texts_state(before);
            if is_empty_tag(e, "w:p") && s.index < texts.len() {
                lemma_next(events, n - 1);
                lemma_opened(e);
                let start = opened(e);
                let text = texts[s.index];
                assert(text_reads_back(text));
                lemma_texts_push(s.out, start);
                lemma_rewritten_text(s.out.push(start), text, nothing_kept());
                let filled = s.out.push(start) + rewritten(text, nothing_kept());
                lemma_texts_push(filled, paragraph_end());
                assert(done.out =~= filled.push(paragraph_end()));
                assert(with_first(t2.done, texts) =~= with_first(t.done, texts).push(text));
            } else {
                lemma_texts_push(s.out, e);
                if is_empty_tag(e, "w:p") {
                    assert(with_first(t2.done, texts) =~= with_first(t.done, texts).push(
                        Seq::empty(),
                    ));
                }
            }
        } else if is_end(e, "w:p") && s.depth == 1 {
            let t2 = texts_state(before);
            assert(t2.done == t.done.push(t.current));
            if s.rewriting {
                assert(text_reads_back(texts[s.index]));
                lemma_rewritten_text(s.out, texts[s.index], s.kept);
                lemma_texts_push(s.out + rewritten(texts[s.index], s.kept), e);
                assert(with_first(t2.done, texts) =~= with_first(t.done, texts).push(
                    texts[s.index],
                ));
            } else {
                lemma_texts_push(s.out, e);
                assert(with_first(t2.done, texts) =~= with_first(t.done, texts).push(t.current));
            }
        } else if s.rewriting {
            if s.ppr_depth >= 1 {
                lemma_next(events, n - 1);
                lemma_part_next(s.ppr, s.ppr_depth, "w:pPr", shorter, e);
            } else if is_empty_tag(e, "w:pPr") && s.depth == 1 {
                lemma_next(events, n - 1);
                assert(is_whole(seq![e], "w:pPr"));
            } else if is_empty_tag(e, "w:footnoteReference") {
                lemma_quiet_push(s.kept.footnote_refs, e);
            } else if is_empty_tag(e, "w:bookmarkStart") {
                lemma_quiet_push(s.kept.bookmark_starts, e);
            } else if is_empty_tag(e, "w:bookmarkEnd") {
                lemma_quiet_push(s.kept.bookmark_ends, e);
            } else if !is_content(e) {
                lemma_texts_push(s.out, e);
            }
            lemma_next(events, n - 1);
            lemma_spans(shorter, e, open_names(s.out)->0, s.depth);
        } else {
            lemma_texts_push(s.out, e);
        }
    }
}

/// What [`replace_paragraph_texts`] does to the parts of a package, as `after` shows.
pub open spec fn texts_replaced(before: Parts, texts: Seq<Seq<char>>, after: Parts) -> bool {
    match part(before, PART_DOCUMENT@) {
        None => after == before,
        Some(doc) => if xml_readable(doc) {
            &&& after == with_part(before, PART_DOCUMENT@, with_texts(xml_events(doc), texts))
            &&& well_formed(xml_events(doc))
            &&& texts_read_back(texts, rewrite_state(xml_events(doc), texts).index)
        } else {
            after == before
        },
    }
}

/// What [`extract_paragraph_texts`] finds in the parts of a package.
pub open spec fn texts_extracted(parts: Parts, res: Result<Vec<String>, Error>) -> bool {
    match part(parts, PART_DOCUMENT@) {
        None => res is Err && is_missing_document(res->Err_0),
        Some(doc) => {
            &&& is_read(doc)
            &&& if xml_readable(doc) {
                res is Ok && texts_view(res->Ok_0@) == paragraph_texts(xml_events(doc))
            } else {
                res is Err && res->Err_0.is_xml_parse(PART_DOCUMENT@)
            }
        },
    }
}

/// The texts that are written are read back: in a document whose first paragraphs have
/// been given new texts, these are the texts of those paragraphs, and the others have
/// the texts they had. A document that starts with a second byte order mark is left out.
pub proof fn law_texts_are_read_back(
    before: Parts,
    texts: Seq<Seq<char>>,
    after: Parts,
    res: Result<Vec<String>, Error>,
)
    requires
        part(before, PART_DOCUMENT@) is Some,
        xml_readable(part(before, PART_DOCUMENT@)->0),
        !starts_with_mark(xml_events(part(before, PART_DOCUMENT@)->0)),
        texts_replaced(before, texts, after),
        texts_extracted(after, res),
    ensures
        res is Ok,
        texts_view(res->Ok_0@) == with_first(
            paragraph_texts(xml_events(part(before, PART_DOCUMENT@)->0)),
            texts,
        ),
{
    let doc = part(before, PART_DOCUMENT@)->0;
    let events = xml_events(doc);
    let n = events.len() as int;
    assert(events.take(n) =~= events);
    lemma_form(events, texts, n);
    lemma_in_step(events, texts, n);
    let written = events_with_texts(events, texts);
    lemma_with_part(before, PART_DOCUMENT@, emitted_all(written));
    assert(part(after, PART_DOCUMENT@) == Some(emitted_all(written)));
    if n == 0 {
        assert(events =~= Seq::empty());
    }
    assert(reads_back(written));
}

// ---------------------------------------------------------------------------
// What a replacement keeps
// ---------------------------------------------------------------------------

/// How far the survey of properties, references and bookmarks has come.
#[verifier::ext_equal]
pub struct KeepsView {
    /// What the complete body paragraphs hold besides their text.
    pub done: Seq<KeptView>,
    /// How many paragraphs are open.
    pub depth: int,
    /// What the outermost open paragraph holds so far.
    pub kept: KeptView,
    /// How many elements are open in its properties, and their events so far.
    pub ppr_depth: int,
    pub ppr: Seq<Ev>,
}

/// What one event inside a paragraph does to the survey.
pub open spec fn keeps_inside(s: KeepsView, e: Ev) -> KeepsView {
    if s.ppr_depth >= 1 {
        if depth_after(s.ppr_depth, e) == 0 {
            KeepsView {
                ppr_depth: 0,
                ppr: Seq::empty(),
                kept: KeptView { ppr: s.ppr.push(e), ..s.kept },
                ..s
            }
        } else {
            KeepsView { ppr_depth: depth_after(s.ppr_depth, e), ppr: s.ppr.push(e), ..s }
        }
    } else if is_start(e, "w:pPr") && s.depth == 1 {
        KeepsView { ppr_depth: 1, ppr: seq![e], ..s }
    } else if is_empty_tag(e, "w:pPr") && s.depth == 1 {
        KeepsView { kept: KeptView { ppr: seq![e], ..s.kept }, ..s }
    } else if is_empty_tag(e, "w:footnoteReference") {
        KeepsView {
            kept: KeptView { footnote_refs: s.kept.footnote_refs.push(e), ..s.kept },
            ..s
        }
    } else if is_empty_tag(e, "w:bookmarkStart") {
        KeepsView {
            kept: KeptView { bookmark_starts: s.kept.bookmark_starts.push(e), ..s.kept },
            ..s
        }
    } else if is_empty_tag(e, "w:bookmarkEnd") {
        KeepsView {
            kept: KeptView { bookmark_ends: s.kept.bookmark_ends.push(e), ..s.kept },
            ..s
        }
    } else {
        s
    }
}

/// What one event does to the survey.
pub open spec fn keeps_step(s: KeepsView, e: Ev) -> KeepsView {
    if s.depth == 0 {
        if is_start(e, "w:p") {
            KeepsView {
                depth: 1,
                kept: nothing_kept(),
                ppr_depth: 0,
                ppr: Seq::empty(),
                ..s
            }
        } else if is_empty_tag(e, "w:p") {
            KeepsView { done: s.done.push(nothing_kept()), ..s }
        } else {
            s
        }
    } else if is_end(e, "w:p") && s.depth == 1 {
        KeepsView { done: s.done.push(s.kept), depth: 0, ..s }
    } else {
        keeps_inside(KeepsView { depth: paragraphs_open(s.depth, e), ..s }, e)
    }
}

/// The survey after `events`.
pub open spec fn keeps_state(events: Seq<Ev>) -> KeepsView
    decreases events.len(),
{
    if events.len() == 0 {
        KeepsView {
            done: Seq::empty(),
            depth: 0,
            kept: nothing_kept(),
            ppr_depth: 0,
            ppr: Seq::empty(),
        }
    } else {
        keeps_step(keeps_state(events.drop_last()), events.last())
    }
}

/// The properties, references and bookmarks of each body paragraph among `events`.
pub open spec fn paragraph_holdings(events: Seq<Ev>) -> Seq<KeptView> {
    keeps_state(events).done
}

proof fn lemma_keeps_push(events: Seq<Ev>, e: Ev)
    ensures
        keeps_state(events.push(e)) == keeps_step(keeps_state(events), e),
{
    assert(events.push(e).drop_last() =~= events);
}

/// Every event is an empty tag with the given name.
spec fn all_tags(events: Seq<Ev>, name: &str) -> bool {
    forall|i: int| 0 <= i < events.len() ==> is_empty_tag(#[trigger] events[i], name)
}

proof fn lemma_all_tags_push(events: Seq<Ev>, name: &str, e: Ev)
    requires
        all_tags(events, name),
        is_empty_tag(e, name),
    ensures
        all_tags(events.push(e), name),
{
    assert forall|i: int| 0 <= i < events.len() + 1 implies is_empty_tag(
        #[trigger] events.push(e)[i],
        name,
    ) by {
        if i < events.len() {
            assert(events.push(e)[i] == events[i]);
        }
    }
}

/// What is kept is in its place.
spec fn keeps_in_place(k: KeptView) -> bool {
    &&& k.ppr.len() == 0 || is_whole(k.ppr, "w:pPr")
    &&& all_tags(k.bookmark_starts, "w:bookmarkStart")
    &&& all_tags(k.footnote_refs, "w:footnoteReference")
    &&& all_tags(k.bookmark_ends, "w:bookmarkEnd")
}

proof fn lemma_kept_names()
    ensures
        lit("w:footnoteReference") != lit("w:pPr"),
        lit("w:bookmarkStart") != lit("w:pPr"),
        lit("w:bookmarkEnd") != lit("w:pPr"),
        lit("w:footnoteReference") != lit("w:bookmarkStart"),
        lit("w:footnoteReference") != lit("w:bookmarkEnd"),
        lit("w:bookmarkStart") != lit("w:bookmarkEnd"),
{
    reveal_strlit("w:pPr");
    reveal_strlit("w:footnoteReference");
    reveal_strlit("w:bookmarkStart");
    reveal_strlit("w:bookmarkEnd");
    is_ascii_chars_encode_utf8("w:pPr"@);
    is_ascii_chars_encode_utf8("w:footnoteReference"@);
    is_ascii_chars_encode_utf8("w:bookmarkStart"@);
    is_ascii_chars_encode_utf8("w:bookmarkEnd"@);
    assert(lit("w:bookmarkStart").len() != lit("w:bookmarkEnd").len());
    assert(lit("w:footnoteReference").len() != lit("w:bookmarkEnd").len());
    assert(lit("w:footnoteReference").len() != lit("w:bookmarkStart").len());
    assert(lit("w:pPr").len() == 5);
}

/// Bookmarks and references behind what has been surveyed.
#[verifier::rlimit(40)]
proof fn lemma_keep_tags(events: Seq<Ev>, more: Seq<Ev>, name: &str)
    requires
        name == "w:bookmarkStart" || name == "w:footnoteReference" || name == "w:bookmarkEnd",
        all_tags(more, name),
        keeps_state(events).depth == 1,
        keeps_state(events).ppr_depth == 0,
    ensures
        ({
            let s = keeps_state(events);
            keeps_state(events + more) == (KeepsView {
                kept: if name == "w:bookmarkStart" {
                    KeptView { bookmark_starts: s.kept.bookmark_starts + more, ..s.kept }
                } else if name == "w:footnoteReference" {
                    KeptView { footnote_refs: s.kept.footnote_refs + more, ..s.kept }
                } else {
                    KeptView { bookmark_ends: s.kept.bookmark_ends + more, ..s.kept }
                },
                ..s
            })
        }),
    decreases more.len(),
{
    let s = keeps_state(events);
    lemma_kept_names();
    lemma_quiet_names();
    if more.len() == 0 {
        assert(events + more =~= events);
        assert(s.kept.bookmark_starts + more =~= s.kept.bookmark_starts);
        assert(s.kept.footnote_refs + more =~= s.kept.footnote_refs);
        assert(s.kept.bookmark_ends + more =~= s.kept.bookmark_ends);
    } else {
        let init = more.drop_last();
        let e = more.last();
        assert forall|i: int| 0 <= i < init.len() implies is_empty_tag(#[trigger] init[i], name) by {
            assert(init[i] == more[i]);
        }
        assert(is_empty_tag(more[more.len() - 1], name));
        lemma_keep_tags(events, init, name);
        assert(events + more =~= (events + init).push(e));
        lemma_keeps_push(events + init, e);
        assert(s.kept.bookmark_starts + more =~= (s.kept.bookmark_starts + init).push(e));
        assert(s.kept.footnote_refs + more =~= (s.kept.footnote_refs + init).push(e));
        assert(s.kept.bookmark_ends + more =~= (s.kept.bookmark_ends + init).push(e));
    }
}

/// Part of the properties of a paragraph behind what has been surveyed.
proof fn lemma_keep_ppr(events: Seq<Ev>, element: Seq<Ev>, i: int)
    requires
        is_element(element, "w:pPr"),
        keeps_state(events).depth == 1,
        keeps_state(events).ppr_depth == 0,
        0 < i < element.len(),
    ensures
        keeps_state(events + element.take(i)) == (KeepsView {
            depth: 1 + count_name(open_names(element.take(i))->0, lit("w:p")),
            ppr_depth: open_names(element.take(i))->0.len() as int,
            ppr: element.take(i),
            ..keeps_state(events)
        }),
    decreases i,
{
    lemma_quiet_names();
    if i == 1 {
        let e = element[0];
        lemma_next(element, 0);
        assert(element.take(0) =~= Seq::empty());
        assert(element.take(1) =~= seq![e]);
        assert(events + element.take(1) =~= events.push(e));
        lemma_keeps_push(events, e);
        let names = open_names(element.take(1))->0;
        assert(names =~= seq![lit("w:pPr")]);
        assert(names.drop_last() =~= Seq::empty());
        reveal_with_fuel(count_name, 2);
    } else {
        lemma_keep_ppr(events, element, i - 1);
        lemma_inner_names(element, "w:pPr", i - 1);
        lemma_count_name(open_names(element.take(i - 1))->0, lit("w:p"));
        let e = element[i - 1];
        let before = events + element.take(i - 1);
        assert(events + element.take(i) =~= before.push(e));
        assert(element.take(i) =~= element.take(i - 1).push(e));
        lemma_keeps_push(before, e);
    }
}

/// The properties of a paragraph behind what has been surveyed.
#[verifier::rlimit(40)]
proof fn lemma_keep_properties(events: Seq<Ev>, ppr: Seq<Ev>)
    requires
        ppr.len() == 0 || is_whole(ppr, "w:pPr"),
        keeps_state(events).depth == 1,
        keeps_state(events).ppr_depth == 0,
        keeps_state(events).ppr.len() == 0,
        keeps_state(events).kept.ppr.len() == 0,
    ensures
        keeps_state(events + ppr) == (KeepsView {
            kept: KeptView { ppr, ..keeps_state(events).kept },
            ..keeps_state(events)
        }),
{
    lemma_quiet_names();
    let s = keeps_state(events);
    if ppr.len() == 0 {
        assert(events + ppr =~= events);
        assert(s.kept.ppr =~= ppr);
    } else if is_element(ppr, "w:pPr") {
        let n = ppr.len() as int;
        lemma_keep_ppr(events, ppr, n - 1);
        lemma_inner_names(ppr, "w:pPr", n - 1);
        lemma_count_name(open_names(ppr.take(n - 1))->0, lit("w:p"));
        let e = ppr[n - 1];
        let before = events + ppr.take(n - 1);
        assert(events + ppr =~= before.push(e));
        assert(ppr =~= ppr.take(n - 1).push(e));
        lemma_keeps_push(before, e);
        assert(s.ppr =~= Seq::empty());
        assert(ppr.take(n) =~= ppr);
        assert(open_names(ppr)->0 =~= Seq::empty());
    } else {
        assert(events + ppr =~= events.push(ppr[0]));
        lemma_keeps_push(events, ppr[0]);
        assert(ppr =~= seq![ppr[0]]);
    }
}

/// A rewritten paragraph holds what was kept.
#[verifier::rlimit(60)]
#[verifier::spinoff_prover]
proof fn lemma_rewritten_holds(events: Seq<Ev>, text: Seq<char>, k: KeptView)
    requires
        keeps_in_place(k),
        keeps_state(events).depth == 1,
        keeps_state(events).ppr_depth == 0,
        keeps_state(events).ppr.len() == 0,
        keeps_state(events).kept == nothing_kept(),
    ensures
        keeps_state(events + rewritten(text, k)) == (KeepsView { kept: k, ..keeps_state(events) }),
{
    lemma_quiet_names();
    lemma_kept_names();
    lemma_run_tags();
    let u = keeps_state(events);
    let open_run = tag(EventKind::Start, "w:r");
    let open_text = tag(EventKind::Start, "w:t xml:space=\"preserve\"");
    let close_text = tag(EventKind::End, "w:t");
    let close_run = tag(EventKind::End, "w:r");
    lemma_keep_properties(events, k.ppr);
    let a = events + k.ppr;
    lemma_keep_tags(a, k.bookmark_starts, "w:bookmarkStart");
    let b = a + k.bookmark_starts;
    lemma_keeps_push(b, open_run);
    let c = b.push(open_run);
    lemma_keeps_push(c, open_text);
    let d = c.push(open_text);
    let f = d + escaped_events(text);
    if text.len() > 0 {
        let t = escaped_events(text)[0];
        assert(f =~= d.push(t));
        lemma_keeps_push(d, t);
    } else {
        assert(f =~= d);
    }
    lemma_keeps_push(f, close_text);
    let g = f.push(close_text);
    assert(keeps_state(g) == keeps_state(b));
    lemma_keep_tags(g, k.footnote_refs, "w:footnoteReference");
    let h = g + k.footnote_refs;
    lemma_keeps_push(h, close_run);
    let l = h.push(close_run);
    lemma_keep_tags(l, k.bookmark_ends, "w:bookmarkEnd");
    assert(events + rewritten(text, k) =~= l + k.bookmark_ends);
    let none = Seq::<Ev>::empty();
    assert(none + k.bookmark_starts =~= k.bookmark_starts);
    assert(none + k.footnote_refs =~= k.footnote_refs);
    assert(none + k.bookmark_ends =~= k.bookmark_ends);
}

/// How what the written paragraphs hold relates to what the read ones hold.
spec fn in_keeping(s: RewriteView, before: Seq<Ev>) -> bool {
    let k = keeps_state(before);
    let u = keeps_state(s.out);
    &&& s.depth == k.depth
    &&& u.done == k.done
    &&& if s.rewriting {
        &&& s.depth >= 1
        &&& u.depth == 1
        &&& u.ppr_depth == 0
        &&& u.ppr.len() == 0
        &&& u.kept == nothing_kept()
        &&& s.kept == k.kept
        &&& s.ppr_depth == k.ppr_depth
        &&& s.ppr == k.ppr
        &&& keeps_in_place(s.kept)
    } else {
        &&& u.depth == k.depth
        &&& s.depth >= 1 ==> u == k
    }
}

/// The replacement and the survey go in step.
#[verifier::rlimit(60)]
#[verifier::spinoff_prover]
proof fn lemma_in_keeping(events: Seq<Ev>, texts: Seq<Seq<char>>, n: int)
    requires
        well_formed(events),
        0 <= n <= events.len(),
    ensures
        in_keeping(rewrite_state(events.take(n), texts), events.take(n)),
    decreases n,
{
    let before = events.take(n);
    if n == 0 {
        assert(before =~= Seq::empty());
    } else {
        let shorter = events.take(n - 1);
        let e = events[n - 1];
        assert(before =~= shorter.push(e));
        assert(before.drop_last() =~= shorter);
        let s = rewrite_state(shorter, texts);
        let done = rewrite_state(before, texts);
        assert(done == rewrite_step(s, texts, e));
        lemma_in_keeping(events, texts, n - 1);
        lemma_form(events, texts, n - 1);
        lemma_next(events, n - 1);
        lemma_keeps_push(shorter, e);
        lemma_quiet_names();
        lemma_kept_names();
        if s.depth == 0 {
            assert(!s.rewriting);
            if is_empty_tag(e, "w:p") && s.index < texts.len() {
                lemma_opened(e);
                let start = opened(e);
                let text = texts[s.index];
                lemma_keeps_push(s.out, start);
                lemma_rewritten_holds(s.out.push(start), text, nothing_kept());
                let filled = s.out.push(start) + rewritten(text, nothing_kept());
                lemma_keeps_push(filled, paragraph_end());
                assert(done.out =~= filled.push(paragraph_end()));
            } else {
                lemma_keeps_push(s.out, e);
            }
        } else if is_end(e, "w:p") && s.depth == 1 {
            if s.rewriting {
                lemma_rewritten_holds(s.out, texts[s.index], s.kept);
                lemma_keeps_push(s.out + rewritten(texts[s.index], s.kept), e);
            } else {
                lemma_keeps_push(s.out, e);
            }
        } else if s.rewriting {
            if s.ppr_depth >= 1 {
                lemma_part_next(s.ppr, s.ppr_depth, "w:pPr", shorter, e);
            } else if is_empty_tag(e, "w:pPr") && s.depth == 1 {
                assert(is_whole(seq![e], "w:pPr"));
            } else if is_empty_tag(e, "w:footnoteReference") {
                lemma_all_tags_push(s.kept.footnote_refs, "w:footnoteReference", e);
            } else if is_empty_tag(e, "w:bookmarkStart") {
                lemma_all_tags_push(s.kept.bookmark_starts, "w:bookmarkStart", e);
            } else if is_empty_tag(e, "w:bookmarkEnd") {
                lemma_all_tags_push(s.kept.bookmark_ends, "w:bookmarkEnd", e);
            } else if !is_content(e) {
                lemma_keeps_push(s.out, e);
            }
            lemma_spans(shorter, e, open_names(s.out)->0, s.depth);
        } else {
            lemma_keeps_push(s.out, e);
        }
    }
}

/// Replacing texts keeps the properties, the references and the bookmarks of every
/// paragraph, each kind in its order: the document that is read afterwards holds in each
/// paragraph what it held before. A document that starts with a second byte order mark is
/// left out.
pub proof fn law_holdings_are_kept(before: Parts, texts: Seq<Seq<char>>, after: Parts)
    requires
        part(before, PART_DOCUMENT@) is Some,
        xml_readable(part(before, PART_DOCUMENT@)->0),
        !starts_with_mark(xml_events(part(before, PART_DOCUMENT@)->0)),
        texts_replaced(before, texts, after),
        part(after, PART_DOCUMENT@) matches Some(doc) ==> is_read(doc),
    ensures
        part(after, PART_DOCUMENT@) is Some,
        xml_readable(part(after, PART_DOCUMENT@)->0),
        paragraph_holdings(xml_events(part(after, PART_DOCUMENT@)->0)) == paragraph_holdings(
            xml_events(part(before, PART_DOCUMENT@)->0),
        ),
{
    let doc = part(before, PART_DOCUMENT@)->0;
    let events = xml_events(doc);
    let n = events.len() as int;
    assert(events.take(n) =~= events);
    lemma_form(events, texts, n);
    lemma_in_keeping(events, texts, n);
    let written = events_with_texts(events, texts);
    lemma_with_part(before, PART_DOCUMENT@, emitted_all(written));
    assert(part(after, PART_DOCUMENT@) == Some(emitted_all(written)));
    if n == 0 {
        assert(events =~= Seq::empty());
    }
    assert(reads_back(written));
}

/// Replaces the visible text of the body paragraphs by the texts given, one for one.
/// Paragraphs beyond the texts stay as they are.
pub fn replace_paragraph_texts(pkg: &mut Package, new_texts: &[String]) -> (res: Result<(), Error>)
    ensures
        final(pkg).source_view() == old(pkg).source_view(),
        texts_replaced(old(pkg)@, texts_view(new_texts@), final(pkg)@),
        match part(old(pkg)@, PART_DOCUMENT@) {
            None => res is Err && is_missing_document(res->Err_0),
            Some(doc) => if xml_readable(doc) {
                res is Ok
            } else {
                res is Err && res->Err_0.is_xml_parse(PART_DOCUMENT@)
            },
        },
{
    let out = match pkg.get_part(PART_DOCUMENT) {
        None => return Err(missing_document()),
        Some(doc) => {
            let events = parse_events(doc, PART_DOCUMENT)?;
            replace_texts_in_events(&events, new_texts)
        },
    };
    pkg.set_part(PART_DOCUMENT, out);
    Ok(())
}

} // verus!
