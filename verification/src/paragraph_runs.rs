//! Run-level paragraph I/O.
//!
//! Every body paragraph is surfaced with its individual runs, each with its
//! verbatim run properties, so that a caller can transform them piecewise and the
//! result can be stitched back together. Things that are not looked into (paragraph
//! properties, run properties, bookmarks) are carried as opaque bytes.

use vstd::prelude::*;
use vstd::utf8::*;

use crate::bytes::{lit, push_all, push_str};
use crate::error::Error;
use crate::ns::PART_DOCUMENT;
use crate::package::{part, with_part, Package, Parts};
use crate::xml::{
    emit, emit_raw, emitted, emitted_all, escape_text, escaped, events_view, is_empty_tag, is_end,
    is_read, is_start, name_end, parse_events, tag_name, text_unescaped, unescape_text,
    xml_events, xml_readable, Ev, EventKind, XmlEvent,
};
use crate::wellformed::{
    depth_after, is_block, is_token, lemma_emitted_concat, lemma_emitted_one, lemma_enclose,
    lemma_no_block, lemma_plain_scan, lemma_quoted_scan, lemma_text_token, opened, paragraph_end,
    paragraphs_open, tag, well_formed,
};

verus! {

/// One run inside a paragraph.
#[derive(Debug)]
pub struct Run {
    /// The text of the run, with `\t` for a tab and `\n` for a line break.
    pub text: String,
    /// Verbatim `<w:rPr>..</w:rPr>` bytes, if present.
    pub rpr_xml: Option<Vec<u8>>,
    /// The `<w:footnoteReference ../>` elements of the run, in order.
    pub footnote_refs: Vec<Vec<u8>>,
}

/// A body paragraph at run granularity.
#[derive(Debug)]
pub struct ParagraphInfo {
    /// Verbatim `<w:pPr>..</w:pPr>` bytes, if present.
    pub ppr_xml: Option<Vec<u8>>,
    /// The runs of the paragraph, in document order.
    pub runs: Vec<Run>,
    /// The `<w:bookmarkStart ../>` elements before the first run.
    pub leading_bookmark_starts: Vec<Vec<u8>>,
    /// The bookmark elements after that.
    pub trailing_bookmark_ends: Vec<Vec<u8>>,
}

/// What a run says.
#[verifier::ext_equal]
pub struct RunView {
    pub text: Seq<char>,
    pub rpr_xml: Option<Seq<u8>>,
    pub footnote_refs: Seq<Seq<u8>>,
}

/// What a paragraph says.
#[verifier::ext_equal]
pub struct ParagraphView {
    pub ppr_xml: Option<Seq<u8>>,
    pub runs: Seq<RunView>,
    pub leading_bookmark_starts: Seq<Seq<u8>>,
    pub trailing_bookmark_ends: Seq<Seq<u8>>,
}

/// The bytes of an optional vector.
pub open spec fn opt_bytes(o: Option<Vec<u8>>) -> Option<Seq<u8>> {
    match o {
        Some(v) => Some(v@),
        None => None,
    }
}

/// The byte strings of a vector of vectors.
pub open spec fn byte_strings(v: Seq<Vec<u8>>) -> Seq<Seq<u8>> {
    v.map_values(|b: Vec<u8>| b@)
}

impl View for Run {
    type V = RunView;

    open spec fn view(&self) -> RunView {
        RunView {
            text: self.text@,
            rpr_xml: opt_bytes(self.rpr_xml),
            footnote_refs: byte_strings(self.footnote_refs@),
        }
    }
}

/// What a vector of runs says.
pub open spec fn runs_view(v: Seq<Run>) -> Seq<RunView> {
    v.map_values(|r: Run| r@)
}

impl View for ParagraphInfo {
    type V = ParagraphView;

    open spec fn view(&self) -> ParagraphView {
        ParagraphView {
            ppr_xml: opt_bytes(self.ppr_xml),
            runs: runs_view(self.runs@),
            leading_bookmark_starts: byte_strings(self.leading_bookmark_starts@),
            trailing_bookmark_ends: byte_strings(self.trailing_bookmark_ends@),
        }
    }
}

/// What a vector of paragraphs says.
pub open spec fn paragraphs_view(v: Seq<ParagraphInfo>) -> Seq<ParagraphView> {
    v.map_values(|p: ParagraphInfo| p@)
}

/// A run with nothing in it.
pub open spec fn blank_run() -> RunView {
    RunView { text: Seq::empty(), rpr_xml: None, footnote_refs: Seq::empty() }
}

/// A paragraph with nothing in it.
pub open spec fn blank_paragraph() -> ParagraphView {
    ParagraphView {
        ppr_xml: None,
        runs: Seq::empty(),
        leading_bookmark_starts: Seq::empty(),
        trailing_bookmark_ends: Seq::empty(),
    }
}

impl Default for Run {
    fn default() -> (r: Self)
        ensures
            r@ == blank_run(),
    {
        let r = Run { text: String::new(), rpr_xml: None, footnote_refs: Vec::new() };
        assert(r@ =~= blank_run());
        r
    }
}

impl Default for ParagraphInfo {
    fn default() -> (r: Self)
        ensures
            r@ == blank_paragraph(),
    {
        let r = ParagraphInfo {
            ppr_xml: None,
            runs: Vec::new(),
            leading_bookmark_starts: Vec::new(),
            trailing_bookmark_ends: Vec::new(),
        };
        assert(r@ =~= blank_paragraph());
        r
    }
}

/// The texts of the runs, one after the other.
pub open spec fn joined_text(runs: Seq<RunView>) -> Seq<char>
    decreases runs.len(),
{
    if runs.len() == 0 {
        Seq::empty()
    } else {
        joined_text(runs.drop_last()) + runs.last().text
    }
}

impl ParagraphInfo {
    /// The full text of the paragraph.
    pub fn full_text(&self) -> (r: String)
        ensures
            r@ == joined_text(self@.runs),
    {
        let mut r = String::new();
        let mut i: usize = 0;
        assert(self@.runs.take(0) =~= Seq::empty());
        while i < self.runs.len()
            invariant
                i <= self.runs@.len(),
                r@ == joined_text(self@.runs.take(i as int)),
            decreases self.runs@.len() - i,
        {
            r.append(&self.runs[i].text);
            proof {
                let upto = self@.runs.take(i + 1);
                assert(upto.drop_last() =~= self@.runs.take(i as int));
                assert(upto.last() == self@.runs[i as int]);
            }
            i += 1;
        }
        assert(self@.runs.take(i as int) =~= self@.runs);
        r
    }
}

// ---------------------------------------------------------------------------
// Extraction
// ---------------------------------------------------------------------------

/// How far extraction has come.
#[verifier::ext_equal]
pub struct ExtractView {
    /// The paragraphs that are complete.
    pub done: Seq<ParagraphView>,
    /// The paragraph being read, and how many paragraphs are open inside it.
    pub paragraph: Option<ParagraphView>,
    pub nested: int,
    /// How deep inside paragraph properties, with their bytes so far.
    pub ppr_depth: int,
    pub ppr: Seq<u8>,
    /// The run being read, and how deep inside it.
    pub in_run: bool,
    pub run_depth: int,
    pub run: RunView,
    /// How deep inside run properties, with their bytes so far.
    pub rpr_depth: int,
    pub rpr: Seq<u8>,
    /// Whether inside a `<w:t>`.
    pub in_text: bool,
}

/// Nothing read of the next paragraph.
pub open spec fn extract_fresh(
    done: Seq<ParagraphView>,
    paragraph: Option<ParagraphView>,
) -> ExtractView {
    ExtractView {
        done,
        paragraph,
        nested: 0,
        ppr_depth: 0,
        ppr: Seq::empty(),
        in_run: false,
        run_depth: 0,
        run: blank_run(),
        rpr_depth: 0,
        rpr: Seq::empty(),
        in_text: false,
    }
}

/// The text that a text event stands for; none where it cannot be unescaped.
pub open spec fn event_text(e: Ev) -> Seq<char> {
    match text_unescaped(e.raw) {
        Some(t) => t,
        None => Seq::empty(),
    }
}

/// What one event inside a run, outside its properties, does.
pub open spec fn extract_in_run(s: ExtractView, e: Ev) -> ExtractView {
    if is_start(e, "w:t") {
        ExtractView { in_text: true, ..s }
    } else if is_end(e, "w:t") {
        ExtractView { in_text: false, ..s }
    } else if e.kind == EventKind::Text && s.in_text {
        ExtractView { run: RunView { text: s.run.text + event_text(e), ..s.run }, ..s }
    } else if is_empty_tag(e, "w:tab") {
        ExtractView { run: RunView { text: s.run.text + "\t"@, ..s.run }, ..s }
    } else if is_empty_tag(e, "w:br") {
        ExtractView { run: RunView { text: s.run.text + "\n"@, ..s.run }, ..s }
    } else if is_empty_tag(e, "w:footnoteReference") {
        ExtractView {
            run: RunView { footnote_refs: s.run.footnote_refs.push(emitted(e)), ..s.run },
            ..s
        }
    } else {
        ExtractView { run_depth: depth_after(s.run_depth, e), ..s }
    }
}

/// What one event directly inside a paragraph, outside any run, does.
pub open spec fn extract_between_runs(s: ExtractView, p: ParagraphView, e: Ev) -> ExtractView {
    if is_empty_tag(e, "w:bookmarkStart") && p.runs.len() == 0 {
        ExtractView {
            paragraph: Some(
                ParagraphView {
                    leading_bookmark_starts: p.leading_bookmark_starts.push(emitted(e)),
                    ..p
                },
            ),
            ..s
        }
    } else if is_empty_tag(e, "w:bookmarkStart") || is_empty_tag(e, "w:bookmarkEnd") {
        ExtractView {
            paragraph: Some(
                ParagraphView {
                    trailing_bookmark_ends: p.trailing_bookmark_ends.push(emitted(e)),
                    ..p
                },
            ),
            ..s
        }
    } else {
        s
    }
}

/// What one event inside a paragraph does.
pub open spec fn extract_inside(s: ExtractView, p: ParagraphView, e: Ev) -> ExtractView {
    if s.ppr_depth >= 1 {
        if depth_after(s.ppr_depth, e) == 0 {
            ExtractView {
                paragraph: Some(ParagraphView { ppr_xml: Some(s.ppr + emitted(e)), ..p }),
                ppr_depth: 0,
                ppr: Seq::empty(),
                ..s
            }
        } else {
            ExtractView { ppr_depth: depth_after(s.ppr_depth, e), ppr: s.ppr + emitted(e), ..s }
        }
    } else if s.rpr_depth >= 1 {
        if depth_after(s.rpr_depth, e) == 0 {
            ExtractView {
                run: RunView { rpr_xml: Some(s.rpr + emitted(e)), ..s.run },
                rpr_depth: 0,
                rpr: Seq::empty(),
                ..s
            }
        } else {
            ExtractView { rpr_depth: depth_after(s.rpr_depth, e), rpr: s.rpr + emitted(e), ..s }
        }
    } else if s.in_run {
        if s.run_depth == 1 && is_end(e, "w:r") {
            ExtractView {
                paragraph: Some(ParagraphView { runs: p.runs.push(s.run), ..p }),
                in_run: false,
                run_depth: 0,
                run: blank_run(),
                ..s
            }
        } else if s.run_depth == 1 && is_start(e, "w:rPr") {
            ExtractView { rpr_depth: 1, rpr: emitted(e), ..s }
        } else if s.run_depth == 1 && is_empty_tag(e, "w:rPr") {
            ExtractView { run: RunView { rpr_xml: Some(emitted(e)), ..s.run }, ..s }
        } else {
            extract_in_run(s, e)
        }
    } else if is_start(e, "w:pPr") && s.nested == 0 {
        ExtractView { ppr_depth: 1, ppr: emitted(e), ..s }
    } else if is_empty_tag(e, "w:pPr") && s.nested == 0 {
        ExtractView {
            paragraph: Some(ParagraphView { ppr_xml: Some(emitted(e)), ..p }),
            ..s
        }
    } else if is_start(e, "w:r") {
        ExtractView { in_run: true, run_depth: 1, run: blank_run(), in_text: false, ..s }
    } else {
        extract_between_runs(s, p, e)
    }
}

/// What one event does to an extraction.
pub open spec fn extract_step(s: ExtractView, e: Ev) -> ExtractView {
    match s.paragraph {
        None => if is_start(e, "w:p") {
            extract_fresh(s.done, Some(blank_paragraph()))
        } else if is_empty_tag(e, "w:p") {
            ExtractView { done: s.done.push(blank_paragraph()), ..s }
        } else {
            s
        },
        Some(p) => if is_end(e, "w:p") && s.nested == 0 {
            ExtractView { done: s.done.push(p), paragraph: None, ..s }
        } else {
            extract_inside(ExtractView { nested: paragraphs_open(s.nested, e), ..s }, p, e)
        },
    }
}

/// The state of the extraction after `events`.
pub open spec fn extract_state(events: Seq<Ev>) -> ExtractView
    decreases events.len(),
{
    if events.len() == 0 {
        extract_fresh(Seq::empty(), None)
    } else {
        extract_step(extract_state(events.drop_last()), events.last())
    }
}

/// The body paragraphs among `events`.
pub open spec fn extracted(events: Seq<Ev>) -> Seq<ParagraphView> {
    extract_state(events).done
}

/// An extraction under way.
struct Extractor {
    done: Vec<ParagraphInfo>,
    paragraph: Option<ParagraphInfo>,
    nested: i128,
    ppr_depth: i128,
    ppr: Vec<u8>,
    in_run: bool,
    run_depth: i128,
    run: Run,
    rpr_depth: i128,
    rpr: Vec<u8>,
    in_text: bool,
}

impl View for Extractor {
    type V = ExtractView;

    closed spec fn view(&self) -> ExtractView {
        ExtractView {
            done: paragraphs_view(self.done@),
            paragraph: match self.paragraph {
                Some(p) => Some(p@),
                None => None,
            },
            nested: self.nested as int,
            ppr_depth: self.ppr_depth as int,
            ppr: self.ppr@,
            in_run: self.in_run,
            run_depth: self.run_depth as int,
            run: self.run@,
            rpr_depth: self.rpr_depth as int,
            rpr: self.rpr@,
            in_text: self.in_text,
        }
    }
}

fn new_run() -> (r: Run)
    ensures
        r@ == blank_run(),
{
    let r = Run { text: String::new(), rpr_xml: None, footnote_refs: Vec::new() };
    assert(r@ =~= blank_run());
    r
}

fn new_paragraph() -> (p: ParagraphInfo)
    ensures
        p@ == blank_paragraph(),
{
    let p = ParagraphInfo {
        ppr_xml: None,
        runs: Vec::new(),
        leading_bookmark_starts: Vec::new(),
        trailing_bookmark_ends: Vec::new(),
    };
    assert(p@ =~= blank_paragraph());
    p
}

/// The bytes of one event.
pub(crate) fn event_bytes(ev: &XmlEvent) -> (r: Vec<u8>)
    ensures
        r@ == emitted(ev@),
{
    let mut r: Vec<u8> = Vec::new();
    emit(&mut r, ev);
    assert(r@ =~= emitted(ev@));
    r
}

impl Extractor {
    /// No depth is further from zero than `n`.
    spec fn bounded(&self, n: int) -> bool {
        &&& -n <= self.nested <= n
        &&& -n <= self.ppr_depth <= n
        &&& -n <= self.run_depth <= n
        &&& -n <= self.rpr_depth <= n
    }

    fn step_in_run(&mut self, ev: &XmlEvent, Ghost(n): Ghost<int>)
        requires
            old(self).bounded(n),
            1 <= n < i128::MAX,
        ensures
            final(self)@ == extract_in_run(old(self)@, ev@),
            final(self).bounded(n + 1),
    {
        if ev.is_start("w:t") {
            self.in_text = true;
        } else if ev.is_end("w:t") {
            self.in_text = false;
        } else if ev.kind == EventKind::Text && self.in_text {
            if let Ok(t) = unescape_text(&ev.raw) {
                self.run.text.append(&t);
            }
            assert(old(self)@.run.text + event_text(ev@) =~= self.run.text@);
        } else if ev.is_empty_tag("w:tab") {
            self.run.text.append("\t");
        } else if ev.is_empty_tag("w:br") {
            self.run.text.append("\n");
        } else if ev.is_empty_tag("w:footnoteReference") {
            let b = event_bytes(ev);
            self.run.footnote_refs.push(b);
            assert(self@.run.footnote_refs =~= old(self)@.run.footnote_refs.push(emitted(ev@)));
        } else if ev.kind == EventKind::Start {
            self.run_depth += 1;
        } else if ev.kind == EventKind::End {
            self.run_depth -= 1;
        }
        assert(self@ =~= extract_in_run(old(self)@, ev@));
    }

    fn step_between_runs(&mut self, ev: &XmlEvent)
        requires
            old(self).paragraph is Some,
        ensures
            final(self)@ == extract_between_runs(old(self)@, old(self).paragraph->0@, ev@),
            final(self).nested == old(self).nested,
            final(self).ppr_depth == old(self).ppr_depth,
            final(self).run_depth == old(self).run_depth,
            final(self).rpr_depth == old(self).rpr_depth,
    {
        let ghost p = self.paragraph->0@;
        if let Some(info) = &mut self.paragraph {
            if ev.is_empty_tag("w:bookmarkStart") && info.runs.len() == 0 {
                let b = event_bytes(ev);
                info.leading_bookmark_starts.push(b);
                assert(info@.leading_bookmark_starts =~= p.leading_bookmark_starts.push(
                    emitted(ev@),
                ));
            } else if ev.is_empty_tag("w:bookmarkStart") || ev.is_empty_tag("w:bookmarkEnd") {
                let b = event_bytes(ev);
                info.trailing_bookmark_ends.push(b);
                assert(info@.trailing_bookmark_ends =~= p.trailing_bookmark_ends.push(
                    emitted(ev@),
                ));
            }
        }
        assert(self@ =~= extract_between_runs(old(self)@, p, ev@));
    }

    /// Reads an event of the paragraph's properties.
    fn step_in_ppr(&mut self, ev: &XmlEvent)
        requires
            old(self).paragraph is Some,
            1 <= old(self).ppr_depth < i128::MAX,
        ensures
            final(self)@ == extract_inside(old(self)@, old(self).paragraph->0@, ev@),
            0 <= final(self).ppr_depth <= old(self).ppr_depth + 1,
            final(self).nested == old(self).nested,
            final(self).run_depth == old(self).run_depth,
            final(self).rpr_depth == old(self).rpr_depth,
    {
        let ghost s = self@;
        let ghost p = self.paragraph->0@;
        emit(&mut self.ppr, ev);
        if ev.kind == EventKind::Start {
            self.ppr_depth += 1;
        } else if ev.kind == EventKind::End {
            self.ppr_depth -= 1;
        }
        if self.ppr_depth == 0 {
            let mut captured: Vec<u8> = Vec::new();
            std::mem::swap(&mut captured, &mut self.ppr);
            if let Some(info) = &mut self.paragraph {
                info.ppr_xml = Some(captured);
                assert(info@ =~= (ParagraphView { ppr_xml: Some(s.ppr + emitted(ev@)), ..p }));
            }
        }
        assert(self@ =~= extract_inside(s, p, ev@));
    }

    /// Reads an event of a run's properties.
    fn step_in_rpr(&mut self, ev: &XmlEvent)
        requires
            old(self).paragraph is Some,
            old(self).ppr_depth < 1,
            1 <= old(self).rpr_depth < i128::MAX,
        ensures
            final(self)@ == extract_inside(old(self)@, old(self).paragraph->0@, ev@),
            0 <= final(self).rpr_depth <= old(self).rpr_depth + 1,
            final(self).nested == old(self).nested,
            final(self).run_depth == old(self).run_depth,
            final(self).ppr_depth == old(self).ppr_depth,
    {
        let ghost s = self@;
        emit(&mut self.rpr, ev);
        if ev.kind == EventKind::Start {
            self.rpr_depth += 1;
        } else if ev.kind == EventKind::End {
            self.rpr_depth -= 1;
        }
        if self.rpr_depth == 0 {
            let mut captured: Vec<u8> = Vec::new();
            std::mem::swap(&mut captured, &mut self.rpr);
            self.run.rpr_xml = Some(captured);
        }
        assert(self@ =~= extract_inside(s, s.paragraph->0, ev@));
    }

    /// Ends the run.
    fn end_run(&mut self)
        requires
            old(self).paragraph is Some,
        ensures
            final(self)@ == (ExtractView {
                paragraph: Some(
                    ParagraphView {
                        runs: old(self).paragraph->0@.runs.push(old(self).run@),
                        ..old(self).paragraph->0@
                    },
                ),
                in_run: false,
                run_depth: 0,
                run: blank_run(),
                ..old(self)@
            }),
            final(self).run_depth == 0,
            final(self).nested == old(self).nested,
            final(self).ppr_depth == old(self).ppr_depth,
            final(self).rpr_depth == old(self).rpr_depth,
    {
        let ghost s = self@;
        let mut finished = new_run();
        std::mem::swap(&mut finished, &mut self.run);
        if let Some(info) = &mut self.paragraph {
            info.runs.push(finished);
            assert(info@.runs =~= s.paragraph->0.runs.push(s.run));
        }
        self.in_run = false;
        self.run_depth = 0;
    }

    fn step_inside(&mut self, ev: &XmlEvent, Ghost(n): Ghost<int>)
        requires
            old(self).paragraph is Some,
            old(self).bounded(n),
            1 <= n < i128::MAX,
        ensures
            final(self)@ == extract_inside(old(self)@, old(self).paragraph->0@, ev@),
            final(self).bounded(n + 1),
    {
        let ghost s = self@;
        if self.ppr_depth >= 1 {
            self.step_in_ppr(ev);
        } else if self.rpr_depth >= 1 {
            self.step_in_rpr(ev);
        } else if self.in_run {
            if self.run_depth == 1 && ev.is_end("w:r") {
                self.end_run();
            } else if self.run_depth == 1 && ev.is_start("w:rPr") {
                self.rpr_depth = 1;
                self.rpr = event_bytes(ev);
            } else if self.run_depth == 1 && ev.is_empty_tag("w:rPr") {
                self.run.rpr_xml = Some(event_bytes(ev));
            } else {
                self.step_in_run(ev, Ghost(n));
            }
        } else if ev.is_start("w:pPr") && self.nested == 0 {
            self.ppr_depth = 1;
            self.ppr = event_bytes(ev);
        } else if ev.is_empty_tag("w:pPr") && self.nested == 0 {
            if let Some(info) = &mut self.paragraph {
                info.ppr_xml = Some(event_bytes(ev));
                assert(info@ =~= (ParagraphView {
                    ppr_xml: Some(emitted(ev@)),
                    ..s.paragraph->0
                }));
            }
        } else if ev.is_start("w:r") {
            self.in_run = true;
            self.run_depth = 1;
            self.run = new_run();
            self.in_text = false;
        } else {
            self.step_between_runs(ev);
        }
        assert(self@ =~= extract_inside(s, s.paragraph->0, ev@));
    }

    /// Starts a paragraph.
    fn start_paragraph(&mut self)
        ensures
            final(self)@ == extract_fresh(old(self)@.done, Some(blank_paragraph())),
            final(self).bounded(1),
    {
        self.paragraph = Some(new_paragraph());
        self.nested = 0;
        self.ppr_depth = 0;
        self.ppr = Vec::new();
        self.in_run = false;
        self.run_depth = 0;
        self.run = new_run();
        self.rpr_depth = 0;
        self.rpr = Vec::new();
        self.in_text = false;
        assert(self@ =~= extract_fresh(old(self)@.done, Some(blank_paragraph())));
    }

    fn step(&mut self, ev: &XmlEvent, Ghost(n): Ghost<int>)
        requires
            old(self).bounded(n),
            1 <= n < i128::MAX - 1,
        ensures
            final(self)@ == extract_step(old(self)@, ev@),
            final(self).bounded(n + 2),
    {
        let ghost s = self@;
        if self.paragraph.is_none() {
            if ev.is_start("w:p") {
                self.start_paragraph();
            } else if ev.is_empty_tag("w:p") {
                self.done.push(new_paragraph());
                assert(paragraphs_view(self.done@) =~= s.done.push(blank_paragraph()));
            }
        } else if ev.is_end("w:p") && self.nested == 0 {
            let mut finished: Option<ParagraphInfo> = None;
            std::mem::swap(&mut finished, &mut self.paragraph);
            if let Some(p) = finished {
                self.done.push(p);
                assert(paragraphs_view(self.done@) =~= s.done.push(p@));
            }
            assert(self@ =~= extract_step(s, ev@));
        } else {
            if ev.is_start("w:p") {
                self.nested += 1;
            } else if ev.is_end("w:p") {
                self.nested -= 1;
            }
            assert(self@ =~= (ExtractView { nested: paragraphs_open(s.nested, ev@), ..s }));
            self.step_inside(ev, Ghost(n + 1));
        }
    }
}

/// The body paragraphs among the events of a document.
pub fn extract_from_events(events: &Vec<XmlEvent>) -> (r: Vec<ParagraphInfo>)
    ensures
        paragraphs_view(r@) == extracted(events_view(events@)),
{
    let ghost evs = events_view(events@);
    let mut ex = Extractor {
        done: Vec::new(),
        paragraph: None,
        nested: 0,
        ppr_depth: 0,
        ppr: Vec::new(),
        in_run: false,
        run_depth: 0,
        run: new_run(),
        rpr_depth: 0,
        rpr: Vec::new(),
        in_text: false,
    };
    let mut i: usize = 0;
    assert(evs.take(0) =~= Seq::empty());
    assert(ex@ =~= extract_fresh(Seq::empty(), None));
    while i < events.len()
        invariant
            i <= events@.len(),
            evs == events_view(events@),
            ex.bounded(2 * i + 1),
            ex@ == extract_state(evs.take(i as int)),
        decreases events@.len() - i,
    {
        ex.step(&events[i], Ghost(2 * i + 1));
        proof {
            assert(evs.take(i + 1).drop_last() =~= evs.take(i as int));
            assert(evs.take(i + 1).last() == events@[i as int]@);
        }
        i += 1;
    }
    assert(evs.take(i as int) =~= evs);
    ex.done
}

/// A package without a main document.
pub open spec fn is_missing_document(e: Error) -> bool {
    e matches Error::InvalidPackage { path, reason } && path@ == PART_DOCUMENT@ && reason@
        == "missing part word/document.xml"@
}

/// The error for a package without a main document.
pub(crate) fn missing_document() -> (e: Error)
    ensures
        is_missing_document(e),
{
    Error::InvalidPackage {
        path: PART_DOCUMENT.to_owned(),
        reason: "missing part word/document.xml".to_owned(),
    }
}

/// What [`extract_paragraphs`] finds in the parts of a package.
pub open spec fn paragraphs_extracted(
    parts: Parts,
    res: Result<Vec<ParagraphInfo>, Error>,
) -> bool {
    match part(parts, PART_DOCUMENT@) {
        None => res is Err && is_missing_document(res->Err_0),
        Some(doc) => {
            &&& is_read(doc)
            &&& if xml_readable(doc) {
                res is Ok && paragraphs_view(res->Ok_0@) == extracted(xml_events(doc))
            } else {
                res is Err && res->Err_0.is_xml_parse(PART_DOCUMENT@)
            }
        },
    }
}

/// Extracts every body paragraph at run granularity.
pub fn extract_paragraphs(pkg: &Package) -> (res: Result<Vec<ParagraphInfo>, Error>)
    ensures
        paragraphs_extracted(pkg@, res),
{
    match pkg.get_part(PART_DOCUMENT) {
        None => Err(missing_document()),
        Some(doc) => {
            let events = parse_events(doc, PART_DOCUMENT)?;
            Ok(extract_from_events(&events))
        },
    }
}

// ---------------------------------------------------------------------------
// Replacement
// ---------------------------------------------------------------------------

/// The byte strings, one after the other.
pub open spec fn joined_bytes(v: Seq<Seq<u8>>) -> Seq<u8>
    decreases v.len(),
{
    if v.len() == 0 {
        Seq::empty()
    } else {
        joined_bytes(v.drop_last()) + v.last()
    }
}

/// The bytes of an optional element.
pub open spec fn optional(o: Option<Seq<u8>>) -> Seq<u8> {
    match o {
        Some(b) => b,
        None => Seq::empty(),
    }
}

/// A text event that stands for `text`, if there is any text.
pub open spec fn escaped_events(text: Seq<char>) -> Seq<Ev> {
    if text.len() == 0 {
        Seq::empty()
    } else {
        seq![Ev { kind: EventKind::Text, raw: encode_utf8(escaped(text)) }]
    }
}

/// The events of a text element that keeps its white space.
pub open spec fn text_events(text: Seq<char>) -> Seq<Ev> {
    seq![tag(EventKind::Start, "w:t xml:space=\"preserve\"")] + escaped_events(text) + seq![
        tag(EventKind::End, "w:t"),
    ]
}

/// Escaped and unescaped, `text` is as before.
pub open spec fn text_reads_back(text: Seq<char>) -> bool {
    text_unescaped(encode_utf8(escaped(text))) == Some(text)
}

/// A text element that keeps its white space.
pub open spec fn text_element(text: Seq<char>) -> Seq<u8> {
    lit("<w:t xml:space=\"preserve\">") + encode_utf8(escaped(text)) + lit("</w:t>")
}

/// The bytes of a run: its properties, its text if there is any, its footnote
/// references.
pub open spec fn run_bytes(r: RunView) -> Seq<u8> {
    lit("<w:r>") + optional(r.rpr_xml) + (if r.text.len() == 0 {
        Seq::empty()
    } else {
        text_element(r.text)
    }) + joined_bytes(r.footnote_refs) + lit("</w:r>")
}

/// The bytes of several runs.
pub open spec fn runs_bytes(runs: Seq<RunView>) -> Seq<u8>
    decreases runs.len(),
{
    if runs.len() == 0 {
        Seq::empty()
    } else {
        runs_bytes(runs.drop_last()) + run_bytes(runs.last())
    }
}

/// What stands between `<w:p>` and `</w:p>`: the bookmark starts, the properties, the
/// runs, the bookmark ends.
pub open spec fn paragraph_bytes(p: ParagraphView) -> Seq<u8> {
    joined_bytes(p.leading_bookmark_starts) + optional(p.ppr_xml) + runs_bytes(p.runs)
        + joined_bytes(p.trailing_bookmark_ends)
}

/// How far a replacement has come.
#[verifier::ext_equal]
pub struct ReplaceView {
    /// What has been written.
    pub out: Seq<u8>,
    /// How many paragraphs have been closed.
    pub index: int,
    /// Whether inside a paragraph, and how many paragraphs are open inside it.
    pub in_paragraph: bool,
    pub nested: int,
    /// Whether the contents of the paragraph are being dropped.
    pub dropping: bool,
}

/// Nothing written yet.
pub open spec fn replace_start() -> ReplaceView {
    ReplaceView { out: Seq::empty(), index: 0, in_paragraph: false, nested: 0, dropping: false }
}

/// What one event does to a replacement.
pub open spec fn replace_step(s: ReplaceView, paragraphs: Seq<ParagraphView>, e: Ev) -> ReplaceView {
    if is_start(e, "w:p") && !s.in_paragraph {
        if s.index < paragraphs.len() {
            ReplaceView {
                out: s.out + emitted(e) + paragraph_bytes(paragraphs[s.index]),
                in_paragraph: true,
                nested: 0,
                dropping: true,
                ..s
            }
        } else {
            ReplaceView { out: s.out + emitted(e), in_paragraph: true, nested: 0, ..s }
        }
    } else if is_empty_tag(e, "w:p") && !s.in_paragraph {
        ReplaceView {
            out: if s.index < paragraphs.len() {
                s.out + emitted(opened(e)) + paragraph_bytes(paragraphs[s.index]) + emitted(
                    paragraph_end(),
                )
            } else {
                s.out + emitted(e)
            },
            index: s.index + 1,
            ..s
        }
    } else if is_end(e, "w:p") && s.in_paragraph && s.nested == 0 {
        ReplaceView {
            out: s.out + emitted(e),
            index: s.index + 1,
            in_paragraph: false,
            dropping: false,
            ..s
        }
    } else {
        ReplaceView {
            out: if s.dropping {
                s.out
            } else {
                s.out + emitted(e)
            },
            nested: paragraphs_open(s.nested, e),
            ..s
        }
    }
}

/// The state of the replacement after `events`.
pub open spec fn replace_state(events: Seq<Ev>, paragraphs: Seq<ParagraphView>) -> ReplaceView
    decreases events.len(),
{
    if events.len() == 0 {
        replace_start()
    } else {
        replace_step(replace_state(events.drop_last(), paragraphs), paragraphs, events.last())
    }
}

/// The document with its first body paragraphs replaced; those beyond the given
/// ones stay as they are.
pub open spec fn with_paragraphs(events: Seq<Ev>, paragraphs: Seq<ParagraphView>) -> Seq<u8> {
    replace_state(events, paragraphs).out
}

/// The events of a text element are written as its bytes.
pub proof fn lemma_text_element(text: Seq<char>)
    ensures
        emitted_all(text_events(text)) == text_element(text),
{
    let open = tag(EventKind::Start, "w:t xml:space=\"preserve\"");
    let close = tag(EventKind::End, "w:t");
    let inner = escaped_events(text);
    lemma_emitted_concat(seq![open] + inner, seq![close]);
    lemma_emitted_concat(seq![open], inner);
    lemma_emitted_one(open);
    lemma_emitted_one(close);
    if text.len() == 0 {
        assert(escaped(text) =~= Seq::empty());
        assert(encode_utf8(escaped(text)) =~= Seq::empty());
    } else {
        lemma_emitted_one(inner[0]);
    }
    assert(lit("<") + lit("w:t xml:space=\"preserve\"") + lit(">") =~= lit(
        "<w:t xml:space=\"preserve\">",
    )) by {
        reveal_strlit("<");
        reveal_strlit(">");
        reveal_strlit("w:t xml:space=\"preserve\"");
        reveal_strlit("<w:t xml:space=\"preserve\">");
        is_ascii_chars_encode_utf8("<"@);
        is_ascii_chars_encode_utf8(">"@);
        is_ascii_chars_encode_utf8("w:t xml:space=\"preserve\""@);
        is_ascii_chars_encode_utf8("<w:t xml:space=\"preserve\">"@);
    }
    assert(lit("</") + lit("w:t") + lit(">") =~= lit("</w:t>")) by {
        reveal_strlit("</");
        reveal_strlit(">");
        reveal_strlit("w:t");
        reveal_strlit("</w:t>");
        is_ascii_chars_encode_utf8("</"@);
        is_ascii_chars_encode_utf8(">"@);
        is_ascii_chars_encode_utf8("w:t"@);
        is_ascii_chars_encode_utf8("</w:t>"@);
    }
    assert(emitted_all(text_events(text)) =~= text_element(text));
}

/// The tags of runs and of text elements.
pub proof fn lemma_run_tags()
    ensures
        is_token(tag(EventKind::Start, "w:r")),
        is_token(tag(EventKind::End, "w:r")),
        is_token(tag(EventKind::Start, "w:t xml:space=\"preserve\"")),
        is_token(tag(EventKind::End, "w:t")),
        tag_name(tag(EventKind::Start, "w:r")) == lit("w:r"),
        tag_name(tag(EventKind::Start, "w:t xml:space=\"preserve\"")) == lit("w:t"),
{
    reveal_strlit("w:r");
    reveal_strlit("w:t");
    reveal_strlit("w:t xml:space=\"preserve\"");
    is_ascii_chars_encode_utf8("w:r"@);
    is_ascii_chars_encode_utf8("w:t"@);
    is_ascii_chars_encode_utf8("w:t xml:space=\"preserve\""@);
    let run = lit("w:r");
    let text = lit("w:t");
    let open = lit("w:t xml:space=\"preserve\"");
    let none = Seq::<u8>::empty();
    lemma_plain_scan(none, run);
    lemma_plain_scan(none, text);
    assert(none + run =~= run);
    assert(none + text =~= text);
    lemma_plain_scan(none, open.take(14));
    assert(none + open.take(14) =~= open.take(14));
    lemma_quoted_scan(open.take(14), 0x22, open.subrange(15, 23));
    assert(open =~= (open.take(14).push(0x22) + open.subrange(15, 23)).push(0x22));
    reveal_with_fuel(name_end, 5);
    assert(run.take(3) =~= run);
    assert(open.take(3) =~= text);
}

/// A text element is a block.
pub proof fn lemma_text_block(text: Seq<char>)
    ensures
        is_block(text_events(text)),
{
    lemma_run_tags();
    lemma_no_block();
    if text.len() > 0 {
        lemma_text_token(text);
    }
    lemma_enclose(
        tag(EventKind::Start, "w:t xml:space=\"preserve\""),
        escaped_events(text),
        tag(EventKind::End, "w:t"),
    );
}

pub(crate) fn push_joined(out: &mut Vec<u8>, v: &Vec<Vec<u8>>)
    ensures
        final(out)@ == old(out)@ + joined_bytes(byte_strings(v@)),
{
    let ghost all = byte_strings(v@);
    let mut i: usize = 0;
    assert(all.take(0) =~= Seq::empty());
    assert(out@ =~= old(out)@ + joined_bytes(all.take(0)));
    while i < v.len()
        invariant
            i <= v@.len(),
            all == byte_strings(v@),
            out@ == old(out)@ + joined_bytes(all.take(i as int)),
        decreases v@.len() - i,
    {
        push_all(out, &v[i]);
        proof {
            assert(all.take(i + 1).drop_last() =~= all.take(i as int));
            assert(all.take(i + 1).last() == v@[i as int]@);
            assert(out@ =~= old(out)@ + joined_bytes(all.take(i + 1)));
        }
        i += 1;
    }
    assert(all.take(i as int) =~= all);
}

pub(crate) fn push_optional(out: &mut Vec<u8>, o: &Option<Vec<u8>>)
    ensures
        final(out)@ == old(out)@ + optional(opt_bytes(*o)),
{
    match o {
        Some(b) => push_all(out, b),
        None => {
            assert(out@ =~= old(out)@ + Seq::<u8>::empty());
        },
    }
}

/// Writes a text element that keeps its white space.
pub(crate) fn push_text_element(out: &mut Vec<u8>, text: &str)
    ensures
        final(out)@ == old(out)@ + text_element(text@),
        text_reads_back(text@),
{
    let body = escape_text(text);
    push_str(out, "<w:t xml:space=\"preserve\">");
    push_str(out, &body);
    push_str(out, "</w:t>");
    assert(out@ =~= old(out)@ + text_element(text@));
}

/// The text of a run, where it has any, is read back once it has been written.
pub open spec fn run_reads_back(r: RunView) -> bool {
    r.text.len() > 0 ==> text_reads_back(r.text)
}

/// The texts of the runs are read back once they have been written.
pub open spec fn runs_read_back(runs: Seq<RunView>) -> bool {
    forall|i: int| 0 <= i < runs.len() ==> run_reads_back(#[trigger] runs[i])
}

fn push_run(out: &mut Vec<u8>, run: &Run)
    ensures
        final(out)@ == old(out)@ + run_bytes(run@),
        run_reads_back(run@),
{
    push_str(out, "<w:r>");
    push_optional(out, &run.rpr_xml);
    if !run.text.as_str().is_empty() {
        push_text_element(out, &run.text);
    }
    push_joined(out, &run.footnote_refs);
    push_str(out, "</w:r>");
    assert(out@ =~= old(out)@ + run_bytes(run@));
}

/// Writes the contents of a paragraph.
fn emit_paragraph(out: &mut Vec<u8>, info: &ParagraphInfo)
    ensures
        final(out)@ == old(out)@ + paragraph_bytes(info@),
        runs_read_back(info@.runs),
{
    push_joined(out, &info.leading_bookmark_starts);
    push_optional(out, &info.ppr_xml);
    let ghost before = out@;
    let ghost runs = info@.runs;
    let mut i: usize = 0;
    assert(runs.take(0) =~= Seq::empty());
    assert(out@ =~= before + runs_bytes(runs.take(0)));
    while i < info.runs.len()
        invariant
            i <= info.runs@.len(),
            runs == info@.runs,
            out@ == before + runs_bytes(runs.take(i as int)),
            forall|j: int| 0 <= j < i ==> run_reads_back(#[trigger] runs[j]),
        decreases info.runs@.len() - i,
    {
        push_run(out, &info.runs[i]);
        proof {
            assert(runs.take(i + 1).drop_last() =~= runs.take(i as int));
            assert(runs.take(i + 1).last() == info.runs@[i as int]@);
            assert(out@ =~= before + runs_bytes(runs.take(i + 1)));
        }
        i += 1;
    }
    assert(runs.take(i as int) =~= runs);
    push_joined(out, &info.trailing_bookmark_ends);
    assert(out@ =~= old(out)@ + paragraph_bytes(info@));
}

/// Writes the start tag that an empty tag becomes.
pub(crate) fn emit_opened(out: &mut Vec<u8>, ev: &XmlEvent)
    ensures
        final(out)@ == old(out)@ + emitted(opened(ev@)),
{
    let n: usize = ev.raw.len();
    if n > 0 && ev.raw[n - 1] == 0x2f {
        emit_raw(out, EventKind::Start, ev.name());
    } else {
        emit_raw(out, EventKind::Start, &ev.raw);
    }
}

/// Writes the end tag of a paragraph.
pub(crate) fn emit_paragraph_end(out: &mut Vec<u8>)
    ensures
        final(out)@ == old(out)@ + emitted(paragraph_end()),
{
    let mut name: Vec<u8> = Vec::new();
    push_str(&mut name, "w:p");
    assert(name@ =~= lit("w:p"));
    emit_raw(out, EventKind::End, &name);
}

/// The texts of the first `n` paragraphs are read back once they have been written.
pub open spec fn paragraphs_read_back(paragraphs: Seq<ParagraphView>, n: int) -> bool {
    forall|i: int|
        0 <= i < n && i < paragraphs.len() ==> runs_read_back((#[trigger] paragraphs[i]).runs)
}

/// The events of a document with its first body paragraphs replaced.
pub fn replace_in_events(events: &Vec<XmlEvent>, paragraphs: &[ParagraphInfo]) -> (out: Vec<u8>)
    ensures
        out@ == with_paragraphs(events_view(events@), paragraphs_view(paragraphs@)),
        ({
            let s = replace_state(events_view(events@), paragraphs_view(paragraphs@));
            paragraphs_read_back(
                paragraphs_view(paragraphs@),
                s.index + if s.in_paragraph {
                    1int
                } else {
                    0int
                },
            )
        }),
{
    let ghost evs = events_view(events@);
    let ghost ps = paragraphs_view(paragraphs@);
    let mut out: Vec<u8> = Vec::new();
    let mut index: usize = 0;
    let mut in_paragraph = false;
    let mut nested: i128 = 0;
    let mut dropping = false;
    let mut i: usize = 0;
    assert(evs.take(0) =~= Seq::empty());
    while i < events.len()
        invariant
            i <= events@.len(),
            index <= i,
            -i <= nested <= i,
            evs == events_view(events@),
            ps == paragraphs_view(paragraphs@),
            paragraphs_read_back(
                ps,
                index + if in_paragraph {
                    1int
                } else {
                    0int
                },
            ),
            replace_state(evs.take(i as int), ps) == (ReplaceView {
                out: out@,
                index: index as int,
                in_paragraph,
                nested: nested as int,
                dropping,
            }),
        decreases events@.len() - i,
    {
        let ev = &events[i];
        let ghost s = replace_state(evs.take(i as int), ps);
        if ev.is_start("w:p") && !in_paragraph {
            emit(&mut out, ev);
            if index < paragraphs.len() {
                dropping = true;
                assert(ps[index as int] == paragraphs@[index as int]@);
                emit_paragraph(&mut out, &paragraphs[index]);
            }
            in_paragraph = true;
            nested = 0;
        } else if ev.is_empty_tag("w:p") && !in_paragraph {
            if index < paragraphs.len() {
                emit_opened(&mut out, ev);
                assert(ps[index as int] == paragraphs@[index as int]@);
                emit_paragraph(&mut out, &paragraphs[index]);
                emit_paragraph_end(&mut out);
            } else {
                emit(&mut out, ev);
            }
            index += 1;
        } else if ev.is_end("w:p") && in_paragraph && nested == 0 {
            emit(&mut out, ev);
            index += 1;
            in_paragraph = false;
            dropping = false;
        } else {
            if ev.is_start("w:p") {
                nested += 1;
            } else if ev.is_end("w:p") {
                nested -= 1;
            }
            if !dropping {
                emit(&mut out, ev);
            }
        }
        proof {
            assert(evs.take(i + 1).drop_last() =~= evs.take(i as int));
            assert(evs.take(i + 1).last() == ev@);
            assert(replace_step(s, ps, ev@) =~= (ReplaceView {
                out: out@,
                index: index as int,
                in_paragraph,
                nested: nested as int,
                dropping,
            }));
        }
        i += 1;
    }
    assert(evs.take(i as int) =~= evs);
    out
}

/// What [`replace_paragraphs`] does to the parts of a package, as `after` shows.
pub open spec fn paragraphs_replaced(
    before: Parts,
    paragraphs: Seq<ParagraphView>,
    after: Parts,
) -> bool {
    match part(before, PART_DOCUMENT@) {
        None => after == before,
        Some(doc) => if xml_readable(doc) {
            let s = replace_state(xml_events(doc), paragraphs);
            &&& after == with_part(
                before,
                PART_DOCUMENT@,
                with_paragraphs(xml_events(doc), paragraphs),
            )
            &&& well_formed(xml_events(doc))
            &&& paragraphs_read_back(
                paragraphs,
                s.index + if s.in_paragraph {
                    1int
                } else {
                    0int
                },
            )
        } else {
            after == before
        },
    }
}

/// Rebuilds the first body paragraphs from `paragraphs`. Paragraphs beyond those stay
/// as they are.
pub fn replace_paragraphs(pkg: &mut Package, paragraphs: &[ParagraphInfo]) -> (res: Result<
    (),
    Error,
>)
    ensures
        final(pkg).source_view() == old(pkg).source_view(),
        paragraphs_replaced(old(pkg)@, paragraphs_view(paragraphs@), final(pkg)@),
        match part(old(pkg)@, PART_DOCUMENT@) {
            None => res is Err && is_missing_document(res->Err_0),
            Some(doc) => if xml_readable(doc) {
                res is Ok
            } else {
                res is Err && res->Err_0.is_xml_parse(PART_DOCUMENT@)
            },
        },
{
    let out = match pkg.get_part(PART_DOCUMENT) {
        None => return Err(missing_document()),
        Some(doc) => {
            let events = parse_events(doc, PART_DOCUMENT)?;
            replace_in_events(&events, paragraphs)
        },
    };
    pkg.set_part(PART_DOCUMENT, out);
    Ok(())
}

} // verus!
