//! Heading levels inferred from direct formatting.
//!
//! A body paragraph that is bold throughout and short looks like a heading. The font
//! sizes of such candidates, largest first, become the levels. Paragraphs that
//! already carry a heading or title style are left out.
//!
//! Sizes are millionths of a point here; a size in the document is the text of an
//! attribute, which the caller turns into a number.

use vstd::prelude::*;
use vstd::utf8::encode_utf8;

use crate::bytes::{lit, push_str};
use crate::error::Error;
use crate::names::{lookup, NameMap};
use crate::ns::PART_DOCUMENT;
use crate::package::{part, with_part, Package};
use crate::paragraph_text::texts_view;
use crate::style_classify::{classify_style, style_class, SemanticClass};
use crate::style_mapper::{
    find_last_val, is_open_tag, last_val, mapped, mapper_of, opt_text, push_attr, MapperView,
    StyleIndex, StyleIndexView, StyleMapper,
};
use crate::text::{chars_of, string_of, trim, trimmed, utf8_str, utf8_text};
use crate::wellformed::depth_after;
use crate::xml::{
    attr_bytes, attr_value, attributes, emit, emit_raw, emitted, escape_text, escaped,
    events_view, get_attr, is_empty_tag, is_end, is_start, parse_events, tag_attrs, xml_events,
    xml_readable, Ev, EventKind, XmlEvent,
};

verus! {

/// What the formatting of a body paragraph says.
#[derive(Debug)]
pub struct ParagraphScan {
    /// The style id, if the paragraph has one.
    pub pstyle: Option<String>,
    /// The raw text.
    pub text: String,
    /// Whether every text run is bold, or bold is the paragraph's default.
    pub effective_bold: bool,
    /// The sizes that text runs give, as written, in half-points.
    pub run_sizes: Vec<String>,
    /// The size that the paragraph gives, as written, in half-points.
    pub ppr_size: Option<String>,
}

/// What the formatting of a body paragraph says.
#[verifier::ext_equal]
pub struct ScanView {
    pub pstyle: Option<Seq<char>>,
    pub text: Seq<char>,
    pub effective_bold: bool,
    pub run_sizes: Seq<Seq<char>>,
    pub ppr_size: Option<Seq<char>>,
}

impl View for ParagraphScan {
    type V = ScanView;

    open spec fn view(&self) -> ScanView {
        ScanView {
            pstyle: opt_text(self.pstyle),
            text: self.text@,
            effective_bold: self.effective_bold,
            run_sizes: texts_view(self.run_sizes@),
            ppr_size: opt_text(self.ppr_size),
        }
    }
}

/// What a vector of scans says.
pub open spec fn scans_view(v: Seq<ParagraphScan>) -> Seq<ScanView> {
    v.map_values(|s: ParagraphScan| s@)
}

// ---------------------------------------------------------------------------
// Scanning
// ---------------------------------------------------------------------------

/// How far a scan has come.
#[verifier::ext_equal]
pub struct CollectView {
    pub done: Seq<ScanView>,
    pub in_body: bool,
    /// How many elements are open inside the body.
    pub depth: int,
    pub in_p: bool,
    pub pstyle: Option<Seq<char>>,
    pub text: Seq<char>,
    pub in_ppr: bool,
    pub in_ppr_rpr: bool,
    pub ppr_bold: bool,
    pub ppr_size: Option<Seq<char>>,
    pub in_run: bool,
    pub in_run_rpr: bool,
    pub run_bold: bool,
    pub run_size: Option<Seq<char>>,
    pub run_has_text: bool,
    /// Whether the paragraph has a text run, and whether all of them are bold.
    pub has_text_run: bool,
    pub all_bold: bool,
    pub run_sizes: Seq<Seq<char>>,
}

/// Nothing scanned yet.
pub open spec fn collect_start() -> CollectView {
    CollectView {
        done: Seq::empty(),
        in_body: false,
        depth: 0,
        in_p: false,
        pstyle: None,
        text: Seq::empty(),
        in_ppr: false,
        in_ppr_rpr: false,
        ppr_bold: false,
        ppr_size: None,
        in_run: false,
        in_run_rpr: false,
        run_bold: false,
        run_size: None,
        run_has_text: false,
        has_text_run: false,
        all_bold: true,
        run_sizes: Seq::empty(),
    }
}

/// A toggle that is switched off: its value is `0` or `false`.
pub open spec fn is_off(e: Ev) -> bool {
    match attr_value(tag_attrs(e, true), "w:val") {
        Some(v) => v == lit("0") || v == lit("false"),
        None => false,
    }
}

/// An empty `<w:b>` that is not switched off.
pub open spec fn is_bold_on(e: Ev) -> bool {
    is_empty_tag(e, "w:b") && !is_off(e)
}

/// The scan of the paragraph that has just been closed.
pub open spec fn finished_scan(s: CollectView) -> ScanView {
    ScanView {
        pstyle: s.pstyle,
        text: s.text,
        effective_bold: s.ppr_bold || (s.has_text_run && s.all_bold),
        run_sizes: s.run_sizes,
        ppr_size: s.ppr_size,
    }
}

/// What one event inside a paragraph does, apart from the paragraph's own properties.
pub open spec fn collect_run_step(s: CollectView, e: Ev) -> CollectView {
    if s.in_p && !s.in_ppr && is_start(e, "w:r") {
        CollectView { in_run: true, run_bold: false, run_size: None, run_has_text: false, ..s }
    } else if s.in_run && is_end(e, "w:r") {
        if s.run_has_text {
            CollectView {
                in_run: false,
                in_run_rpr: false,
                has_text_run: true,
                all_bold: s.all_bold && s.run_bold,
                run_sizes: match s.run_size {
                    Some(z) => s.run_sizes.push(z),
                    None => s.run_sizes,
                },
                ..s
            }
        } else {
            CollectView { in_run: false, in_run_rpr: false, ..s }
        }
    } else if s.in_run && is_start(e, "w:rPr") {
        CollectView { in_run_rpr: true, ..s }
    } else if s.in_run_rpr && is_end(e, "w:rPr") {
        CollectView { in_run_rpr: false, ..s }
    } else if s.in_run_rpr && is_bold_on(e) {
        CollectView { run_bold: true, ..s }
    } else if s.in_run_rpr && is_empty_tag(e, "w:sz") {
        CollectView { run_size: last_val(tag_attrs(e, true)), ..s }
    } else if s.in_run && e.kind == EventKind::Text && utf8_text(e.raw) is Some && utf8_text(
        e.raw,
    )->0.len() > 0 {
        CollectView { run_has_text: true, text: s.text + utf8_text(e.raw)->0, ..s }
    } else {
        s
    }
}

/// What the start of a body paragraph does to a scan.
pub open spec fn paragraph_opened(s: CollectView) -> CollectView {
    CollectView {
        in_p: true,
        pstyle: None,
        text: Seq::empty(),
        in_ppr: false,
        in_ppr_rpr: false,
        ppr_bold: false,
        ppr_size: None,
        in_run: false,
        in_run_rpr: false,
        has_text_run: false,
        all_bold: true,
        run_sizes: Seq::empty(),
        ..s
    }
}

/// What the end of a body paragraph does to a scan.
pub open spec fn paragraph_closed(s: CollectView) -> CollectView {
    CollectView {
        done: s.done.push(finished_scan(s)),
        in_p: false,
        pstyle: None,
        text: Seq::empty(),
        ..s
    }
}

/// What one event does to a scan, apart from the depth. A body paragraph is a child of the
/// body, and its own properties are its children.
#[verifier::opaque]
pub open spec fn collect_event(s: CollectView, e: Ev) -> CollectView {
    if is_end(e, "w:body") {
        CollectView { in_body: false, ..s }
    } else if s.in_body && s.depth == 0 && is_start(e, "w:p") {
        paragraph_opened(s)
    } else if s.in_body && s.depth == 0 && is_empty_tag(e, "w:p") {
        paragraph_closed(paragraph_opened(s))
    } else if s.in_p && s.depth == 1 && is_end(e, "w:p") {
        paragraph_closed(s)
    } else if s.in_p && s.depth == 1 && is_start(e, "w:pPr") {
        CollectView { in_ppr: true, ..s }
    } else if s.in_p && s.depth == 2 && is_end(e, "w:pPr") {
        CollectView { in_ppr: false, ..s }
    } else if s.in_ppr && s.depth == 2 && is_open_tag(e, "w:pStyle") {
        match last_val(tag_attrs(e, true)) {
            Some(v) => CollectView { pstyle: Some(v), ..s },
            None => s,
        }
    } else if s.in_ppr && is_start(e, "w:rPr") {
        CollectView { in_ppr_rpr: true, ..s }
    } else if s.in_ppr_rpr && is_end(e, "w:rPr") {
        CollectView { in_ppr_rpr: false, ..s }
    } else if s.in_ppr_rpr && is_bold_on(e) {
        CollectView { ppr_bold: true, ..s }
    } else if s.in_ppr_rpr && is_empty_tag(e, "w:sz") {
        CollectView { ppr_size: last_val(tag_attrs(e, true)), ..s }
    } else {
        collect_run_step(s, e)
    }
}

/// What one event does to a scan.
pub open spec fn collect_step(s: CollectView, e: Ev) -> CollectView {
    if is_start(e, "w:body") {
        CollectView { in_body: true, depth: 0, ..s }
    } else {
        CollectView { depth: depth_after(s.depth, e), ..collect_event(s, e) }
    }
}

/// The state of the scan after `events`.
pub open spec fn collect_state(events: Seq<Ev>) -> CollectView
    decreases events.len(),
{
    if events.len() == 0 {
        collect_start()
    } else {
        collect_step(collect_state(events.drop_last()), events.last())
    }
}

/// The body paragraphs among `events`, as far as headings are concerned.
pub open spec fn scanned(events: Seq<Ev>) -> Seq<ScanView> {
    collect_state(events).done
}

struct Collector {
    done: Vec<ParagraphScan>,
    in_body: bool,
    depth: i128,
    in_p: bool,
    pstyle: Option<String>,
    text: String,
    in_ppr: bool,
    in_ppr_rpr: bool,
    ppr_bold: bool,
    ppr_size: Option<String>,
    in_run: bool,
    in_run_rpr: bool,
    run_bold: bool,
    run_size: Option<String>,
    run_has_text: bool,
    has_text_run: bool,
    all_bold: bool,
    run_sizes: Vec<String>,
}

impl View for Collector {
    type V = CollectView;

    closed spec fn view(&self) -> CollectView {
        CollectView {
            done: scans_view(self.done@),
            in_body: self.in_body,
            depth: self.depth as int,
            in_p: self.in_p,
            pstyle: opt_text(self.pstyle),
            text: self.text@,
            in_ppr: self.in_ppr,
            in_ppr_rpr: self.in_ppr_rpr,
            ppr_bold: self.ppr_bold,
            ppr_size: opt_text(self.ppr_size),
            in_run: self.in_run,
            in_run_rpr: self.in_run_rpr,
            run_bold: self.run_bold,
            run_size: opt_text(self.run_size),
            run_has_text: self.run_has_text,
            has_text_run: self.has_text_run,
            all_bold: self.all_bold,
            run_sizes: texts_view(self.run_sizes@),
        }
    }
}

/// Whether a toggle is switched off.
pub(crate) fn is_val_off(ev: &XmlEvent) -> (r: bool)
    ensures
        r == is_off(ev@),
{
    match get_attr(ev, "w:val") {
        Some(v) => crate::bytes::is_str(&v, "0") || crate::bytes::is_str(&v, "false"),
        None => false,
    }
}

pub(crate) fn bold_on(ev: &XmlEvent) -> (r: bool)
    ensures
        r == is_bold_on(ev@),
{
    ev.is_empty_tag("w:b") && !is_val_off(ev)
}

fn tag_val(ev: &XmlEvent) -> (r: Option<String>)
    ensures
        opt_text(r) == last_val(tag_attrs(ev@, true)),
{
    let attrs = attributes(ev, true);
    find_last_val(&attrs)
}

impl Collector {
    fn step_run(&mut self, ev: &XmlEvent)
        ensures
            final(self)@ == collect_run_step(old(self)@, ev@),
            final(self).depth == old(self).depth,
    {
        let ghost s = self@;
        if self.in_p && !self.in_ppr && ev.is_start("w:r") {
            self.in_run = true;
            self.run_bold = false;
            self.run_size = None;
            self.run_has_text = false;
        } else if self.in_run && ev.is_end("w:r") {
            if self.run_has_text {
                self.has_text_run = true;
                self.all_bold = self.all_bold && self.run_bold;
                if let Some(z) = &self.run_size {
                    self.run_sizes.push(z.clone());
                    assert(texts_view(self.run_sizes@) =~= s.run_sizes.push(z@));
                }
            }
            self.in_run = false;
            self.in_run_rpr = false;
        } else if self.in_run && ev.is_start("w:rPr") {
            self.in_run_rpr = true;
        } else if self.in_run_rpr && ev.is_end("w:rPr") {
            self.in_run_rpr = false;
        } else if self.in_run_rpr && bold_on(ev) {
            self.run_bold = true;
        } else if self.in_run_rpr && ev.is_empty_tag("w:sz") {
            self.run_size = tag_val(ev);
        } else if self.in_run && ev.kind == EventKind::Text {
            if let Some(t) = utf8_str(&ev.raw) {
                if !t.is_empty() {
                    self.run_has_text = true;
                    self.text.append(t);
                }
            }
        }
        assert(self@ =~= collect_run_step(s, ev@));
    }

    fn open_paragraph(&mut self)
        ensures
            final(self)@ == paragraph_opened(old(self)@),
            final(self).depth == old(self).depth,
    {
        self.in_p = true;
        self.pstyle = None;
        self.text = String::new();
        self.in_ppr = false;
        self.in_ppr_rpr = false;
        self.ppr_bold = false;
        self.ppr_size = None;
        self.in_run = false;
        self.in_run_rpr = false;
        self.has_text_run = false;
        self.all_bold = true;
        self.run_sizes = Vec::new();
        assert(texts_view(self.run_sizes@) =~= Seq::empty());
        assert(self@ =~= paragraph_opened(old(self)@));
    }

    fn close_paragraph(&mut self)
        ensures
            final(self)@ == paragraph_closed(old(self)@),
            final(self).depth == old(self).depth,
    {
        let ghost s = self@;
        let mut text = String::new();
        std::mem::swap(&mut text, &mut self.text);
        let mut pstyle: Option<String> = None;
        std::mem::swap(&mut pstyle, &mut self.pstyle);
        let scan = ParagraphScan {
            pstyle,
            text,
            effective_bold: self.ppr_bold || (self.has_text_run && self.all_bold),
            run_sizes: copy_texts(&self.run_sizes),
            ppr_size: self.ppr_size.clone(),
        };
        assert(scan@ =~= finished_scan(s));
        self.done.push(scan);
        assert(scans_view(self.done@) =~= s.done.push(finished_scan(s)));
        self.in_p = false;
        assert(self@ =~= paragraph_closed(s));
    }

    #[verifier::rlimit(60)]
    fn step_event(&mut self, ev: &XmlEvent)
        ensures
            final(self)@ == collect_event(old(self)@, ev@),
            final(self).depth == old(self).depth,
    {
        let ghost s = self@;
        proof {
            reveal(collect_event);
        }
        if ev.is_end("w:body") {
            self.in_body = false;
        } else if self.in_body && self.depth == 0 && ev.is_start("w:p") {
            self.open_paragraph();
        } else if self.in_body && self.depth == 0 && ev.is_empty_tag("w:p") {
            self.open_paragraph();
            self.close_paragraph();
        } else if self.in_p && self.depth == 1 && ev.is_end("w:p") {
            self.close_paragraph();
        } else if self.in_p && self.depth == 1 && ev.is_start("w:pPr") {
            self.in_ppr = true;
        } else if self.in_p && self.depth == 2 && ev.is_end("w:pPr") {
            self.in_ppr = false;
        } else if self.in_ppr && self.depth == 2 && ev.is_open_tag("w:pStyle") {
            if let Some(v) = tag_val(ev) {
                self.pstyle = Some(v);
            }
        } else if self.in_ppr && ev.is_start("w:rPr") {
            self.in_ppr_rpr = true;
        } else if self.in_ppr_rpr && ev.is_end("w:rPr") {
            self.in_ppr_rpr = false;
        } else if self.in_ppr_rpr && bold_on(ev) {
            self.ppr_bold = true;
        } else if self.in_ppr_rpr && ev.is_empty_tag("w:sz") {
            self.ppr_size = tag_val(ev);
        } else {
            self.step_run(ev);
        }
        assert(self@ =~= collect_event(s, ev@));
    }

    fn enter_body(&mut self)
        ensures
            final(self)@ == (CollectView { in_body: true, depth: 0, ..old(self)@ }),
            final(self).depth == 0,
    {
        self.in_body = true;
        self.depth = 0;
    }

    fn move_depth(&mut self, ev: &XmlEvent, Ghost(n): Ghost<int>)
        requires
            -n <= old(self).depth <= n,
            0 <= n < i128::MAX,
        ensures
            final(self)@ == (CollectView {
                depth: depth_after(old(self)@.depth, ev@),
                ..old(self)@
            }),
            -n - 1 <= final(self).depth <= n + 1,
    {
        if ev.kind == EventKind::Start {
            self.depth += 1;
        } else if ev.kind == EventKind::End {
            self.depth -= 1;
        }
    }

    fn step(&mut self, ev: &XmlEvent, Ghost(n): Ghost<int>)
        requires
            -n <= old(self).depth <= n,
            0 <= n < i128::MAX,
        ensures
            final(self)@ == collect_step(old(self)@, ev@),
            -n - 1 <= final(self).depth <= n + 1,
    {
        if ev.is_start("w:body") {
            self.enter_body();
        } else {
            proof {
                assert(collect_event(self@, ev@).depth == self@.depth) by {
                    reveal(collect_event);
                }
            }
            self.step_event(ev);
            self.move_depth(ev, Ghost(n));
        }
    }
}

/// A copy of a vector of strings.
pub(crate) fn copy_texts(v: &Vec<String>) -> (r: Vec<String>)
    ensures
        texts_view(r@) == texts_view(v@),
{
    let mut r: Vec<String> = Vec::new();
    let mut i: usize = 0;
    while i < v.len()
        invariant
            i <= v@.len(),
            r@.len() == i,
            forall|j: int| 0 <= j < i ==> (#[trigger] r@[j])@ == v@[j]@,
        decreases v@.len() - i,
    {
        r.push(v[i].clone());
        i += 1;
    }
    assert(texts_view(r@) =~= texts_view(v@));
    r
}

/// The body paragraphs among the events of a document.
pub fn scan_events(events: &Vec<XmlEvent>) -> (r: Vec<ParagraphScan>)
    ensures
        scans_view(r@) == scanned(events_view(events@)),
{
    let ghost evs = events_view(events@);
    let mut c = Collector {
        done: Vec::new(),
        in_body: false,
        depth: 0,
        in_p: false,
        pstyle: None,
        text: String::new(),
        in_ppr: false,
        in_ppr_rpr: false,
        ppr_bold: false,
        ppr_size: None,
        in_run: false,
        in_run_rpr: false,
        run_bold: false,
        run_size: None,
        run_has_text: false,
        has_text_run: false,
        all_bold: true,
        run_sizes: Vec::new(),
    };
    let mut i: usize = 0;
    assert(evs.take(0) =~= Seq::empty());
    assert(c@ =~= collect_start());
    while i < events.len()
        invariant
            i <= events@.len(),
            evs == events_view(events@),
            -i <= c.depth <= i,
            c@ == collect_state(evs.take(i as int)),
        decreases events@.len() - i,
    {
        c.step(&events[i], Ghost(i as int));
        proof {
            assert(evs.take(i + 1).drop_last() =~= evs.take(i as int));
            assert(evs.take(i + 1).last() == events@[i as int]@);
        }
        i += 1;
    }
    assert(evs.take(i as int) =~= evs);
    c.done
}

/// The body paragraphs of a package's main document; none where there is no main
/// document.
pub fn collect_paragraphs(pkg: &Package) -> (res: Result<Vec<ParagraphScan>, Error>)
    ensures
        match part(pkg@, PART_DOCUMENT@) {
            None => res is Ok && res->Ok_0@.len() == 0,
            Some(doc) => if xml_readable(doc) {
                res is Ok && scans_view(res->Ok_0@) == scanned(xml_events(doc))
            } else {
                res is Err && res->Err_0.is_xml_parse(PART_DOCUMENT@)
            },
        },
{
    match pkg.get_part(PART_DOCUMENT) {
        None => Ok(Vec::new()),
        Some(doc) => {
            let events = parse_events(doc, PART_DOCUMENT)?;
            Ok(scan_events(&events))
        },
    }
}

// ---------------------------------------------------------------------------
// Inference
// ---------------------------------------------------------------------------

/// One paragraph's inferred heading level.
#[derive(Debug)]
pub struct HeadingInference {
    /// Position of the paragraph among the paragraphs that are children of the body.
    pub paragraph_index: usize,
    /// Inferred level, 1 to 9.
    pub heading_level: u8,
    /// The size the decision was made on, 0 where there was none.
    pub effective_size: i64,
    /// The first 60 characters of the paragraph.
    pub preview: String,
}

/// What an inference says.
#[verifier::ext_equal]
pub struct InferenceView {
    pub paragraph_index: int,
    pub heading_level: int,
    pub effective_size: int,
    pub preview: Seq<char>,
}

impl View for HeadingInference {
    type V = InferenceView;

    open spec fn view(&self) -> InferenceView {
        InferenceView {
            paragraph_index: self.paragraph_index as int,
            heading_level: self.heading_level as int,
            effective_size: self.effective_size as int,
            preview: self.preview@,
        }
    }
}

/// What a vector of inferences says.
pub open spec fn inferences_view(v: Seq<HeadingInference>) -> Seq<InferenceView> {
    v.map_values(|h: HeadingInference| h@)
}

/// How much larger than another a size must be to count as larger.
pub const SIZE_MARGIN: i64 = 400_000;

/// A paragraph without a style, or with one of the body. The style's display name
/// decides, where the styles are known.
pub open spec fn is_body_style(pstyle: Option<Seq<char>>, styles: Option<StyleIndexView>) -> bool {
    match pstyle {
        None => true,
        Some(id) => {
            let known = match styles {
                Some(s) => lookup(s.id_to_name, id),
                None => None,
            };
            let name = match known {
                Some(n) => n,
                None => id,
            };
            style_class(name).class is Body
        },
    }
}

/// A body paragraph with something to read.
pub open spec fn is_considered(s: ScanView, styles: Option<StyleIndexView>) -> bool {
    is_body_style(s.pstyle, styles) && trimmed(s.text).len() > 0
}

/// A paragraph that looks like a heading.
pub open spec fn is_candidate(s: ScanView, styles: Option<StyleIndexView>) -> bool {
    is_considered(s, styles) && s.effective_bold && s.text.len() < 100
}

/// The sizes of the paragraphs that are considered but do not look like headings.
pub open spec fn body_sizes(
    scans: Seq<ScanView>,
    sizes: Seq<Option<i64>>,
    styles: Option<StyleIndexView>,
) -> Seq<i64>
    decreases scans.len(),
{
    if scans.len() == 0 {
        Seq::empty()
    } else {
        let before = body_sizes(scans.drop_last(), sizes, styles);
        let i = scans.len() - 1;
        if is_considered(scans[i], styles) && !is_candidate(scans[i], styles) && sizes[i] is Some {
            before.push(sizes[i]->0)
        } else {
            before
        }
    }
}

/// How often a value occurs.
pub open spec fn count_of(values: Seq<i64>, v: i64) -> nat
    decreases values.len(),
{
    if values.len() == 0 {
        0
    } else {
        count_of(values.drop_last(), v) + if values.last() == v {
            1nat
        } else {
            0
        }
    }
}

/// A value that occurs at least as often as any other; zero where there is none.
pub open spec fn is_mode(values: Seq<i64>, m: i64) -> bool {
    if values.len() == 0 {
        m == 0
    } else {
        values.contains(m) && forall|v: i64| count_of(values, v) <= count_of(values, m)
    }
}

/// A descending sequence with one more value, unless it is there already.
pub open spec fn desc_insert(s: Seq<i64>, v: i64) -> Seq<i64>
    decreases s.len(),
{
    if s.len() == 0 {
        seq![v]
    } else if s.last() == v {
        s
    } else if s.last() > v {
        s.push(v)
    } else {
        desc_insert(s.drop_last(), v).push(s.last())
    }
}

/// The distinct sizes of the candidates that stand out from the body text, largest
/// first.
pub open spec fn heading_sizes(
    scans: Seq<ScanView>,
    sizes: Seq<Option<i64>>,
    styles: Option<StyleIndexView>,
    body: i64,
) -> Seq<i64>
    decreases scans.len(),
{
    if scans.len() == 0 {
        Seq::empty()
    } else {
        let before = heading_sizes(scans.drop_last(), sizes, styles, body);
        let i = scans.len() - 1;
        if is_candidate(scans[i], styles) && sizes[i] is Some && stands_out(sizes[i]->0, body) {
            desc_insert(before, sizes[i]->0)
        } else {
            before
        }
    }
}

/// A size that is larger than the body text's, where that is known.
pub open spec fn stands_out(size: i64, body: i64) -> bool {
    size > 0 && (body == 0 || size > body + SIZE_MARGIN)
}

/// The first size at or after the `i`-th that `size` reaches, within the margin.
pub open spec fn reached(heads: Seq<i64>, size: i64, i: int) -> int
    decreases heads.len() - i,
{
    if i >= heads.len() || size >= heads[i] - SIZE_MARGIN {
        i
    } else {
        reached(heads, size, i + 1)
    }
}

/// The level of a size among the heading sizes: the place of the first that it
/// reaches, or the last place, and nine at most. Without heading sizes every level is
/// one.
pub open spec fn level_of(heads: Seq<i64>, size: i64) -> int {
    let place = if heads.len() == 0 {
        1
    } else if reached(heads, size, 0) < heads.len() {
        reached(heads, size, 0) + 1
    } else {
        heads.len() as int
    };
    if place > 9 {
        9
    } else {
        place
    }
}

/// The inferences for the candidates among the first paragraphs.
pub open spec fn inferred(
    scans: Seq<ScanView>,
    sizes: Seq<Option<i64>>,
    styles: Option<StyleIndexView>,
    heads: Seq<i64>,
) -> Seq<InferenceView>
    decreases scans.len(),
{
    if scans.len() == 0 {
        Seq::empty()
    } else {
        let before = inferred(scans.drop_last(), sizes, styles, heads);
        let i = scans.len() - 1;
        if is_candidate(scans[i], styles) {
            let size = match sizes[i] {
                Some(z) => z,
                None => 0,
            };
            before.push(
                InferenceView {
                    paragraph_index: i,
                    heading_level: level_of(heads, size),
                    effective_size: size as int,
                    preview: if scans[i].text.len() > 60 {
                        scans[i].text.take(60)
                    } else {
                        scans[i].text
                    },
                },
            )
        } else {
            before
        }
    }
}

/// What an optional index of styles says.
pub open spec fn opt_styles(o: Option<&StyleIndex>) -> Option<StyleIndexView> {
    match o {
        Some(s) => Some(s@),
        None => None,
    }
}

fn is_body_class(pstyle: &Option<String>, styles: Option<&StyleIndex>) -> (r: bool)
    ensures
        r == is_body_style(opt_text(*pstyle), opt_styles(styles)),
{
    match pstyle {
        None => true,
        Some(id) => {
            let known: Option<&String> = match styles {
                Some(s) => s.id_to_name.get(id),
                None => None,
            };
            let name: &str = match known {
                Some(n) => n.as_str(),
                None => id.as_str(),
            };
            match classify_style(name).class {
                SemanticClass::Body => true,
                _ => false,
            }
        },
    }
}

fn considered(scan: &ParagraphScan, styles: Option<&StyleIndex>) -> (r: bool)
    ensures
        r == is_considered(scan@, opt_styles(styles)),
{
    is_body_class(&scan.pstyle, styles) && trim(&chars_of(&scan.text)).len() > 0
}

fn candidate(scan: &ParagraphScan, styles: Option<&StyleIndex>) -> (r: bool)
    ensures
        r == is_candidate(scan@, opt_styles(styles)),
{
    considered(scan, styles) && scan.effective_bold && chars_of(&scan.text).len() < 100
}

fn count(values: &Vec<i64>, v: i64) -> (n: usize)
    ensures
        n == count_of(values@, v),
{
    let mut n: usize = 0;
    let mut i: usize = 0;
    assert(values@.take(0) =~= Seq::empty());
    while i < values.len()
        invariant
            i <= values@.len(),
            n <= i,
            n == count_of(values@.take(i as int), v),
        decreases values@.len() - i,
    {
        proof {
            assert(values@.take(i + 1).drop_last() =~= values@.take(i as int));
        }
        if values[i] == v {
            n += 1;
        }
        i += 1;
    }
    assert(values@.take(i as int) =~= values@);
    n
}

proof fn lemma_count_absent(values: Seq<i64>, v: i64)
    requires
        !values.contains(v),
    ensures
        count_of(values, v) == 0,
    decreases values.len(),
{
    if values.len() > 0 {
        assert(values[values.len() - 1] != v);
        assert forall|i: int| 0 <= i < values.drop_last().len() implies values.drop_last()[i]
            != v by {
            assert(values[i] != v);
        }
        lemma_count_absent(values.drop_last(), v);
    }
}

/// A most frequent value; zero where there is none.
pub fn mode(values: &Vec<i64>) -> (m: i64)
    ensures
        is_mode(values@, m),
{
    if values.len() == 0 {
        return 0;
    }
    let mut best: i64 = values[0];
    let mut best_count: usize = count(values, best);
    let mut i: usize = 1;
    while i < values.len()
        invariant
            1 <= i <= values@.len(),
            values@.contains(best),
            best_count == count_of(values@, best),
            forall|j: int| 0 <= j < i ==> count_of(values@, #[trigger] values@[j]) <= best_count,
        decreases values@.len() - i,
    {
        let n: usize = count(values, values[i]);
        if n > best_count {
            best = values[i];
            best_count = n;
        }
        i += 1;
    }
    proof {
        assert forall|v: i64| count_of(values@, v) <= count_of(values@, best) by {
            if !values@.contains(v) {
                lemma_count_absent(values@, v);
            }
        }
    }
    best
}

fn insert_desc(v: &mut Vec<i64>, x: i64)
    ensures
        final(v)@ == desc_insert(old(v)@, x),
{
    let ghost all = v@;
    let mut n: usize = v.len();
    assert(all.take(n as int) =~= all);
    assert(desc_insert(all.take(n as int), x) + all.skip(n as int) =~= desc_insert(all, x));
    while n > 0 && v[n - 1] < x
        invariant
            n <= v@.len(),
            v@ == all,
            desc_insert(all.take(n as int), x) + all.skip(n as int) == desc_insert(all, x),
        decreases n,
    {
        proof {
            let t = all.take(n as int);
            assert(t.drop_last() =~= all.take(n - 1));
            assert(t.last() == all[n - 1]);
            assert(desc_insert(all.take(n - 1), x) + all.skip(n - 1) =~= desc_insert(t, x)
                + all.skip(n as int));
        }
        n -= 1;
    }
    proof {
        let t = all.take(n as int);
        if n > 0 {
            assert(t.last() == all[n - 1]);
        }
        if n > 0 && all[n - 1] == x {
            assert(t + all.skip(n as int) =~= all);
        } else {
            assert(all.insert(n as int, x) =~= t.push(x) + all.skip(n as int));
            assert(desc_insert(t, x) =~= t.push(x));
        }
    }
    if !(n > 0 && v[n - 1] == x) {
        v.insert(n, x);
    }
}

fn find_level(heads: &Vec<i64>, size: i64) -> (r: u8)
    ensures
        r == level_of(heads@, size),
{
    if heads.len() == 0 {
        return 1;
    }
    let mut i: usize = 0;
    while i < heads.len() && (size as i128) < (heads[i] as i128) - (SIZE_MARGIN as i128)
        invariant
            i <= heads@.len(),
            reached(heads@, size, 0) == reached(heads@, size, i as int),
        decreases heads@.len() - i,
    {
        i += 1;
    }
    let place: usize = if i < heads.len() {
        i + 1
    } else {
        heads.len()
    };
    if place > 9 {
        9
    } else {
        place as u8
    }
}

/// The headings inferred from the scans of the paragraphs, their sizes and the size
/// of the body text.
pub fn infer_levels(
    scans: &Vec<ParagraphScan>,
    sizes: &Vec<Option<i64>>,
    styles: Option<&StyleIndex>,
    body_size: i64,
) -> (r: Vec<HeadingInference>)
    requires
        scans@.len() == sizes@.len(),
    ensures
        inferences_view(r@) == inferred(
            scans_view(scans@),
            sizes@,
            opt_styles(styles),
            heading_sizes(scans_view(scans@), sizes@, opt_styles(styles), body_size),
        ),
{
    let ghost all = scans_view(scans@);
    let ghost st = opt_styles(styles);
    let mut heads: Vec<i64> = Vec::new();
    let mut i: usize = 0;
    assert(all.take(0) =~= Seq::empty());
    while i < scans.len()
        invariant
            i <= scans@.len(),
            scans@.len() == sizes@.len(),
            all == scans_view(scans@),
            st == opt_styles(styles),
            heads@ == heading_sizes(all.take(i as int), sizes@, st, body_size),
        decreases scans@.len() - i,
    {
        proof {
            assert(all.take(i + 1).drop_last() =~= all.take(i as int));
            assert(all.take(i + 1)[i as int] == scans@[i as int]@);
        }
        if candidate(&scans[i], styles) {
            if let Some(z) = sizes[i] {
                if z > 0 && (body_size == 0 || (z as i128) > (body_size as i128) + (
                SIZE_MARGIN as i128)) {
                    insert_desc(&mut heads, z);
                }
            }
        }
        i += 1;
    }
    assert(all.take(i as int) =~= all);
    let ghost h = heads@;
    let mut r: Vec<HeadingInference> = Vec::new();
    i = 0;
    assert(inferences_view(r@) =~= Seq::empty());
    while i < scans.len()
        invariant
            i <= scans@.len(),
            scans@.len() == sizes@.len(),
            all == scans_view(scans@),
            st == opt_styles(styles),
            h == heads@,
            inferences_view(r@) == inferred(all.take(i as int), sizes@, st, h),
        decreases scans@.len() - i,
    {
        proof {
            assert(all.take(i + 1).drop_last() =~= all.take(i as int));
            assert(all.take(i + 1)[i as int] == scans@[i as int]@);
        }
        if candidate(&scans[i], styles) {
            let size: i64 = match sizes[i] {
                Some(z) => z,
                None => 0,
            };
            let chars = chars_of(&scans[i].text);
            let n: usize = if chars.len() > 60 {
                60
            } else {
                chars.len()
            };
            let preview = string_of(vstd::slice::slice_subrange(chars.as_slice(), 0, n));
            let ghost before = r@;
            let one = HeadingInference {
                paragraph_index: i,
                heading_level: find_level(&heads, size),
                effective_size: size,
                preview,
            };
            r.push(one);
            assert(inferences_view(r@) =~= inferences_view(before).push(one@));
            assert(chars@.subrange(0, n as int) =~= one.preview@);
            assert(all[i as int].text.len() <= 60 ==> chars@.subrange(0, n as int) =~= chars@);
            assert(all[i as int].text.len() > 60 ==> chars@.subrange(0, n as int) =~= chars@.take(
                60,
            ));
        }
        i += 1;
    }
    assert(all.take(i as int) =~= all);
    r
}

/// The sizes of the paragraphs that are considered but do not look like headings.
fn collect_body_sizes(
    scans: &Vec<ParagraphScan>,
    sizes: &Vec<Option<i64>>,
    styles: Option<&StyleIndex>,
) -> (r: Vec<i64>)
    requires
        scans@.len() == sizes@.len(),
    ensures
        r@ == body_sizes(scans_view(scans@), sizes@, opt_styles(styles)),
{
    let ghost all = scans_view(scans@);
    let ghost st = opt_styles(styles);
    let mut r: Vec<i64> = Vec::new();
    let mut i: usize = 0;
    assert(all.take(0) =~= Seq::empty());
    while i < scans.len()
        invariant
            i <= scans@.len(),
            scans@.len() == sizes@.len(),
            all == scans_view(scans@),
            st == opt_styles(styles),
            r@ == body_sizes(all.take(i as int), sizes@, st),
        decreases scans@.len() - i,
    {
        proof {
            assert(all.take(i + 1).drop_last() =~= all.take(i as int));
            assert(all.take(i + 1)[i as int] == scans@[i as int]@);
        }
        if considered(&scans[i], styles) && !candidate(&scans[i], styles) {
            if let Some(z) = sizes[i] {
                r.push(z);
            }
        }
        i += 1;
    }
    assert(all.take(i as int) =~= all);
    r
}

/// The headings inferred from the scans of the paragraphs and their sizes. The body
/// text's size is the most frequent one; which of several most frequent is left open.
pub fn infer_headings(
    scans: &Vec<ParagraphScan>,
    sizes: &Vec<Option<i64>>,
    styles: Option<&StyleIndex>,
) -> (r: Vec<HeadingInference>)
    requires
        scans@.len() == sizes@.len(),
    ensures
        exists|body: i64|
            is_mode(body_sizes(scans_view(scans@), sizes@, opt_styles(styles)), body)
                && inferences_view(r@) == inferred(
                scans_view(scans@),
                sizes@,
                opt_styles(styles),
                #[trigger] heading_sizes(scans_view(scans@), sizes@, opt_styles(styles), body),
            ),
{
    let values = collect_body_sizes(scans, sizes, styles);
    let body: i64 = mode(&values);
    infer_levels(scans, sizes, styles, body)
}

// ---------------------------------------------------------------------------
// Application
// ---------------------------------------------------------------------------

/// The level that the last inference for a paragraph gives it.
pub open spec fn level_for(inferences: Seq<InferenceView>, index: int) -> Option<int>
    decreases inferences.len(),
{
    if inferences.len() == 0 {
        None
    } else if inferences.last().paragraph_index == index {
        Some(inferences.last().heading_level)
    } else {
        level_for(inferences.drop_last(), index)
    }
}

/// The mapper of a blueprint, without overrides.
pub open spec fn blueprint_mapper(idx: StyleIndexView) -> MapperView {
    mapper_of(idx, Seq::empty())
}

/// The id of the blueprint's style for a heading level.
pub open spec fn heading_style_id(idx: StyleIndexView, level: u8) -> Seq<char> {
    let name = mapped(blueprint_mapper(idx), Seq::empty(), SemanticClass::Heading(level), level);
    match lookup(idx.name_to_id, name) {
        Some(id) => id,
        None => name,
    }
}

/// How far the application has come.
#[verifier::ext_equal]
pub struct ApplyView {
    pub out: Seq<u8>,
    pub in_body: bool,
    /// How many elements are open inside the body.
    pub depth: int,
    /// Whether inside a body paragraph.
    pub in_p: bool,
    /// How many body paragraphs have been opened.
    pub opened: int,
    /// How many references have been rewritten.
    pub rewritten: nat,
}

/// The contents of a `<w:pStyle>` that refers to a style.
pub open spec fn pstyle_to(id: Seq<char>) -> Seq<u8> {
    lit("w:pStyle") + attr_bytes(lit("w:val"), encode_utf8(escaped(id)))
}

/// The level for the style reference that an event is, if there is one.
pub open spec fn level_here(s: ApplyView, inferences: Seq<InferenceView>, e: Ev) -> Option<int> {
    if s.in_p && s.depth == 2 && is_open_tag(e, "w:pStyle") {
        level_for(inferences, s.opened - 1)
    } else {
        None
    }
}

/// What one event does to an application. Only the style references in the properties of
/// body paragraphs are rewritten.
pub open spec fn apply_step(
    s: ApplyView,
    inferences: Seq<InferenceView>,
    idx: StyleIndexView,
    e: Ev,
) -> ApplyView {
    let child = s.in_body && s.depth == 0 && !is_end(e, "w:body");
    match level_here(s, inferences, e) {
        Some(level) => ApplyView {
            out: s.out + emitted(
                Ev { kind: e.kind, raw: pstyle_to(heading_style_id(idx, level as u8)) },
            ),
            depth: depth_after(s.depth, e),
            rewritten: s.rewritten + 1,
            ..s
        },
        None => ApplyView {
            out: s.out + emitted(e),
            in_body: is_start(e, "w:body") || (s.in_body && !is_end(e, "w:body")),
            depth: if is_start(e, "w:body") {
                0
            } else {
                depth_after(s.depth, e)
            },
            in_p: if child && is_start(e, "w:p") {
                true
            } else {
                s.in_p && !(s.depth == 1 && is_end(e, "w:p"))
            },
            opened: if child && (is_start(e, "w:p") || is_empty_tag(e, "w:p")) {
                s.opened + 1
            } else {
                s.opened
            },
            ..s
        },
    }
}

/// The state of the application after `events`.
pub open spec fn apply_state(
    events: Seq<Ev>,
    inferences: Seq<InferenceView>,
    idx: StyleIndexView,
) -> ApplyView
    decreases events.len(),
{
    if events.len() == 0 {
        ApplyView {
            out: Seq::empty(),
            in_body: false,
            depth: 0,
            in_p: false,
            opened: 0,
            rewritten: 0,
        }
    } else {
        apply_step(
            apply_state(events.drop_last(), inferences, idx),
            inferences,
            idx,
            events.last(),
        )
    }
}

fn find_level_for(inferences: &[HeadingInference], index: usize) -> (r: Option<u8>)
    ensures
        match r {
            Some(l) => level_for(inferences_view(inferences@), index as int) == Some(l as int),
            None => level_for(inferences_view(inferences@), index as int) is None,
        },
{
    let ghost all = inferences_view(inferences@);
    let mut n: usize = inferences.len();
    assert(all.take(n as int) =~= all);
    while n > 0
        invariant
            n <= inferences@.len(),
            all == inferences_view(inferences@),
            level_for(all, index as int) == level_for(all.take(n as int), index as int),
        decreases n,
    {
        proof {
            assert(all.take(n as int).drop_last() =~= all.take(n - 1));
            assert(all.take(n as int).last() == inferences@[n - 1]@);
        }
        if inferences[n - 1].paragraph_index == index {
            return Some(inferences[n - 1].heading_level);
        }
        n -= 1;
    }
    None
}

/// The events of a document with the style references of the inferred headings
/// rewritten, and how many were.
pub fn apply_to_events(
    events: &Vec<XmlEvent>,
    inferences: &[HeadingInference],
    blueprint_index: &StyleIndex,
) -> (r: (Vec<u8>, usize))
    ensures
        ({
            let s = apply_state(
                events_view(events@),
                inferences_view(inferences@),
                blueprint_index@,
            );
            r.0@ == s.out && r.1 == s.rewritten
        }),
{
    let ghost evs = events_view(events@);
    let ghost infs = inferences_view(inferences@);
    let ghost idx = blueprint_index@;
    let mapper = StyleMapper::new(blueprint_index, NameMap::new());
    let mut out: Vec<u8> = Vec::new();
    let mut in_body = false;
    let mut depth: i128 = 0;
    let mut in_p = false;
    let mut opened: usize = 0;
    let mut rewritten: usize = 0;
    let mut i: usize = 0;
    assert(evs.take(0) =~= Seq::empty());
    while i < events.len()
        invariant
            i <= events@.len(),
            -i <= depth <= i,
            opened <= i,
            in_p ==> opened >= 1,
            rewritten <= i,
            evs == events_view(events@),
            infs == inferences_view(inferences@),
            idx == blueprint_index@,
            mapper@ == blueprint_mapper(idx),
            apply_state(evs.take(i as int), infs, idx) == (ApplyView {
                out: out@,
                in_body,
                depth: depth as int,
                in_p,
                opened: opened as int,
                rewritten: rewritten as nat,
            }),
        decreases events@.len() - i,
    {
        let ev = &events[i];
        proof {
            assert(evs.take(i + 1).drop_last() =~= evs.take(i as int));
            assert(evs.take(i + 1).last() == ev@);
        }
        let body_start = ev.is_start("w:body");
        let body_end = ev.is_end("w:body");
        let child = in_body && depth == 0 && !body_end;
        let want: Option<u8> = if in_p && depth == 2 && ev.is_open_tag("w:pStyle") {
            find_level_for(inferences, opened - 1)
        } else {
            None
        };
        match want {
            Some(level) => {
                proof {
                    reveal_strlit("");
                    assert(""@ =~= Seq::<char>::empty());
                }
                let name = mapper.map("", &SemanticClass::Heading(level), level);
                let id: String = match blueprint_index.name_to_id.get(&name) {
                    Some(id) => id.clone(),
                    None => name,
                };
                assert(id@ == heading_style_id(idx, level));
                let mut raw: Vec<u8> = Vec::new();
                push_str(&mut raw, "w:pStyle");
                let value = escape_text(&id);
                push_attr(&mut raw, "w:val".as_bytes(), value.as_str().as_bytes());
                assert(raw@ =~= pstyle_to(id@));
                emit_raw(&mut out, ev.kind, &raw);
                rewritten += 1;
            },
            None => {
                if child && ev.is_start("w:p") {
                    in_p = true;
                    opened += 1;
                } else if depth == 1 && ev.is_end("w:p") {
                    in_p = false;
                } else if child && ev.is_empty_tag("w:p") {
                    opened += 1;
                }
                if body_start {
                    in_body = true;
                } else if body_end {
                    in_body = false;
                }
                emit(&mut out, ev);
            },
        }
        if ev.kind == EventKind::Start {
            depth += 1;
        } else if ev.kind == EventKind::End {
            depth -= 1;
        }
        if body_start && want.is_none() {
            depth = 0;
        }
        i += 1;
    }
    assert(evs.take(i as int) =~= evs);
    (out, rewritten)
}

/// Points the style reference of every paragraph with an inferred heading level at
/// the blueprint's heading style. Returns how many references were rewritten.
pub fn apply_heading_inferences(
    pkg: &mut Package,
    inferences: &[HeadingInference],
    blueprint_index: &StyleIndex,
) -> (res: Result<usize, Error>)
    ensures
        final(pkg).source_view() == old(pkg).source_view(),
        match part(old(pkg)@, PART_DOCUMENT@) {
            Some(doc) if inferences@.len() > 0 => if xml_readable(doc) {
                let s = apply_state(
                    xml_events(doc),
                    inferences_view(inferences@),
                    blueprint_index@,
                );
                &&& res is Ok
                &&& res->Ok_0 == s.rewritten
                &&& final(pkg)@ == with_part(old(pkg)@, PART_DOCUMENT@, s.out)
            } else {
                res is Err && res->Err_0.is_xml_parse(PART_DOCUMENT@) && final(pkg)@ == old(pkg)@
            },
            _ => res == Ok::<usize, Error>(0) && final(pkg)@ == old(pkg)@,
        },
{
    if inferences.len() == 0 {
        return Ok(0);
    }
    let (out, rewritten) = match pkg.get_part(PART_DOCUMENT) {
        None => return Ok(0),
        Some(doc) => {
            let events = parse_events(doc, PART_DOCUMENT)?;
            apply_to_events(&events, inferences, blueprint_index)
        },
    };
    pkg.set_part(PART_DOCUMENT, out);
    Ok(rewritten)
}

// ---------------------------------------------------------------------------
// Laws
// ---------------------------------------------------------------------------

proof fn lemma_reached(heads: Seq<i64>, larger: i64, smaller: i64, i: int)
    requires
        0 <= i <= heads.len(),
        smaller <= larger,
    ensures
        i <= reached(heads, larger, i) <= reached(heads, smaller, i) <= heads.len(),
    decreases heads.len() - i,
{
    if i < heads.len() && larger < heads[i] - SIZE_MARGIN {
        lemma_reached(heads, larger, smaller, i + 1);
    } else if i < heads.len() && smaller < heads[i] - SIZE_MARGIN {
        lemma_reached(heads, smaller, smaller, i + 1);
    }
}

/// A larger size never has a lower rank, levels are between one and nine, and where the
/// candidates share one size, or none has a size, every level is one.
pub proof fn law_larger_sizes_rank_higher(heads: Seq<i64>, larger: i64, smaller: i64)
    requires
        smaller <= larger,
    ensures
        1 <= level_of(heads, larger) <= level_of(heads, smaller) <= 9,
        heads.len() <= 1 ==> level_of(heads, smaller) == 1,
{
    lemma_reached(heads, larger, smaller, 0);
}

/// Every inference is of a paragraph that looks like a heading, every such paragraph has
/// one, and they come in document order.
pub proof fn law_inferences_are_candidates(
    scans: Seq<ScanView>,
    sizes: Seq<Option<i64>>,
    styles: Option<StyleIndexView>,
    heads: Seq<i64>,
)
    ensures
        ({
            let r = inferred(scans, sizes, styles, heads);
            &&& forall|k: int|
                0 <= k < r.len() ==> 0 <= (#[trigger] r[k]).paragraph_index < scans.len()
                    && is_candidate(scans[r[k].paragraph_index], styles) && 1 <= r[k].heading_level
                    <= 9
            &&& forall|k: int, l: int|
                0 <= k < l < r.len() ==> (#[trigger] r[k]).paragraph_index < (
                #[trigger] r[l]).paragraph_index
            &&& forall|i: int|
                0 <= i < scans.len() && is_candidate(#[trigger] scans[i], styles) ==> exists|k: int|
                    0 <= k < r.len() && (#[trigger] r[k]).paragraph_index == i
        }),
    decreases scans.len(),
{
    if scans.len() > 0 {
        let init = scans.drop_last();
        let last = scans.len() - 1;
        law_inferences_are_candidates(init, sizes, styles, heads);
        let before = inferred(init, sizes, styles, heads);
        let r = inferred(scans, sizes, styles, heads);
        assert forall|k: int| 0 <= k < r.len() implies 0 <= (#[trigger] r[k]).paragraph_index
            < scans.len() && is_candidate(scans[r[k].paragraph_index], styles) && 1
            <= r[k].heading_level <= 9 by {
            if k < before.len() {
                assert(r[k] == before[k]);
                assert(scans[r[k].paragraph_index] == init[r[k].paragraph_index]);
            } else {
                let size = match sizes[last] {
                    Some(z) => z,
                    None => 0,
                };
                law_larger_sizes_rank_higher(heads, size, size);
            }
        }
        assert forall|k: int, l: int| 0 <= k < l < r.len() implies (#[trigger] r[k]).paragraph_index
            < (#[trigger] r[l]).paragraph_index by {
            assert(r[k] == before[k]);
            if l < before.len() {
                assert(r[l] == before[l]);
            }
        }
        assert forall|i: int|
            0 <= i < scans.len() && is_candidate(#[trigger] scans[i], styles) implies exists|k: int|
            0 <= k < r.len() && (#[trigger] r[k]).paragraph_index == i by {
            if i < last {
                assert(init[i] == scans[i]);
                let k = choose|k: int|
                    0 <= k < before.len() && (#[trigger] before[k]).paragraph_index == i;
                assert(r[k] == before[k]);
            } else {
                assert(r[before.len() as int].paragraph_index == i);
            }
        }
    }
}

/// The sizes are in descending order, without repetition.
pub open spec fn is_descending(v: Seq<i64>) -> bool {
    forall|i: int, j: int| 0 <= i < j < v.len() ==> #[trigger] v[i] > #[trigger] v[j]
}

proof fn lemma_desc_insert(v: Seq<i64>, x: i64)
    requires
        is_descending(v),
    ensures
        is_descending(desc_insert(v, x)),
        forall|y: i64| #[trigger] desc_insert(v, x).contains(y) <==> v.contains(y) || y == x,
    decreases v.len(),
{
    let r = desc_insert(v, x);
    if v.len() == 0 {
        assert(r[0] == x);
    } else if v.last() == x {
    } else if v.last() > x {
        assert forall|y: i64| #[trigger] r.contains(y) <==> v.contains(y) || y == x by {
            if v.contains(y) {
                let k = choose|k: int| 0 <= k < v.len() && v[k] == y;
                assert(r[k] == y);
            }
            assert(r[v.len() as int] == x);
        }
    } else {
        let init = v.drop_last();
        lemma_desc_insert(init, x);
        let before = desc_insert(init, x);
        assert forall|i: int, j: int| 0 <= i < j < r.len() implies #[trigger] r[i]
            > #[trigger] r[j] by {
            if j == r.len() - 1 {
                assert(before.contains(before[i]));
                if before[i] != x {
                    let k = choose|k: int| 0 <= k < init.len() && init[k] == before[i];
                    assert(v[k] > v[v.len() - 1]);
                }
            } else {
                assert(before[i] > before[j]);
            }
        }
        assert forall|y: i64| #[trigger] r.contains(y) <==> v.contains(y) || y == x by {
            if r.contains(y) {
                let k = choose|k: int| 0 <= k < r.len() && r[k] == y;
                if k < before.len() {
                    assert(before.contains(y));
                    if y != x {
                        let m = choose|m: int| 0 <= m < init.len() && init[m] == y;
                        assert(v[m] == y);
                    }
                } else {
                    assert(v[v.len() - 1] == y);
                }
            }
            if v.contains(y) || y == x {
                if before.contains(y) {
                    let k = choose|k: int| 0 <= k < before.len() && before[k] == y;
                    assert(r[k] == y);
                } else {
                    let m = choose|m: int| 0 <= m < v.len() && v[m] == y;
                    if m < init.len() {
                        assert(init[m] == y);
                    }
                    assert(r[r.len() - 1] == v.last());
                }
            }
        }
    }
}

/// A paragraph that looks like a heading has this size, which is more than 0.4 points larger
/// than the body text's where that is known.
pub open spec fn is_heading_size(
    scans: Seq<ScanView>,
    sizes: Seq<Option<i64>>,
    styles: Option<StyleIndexView>,
    body: i64,
    size: i64,
) -> bool {
    &&& size > 0
    &&& body != 0 ==> size > body + 400_000
    &&& exists|i: int|
        0 <= i < scans.len() && is_candidate(scans[i], styles) && #[trigger] sizes[i] == Some(size)
}

/// The heading sizes are the sizes of the paragraphs that look like headings and stand out
/// from the body text, each once, largest first.
pub proof fn law_heading_sizes(
    scans: Seq<ScanView>,
    sizes: Seq<Option<i64>>,
    styles: Option<StyleIndexView>,
    body: i64,
)
    ensures
        is_descending(heading_sizes(scans, sizes, styles, body)),
        forall|size: i64| #[trigger]
            heading_sizes(scans, sizes, styles, body).contains(size) <==> is_heading_size(
                scans,
                sizes,
                styles,
                body,
                size,
            ),
    decreases scans.len(),
{
    if scans.len() > 0 {
        let init = scans.drop_last();
        let last = scans.len() - 1;
        law_heading_sizes(init, sizes, styles, body);
        let before = heading_sizes(init, sizes, styles, body);
        let after = heading_sizes(scans, sizes, styles, body);
        if let Some(z) = sizes[last] {
            lemma_desc_insert(before, z);
        }
        assert forall|size: i64| #[trigger] after.contains(size) <==> is_heading_size(
            scans,
            sizes,
            styles,
            body,
            size,
        ) by {
            assert(before.contains(size) <==> is_heading_size(init, sizes, styles, body, size));
            if is_heading_size(scans, sizes, styles, body, size) {
                let i = choose|i: int|
                    0 <= i < scans.len() && is_candidate(scans[i], styles) && #[trigger] sizes[i]
                        == Some(size);
                if i < last {
                    assert(init[i] == scans[i]);
                    assert(is_heading_size(init, sizes, styles, body, size));
                }
            }
            if is_heading_size(init, sizes, styles, body, size) {
                let i = choose|i: int|
                    0 <= i < init.len() && is_candidate(init[i], styles) && #[trigger] sizes[i]
                        == Some(size);
                assert(scans[i] == init[i]);
                assert(is_heading_size(scans, sizes, styles, body, size));
            }
        }
    }
}

proof fn lemma_reached_at(heads: Seq<i64>, size: i64, i: int, from: int)
    requires
        0 <= from <= i <= heads.len(),
        i < heads.len() ==> size >= heads[i] - 400_000,
        forall|j: int| 0 <= j < i ==> size < #[trigger] heads[j] - 400_000,
    ensures
        reached(heads, size, from) == i,
    decreases i - from,
{
    if from < i {
        assert(size < heads[from] - 400_000);
        lemma_reached_at(heads, size, i, from + 1);
    }
}

/// The level of a size is the place, counted from one and nine at most, of the first heading
/// size that it reaches to within 0.4 points.
pub proof fn law_level_is_the_place_reached(heads: Seq<i64>, size: i64, i: int)
    requires
        0 <= i < heads.len(),
        size >= heads[i] - 400_000,
        forall|j: int| 0 <= j < i ==> size < #[trigger] heads[j] - 400_000,
    ensures
        i < 9 ==> level_of(heads, size) == i + 1,
        i >= 9 ==> level_of(heads, size) == 9,
{
    lemma_reached_at(heads, size, i, 0);
}

/// A size that reaches no heading size is at the last place.
pub proof fn law_small_sizes_come_last(heads: Seq<i64>, size: i64)
    requires
        heads.len() > 0,
        forall|j: int| 0 <= j < heads.len() ==> size < #[trigger] heads[j] - 400_000,
    ensures
        heads.len() < 9 ==> level_of(heads, size) == heads.len(),
        heads.len() >= 9 ==> level_of(heads, size) == 9,
{
    lemma_reached_at(heads, size, heads.len() as int, 0);
}

/// Where the heading sizes lie more than 0.4 points apart, largest first, each has its own
/// level as long as there are levels: the largest level one, the next level two, and so on.
pub proof fn law_sizes_in_order_are_levels(heads: Seq<i64>, i: int)
    requires
        0 <= i < heads.len(),
        forall|a: int, b: int|
            0 <= a < b < heads.len() ==> #[trigger] heads[a] > #[trigger] heads[b] + 400_000,
    ensures
        i < 9 ==> level_of(heads, heads[i]) == i + 1,
        i >= 9 ==> level_of(heads, heads[i]) == 9,
{
    assert forall|j: int| 0 <= j < i implies heads[i] < #[trigger] heads[j] - 400_000 by {
        assert(heads[j] > heads[i] + 400_000);
    }
    law_level_is_the_place_reached(heads, heads[i], i);
}

/// An inference says of its paragraph the size, zero where it has none, the level of that size
/// among the heading sizes, and the first sixty characters.
pub proof fn law_inferences_say_of_paragraphs(
    scans: Seq<ScanView>,
    sizes: Seq<Option<i64>>,
    styles: Option<StyleIndexView>,
    heads: Seq<i64>,
    k: int,
)
    requires
        0 <= k < inferred(scans, sizes, styles, heads).len(),
    ensures
        ({
            let r = inferred(scans, sizes, styles, heads)[k];
            let i = r.paragraph_index;
            &&& 0 <= i < scans.len()
            &&& is_candidate(scans[i], styles)
            &&& sizes[i] matches Some(z) ==> r.effective_size == z && r.heading_level == level_of(
                heads,
                z,
            )
            &&& sizes[i] is None ==> r.effective_size == 0 && r.heading_level == level_of(heads, 0)
            &&& r.preview.len() == 60 || r.preview.len() == scans[i].text.len() < 60
            &&& r.preview == scans[i].text.take(r.preview.len() as int)
        }),
    decreases scans.len(),
{
    let init = scans.drop_last();
    let last = scans.len() - 1;
    let before = inferred(init, sizes, styles, heads);
    if k < before.len() {
        law_inferences_say_of_paragraphs(init, sizes, styles, heads, k);
        let i = before[k].paragraph_index;
        assert(inferred(scans, sizes, styles, heads)[k] == before[k]);
        assert(scans[i] == init[i]);
    } else {
        assert(scans[last].text.take(scans[last].text.len() as int) =~= scans[last].text);
    }
}

/// The heading sizes that are larger than a size.
pub open spec fn larger_sizes(
    scans: Seq<ScanView>,
    sizes: Seq<Option<i64>>,
    styles: Option<StyleIndexView>,
    body: i64,
    size: i64,
) -> Set<i64> {
    Set::new(|v: i64| v > size && is_heading_size(scans, sizes, styles, body, v))
}

/// Where the heading sizes lie more than 0.4 points apart, the level of a heading is one more
/// than there are larger heading sizes, and nine at most.
pub proof fn law_larger_sizes_come_first(
    scans: Seq<ScanView>,
    sizes: Seq<Option<i64>>,
    styles: Option<StyleIndexView>,
    body: i64,
    k: int,
)
    requires
        0 <= k < inferred(scans, sizes, styles, heading_sizes(scans, sizes, styles, body)).len(),
        forall|a: i64, b: i64|
            a > b && #[trigger] is_heading_size(scans, sizes, styles, body, a)
                && #[trigger] is_heading_size(scans, sizes, styles, body, b) ==> a > b + 400_000,
    ensures
        ({
            let r = inferred(scans, sizes, styles, heading_sizes(scans, sizes, styles, body))[k];
            let larger = larger_sizes(scans, sizes, styles, body, r.effective_size as i64);
            is_heading_size(scans, sizes, styles, body, r.effective_size as i64) ==> {
                &&& larger.finite()
                &&& larger.len() < 9 ==> r.heading_level == larger.len() + 1
                &&& larger.len() >= 9 ==> r.heading_level == 9
            }
        }),
{
    let heads = heading_sizes(scans, sizes, styles, body);
    law_heading_sizes(scans, sizes, styles, body);
    law_inferences_say_of_paragraphs(scans, sizes, styles, heads, k);
    let r = inferred(scans, sizes, styles, heads)[k];
    let z = r.effective_size as i64;
    if is_heading_size(scans, sizes, styles, body, z) {
        assert(heads.contains(z));
        let i = choose|i: int| 0 <= i < heads.len() && heads[i] == z;
        assert forall|a: int, b: int| 0 <= a < b < heads.len() implies #[trigger] heads[a]
            > #[trigger] heads[b] + 400_000 by {
            assert(heads.contains(heads[a]));
            assert(heads.contains(heads[b]));
        }
        law_sizes_in_order_are_levels(heads, i);
        let first = heads.take(i);
        let larger = larger_sizes(scans, sizes, styles, body, z);
        assert forall|a: int, b: int| 0 <= a < first.len() && 0 <= b < first.len() && a
            != b implies first[a] != first[b] by {
            assert(heads[a] != heads[b]);
        }
        assert forall|v: i64| #[trigger] larger.contains(v) <==> first.to_set().contains(v) by {
            if larger.contains(v) {
                assert(heads.contains(v));
                let j = choose|j: int| 0 <= j < heads.len() && heads[j] == v;
                assert(first[j] == v);
            }
            if first.contains(v) {
                let j = choose|j: int| 0 <= j < first.len() && first[j] == v;
                assert(heads[j] == v);
                assert(heads.contains(v));
            }
        }
        assert(larger =~= first.to_set());
        first.unique_seq_to_set();
    }
}

/// A paragraph looks like a heading only if it is bold, shorter than a hundred characters and
/// not blank; without a style of its own it then does.
pub proof fn law_candidates(s: ScanView, styles: Option<StyleIndexView>)
    ensures
        is_candidate(s, styles) ==> s.effective_bold && s.text.len() < 100 && trimmed(s.text).len()
            > 0,
        s.pstyle is None && s.effective_bold && s.text.len() < 100 && trimmed(s.text).len() > 0
            ==> is_candidate(s, styles),
{
}

/// The sizes of the body text are those of the paragraphs with something to read that do not
/// look like headings.
pub proof fn law_body_sizes(
    scans: Seq<ScanView>,
    sizes: Seq<Option<i64>>,
    styles: Option<StyleIndexView>,
    size: i64,
)
    ensures
        body_sizes(scans, sizes, styles).contains(size) <==> exists|i: int|
            0 <= i < scans.len() && is_considered(scans[i], styles) && !is_candidate(
                scans[i],
                styles,
            ) && #[trigger] sizes[i] == Some(size),
    decreases scans.len(),
{
    if scans.len() > 0 {
        let init = scans.drop_last();
        let last = scans.len() - 1;
        law_body_sizes(init, sizes, styles, size);
        let before = body_sizes(init, sizes, styles);
        let all = body_sizes(scans, sizes, styles);
        if before.contains(size) {
            let k = choose|k: int| 0 <= k < before.len() && before[k] == size;
            assert(all[k] == size);
            let i = choose|i: int|
                0 <= i < init.len() && is_considered(init[i], styles) && !is_candidate(
                    init[i],
                    styles,
                ) && #[trigger] sizes[i] == Some(size);
            assert(scans[i] == init[i]);
        }
        if all.contains(size) && !before.contains(size) {
            let k = choose|k: int| 0 <= k < all.len() && all[k] == size;
            if k < before.len() {
                assert(before[k] == size);
            }
            assert(sizes[last] == Some(size));
        }
        if exists|i: int|
            0 <= i < scans.len() && is_considered(scans[i], styles) && !is_candidate(
                scans[i],
                styles,
            ) && #[trigger] sizes[i] == Some(size) {
            let i = choose|i: int|
                0 <= i < scans.len() && is_considered(scans[i], styles) && !is_candidate(
                    scans[i],
                    styles,
                ) && #[trigger] sizes[i] == Some(size);
            if i < last {
                assert(init[i] == scans[i]);
            } else {
                assert(all[before.len() as int] == size);
            }
        }
    }
}

/// Which value is most frequent goes by how many times each stands among the values.
pub proof fn law_values_are_counted(values: Seq<i64>, v: i64)
    ensures
        count_of(values, v) == values.filter(|x: i64| x == v).len(),
    decreases values.len(),
{
    reveal(Seq::filter);
    if values.len() > 0 {
        law_values_are_counted(values.drop_last(), v);
    }
}

/// A paragraph with a style is considered only where the style's name, or its id where the
/// name is not known, is that of body text.
pub proof fn law_styled_paragraphs(s: ScanView, styles: Option<StyleIndexView>, id: Seq<char>)
    requires
        s.pstyle == Some(id),
    ensures
        is_considered(s, styles) ==> trimmed(s.text).len() > 0,
        styles is None ==> (is_considered(s, styles) <==> style_class(id).class is Body && trimmed(
            s.text,
        ).len() > 0),
        styles matches Some(idx) ==> lookup(idx.id_to_name, id) matches Some(name) ==> (
        is_considered(s, styles) <==> style_class(name).class is Body && trimmed(s.text).len() > 0),
{
}

} // verus!
