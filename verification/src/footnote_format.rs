//! The look of footnote numbers: captured from a blueprint, applied to other notes.
//!
//! The format of a footnote number is the run properties of the run that holds the
//! number, and what separates it from the text of the note. Notes that were carried
//! over from another document take on the blueprint's format here.

use vstd::prelude::*;

use crate::bytes::{add_capped, capped, lit, push_str};
use crate::clean_runs::emit_all;
use crate::error::Error;
use crate::ns::{PART_ENDNOTES, PART_FOOTNOTES};
use crate::package::{part, Package, Parts};
use crate::paragraph_runs::opt_bytes;
use crate::story::{pass_part, Pass};
use crate::style_mapper::{is_open_tag, opt_text, push_attr};
use crate::text::{
    chars_of, parse_unsigned, parsed_unsigned, str_eq, trim, trimmed, utf8_str, utf8_text,
};
use crate::wellformed::depth_after;
use crate::xml::{
    attr_bytes, attr_value, emit, emitted, emitted_all, events_view, get_attr, is_end, is_read,
    is_start,
    parse_events, read_events, tag_attrs, tag_name, xml_events, xml_readable, Ev, EventKind,
    XmlEvent,
};

verus! {

/// The format of footnote numbers.
#[derive(Debug)]
pub struct FootnoteFormat {
    /// The `<w:rPr>..</w:rPr>` bytes of the run that holds the number; `None` if no
    /// numbered footnote was found.
    pub marker_rpr_xml: Option<Vec<u8>>,
    /// What separates the number from the text: a tab, white space, nothing; `None` if
    /// no numbered footnote was found.
    pub separator: Option<String>,
}

/// The format of footnote numbers.
#[verifier::ext_equal]
pub struct FormatView {
    pub marker_rpr_xml: Option<Seq<u8>>,
    pub separator: Option<Seq<char>>,
}

impl View for FootnoteFormat {
    type V = FormatView;

    open spec fn view(&self) -> FormatView {
        FormatView {
            marker_rpr_xml: opt_bytes(self.marker_rpr_xml),
            separator: opt_text(self.separator),
        }
    }
}

/// Nothing known of the format.
pub open spec fn no_format() -> FormatView {
    FormatView { marker_rpr_xml: None, separator: None }
}

impl Default for FootnoteFormat {
    fn default() -> (r: Self)
        ensures
            r@ == no_format(),
    {
        FootnoteFormat { marker_rpr_xml: None, separator: None }
    }
}

// ---------------------------------------------------------------------------
// Capture
// ---------------------------------------------------------------------------

/// A note with a number greater than zero; the others are Word's own separators.
pub open spec fn has_positive_id(e: Ev) -> bool {
    match attr_value(tag_attrs(e, true), "w:id") {
        Some(v) => match utf8_text(v) {
            Some(t) => match parsed_unsigned(t, i64::MAX as int) {
                Some(n) => n > 0,
                None => false,
            },
            None => false,
        },
        None => false,
    }
}

/// Some event opens the marker of a footnote's own number.
pub open spec fn has_number_mark(events: Seq<Ev>) -> bool {
    exists|i: int| 0 <= i < events.len() && is_open_tag(#[trigger] events[i], "w:footnoteRef")
}

/// The first start of run properties at or after `i`.
pub open spec fn rpr_start(events: Seq<Ev>, i: int) -> Option<int>
    decreases events.len() - i,
{
    if i >= events.len() {
        None
    } else if is_start(events[i], "w:rPr") {
        Some(i)
    } else {
        rpr_start(events, i + 1)
    }
}

/// The position after the element that is open at `i`, with `depth` elements open in it; the
/// end where it is not closed.
pub open spec fn rpr_stop(events: Seq<Ev>, i: int, depth: int) -> int
    decreases events.len() - i,
{
    if i >= events.len() {
        events.len() as int
    } else if depth_after(depth, events[i]) == 0 {
        i + 1
    } else {
        rpr_stop(events, i + 1, depth_after(depth, events[i]))
    }
}

/// The bytes of the run properties among `events`.
pub open spec fn rpr_bytes(events: Seq<Ev>) -> Option<Seq<u8>> {
    match rpr_start(events, 0) {
        None => None,
        Some(i) => Some(emitted_all(events.subrange(i, rpr_stop(events, i, 0)))),
    }
}

/// Some event opens a tab.
pub open spec fn has_tab(events: Seq<Ev>) -> bool {
    exists|i: int| 0 <= i < events.len() && is_open_tag(#[trigger] events[i], "w:tab")
}

/// The raw text of the events, where it is UTF-8.
pub open spec fn raw_text(events: Seq<Ev>) -> Seq<char>
    decreases events.len(),
{
    if events.len() == 0 {
        Seq::empty()
    } else {
        let before = raw_text(events.drop_last());
        let e = events.last();
        if e.kind == EventKind::Text && utf8_text(e.raw) is Some {
            before + utf8_text(e.raw)->0
        } else {
            before
        }
    }
}

/// What a run says as a separator: a tab if it has one, else its text where that is white
/// space. A run with other text is part of the note, and no separator.
pub open spec fn separator_of(events: Seq<Ev>) -> Option<Seq<char>> {
    if has_tab(events) {
        Some("\t"@)
    } else if trimmed(raw_text(events)).len() == 0 {
        Some(raw_text(events))
    } else {
        None
    }
}

/// How far the capture has come.
#[verifier::ext_equal]
pub struct CaptureView {
    pub format: FormatView,
    /// Whether inside a numbered footnote.
    pub in_note: bool,
    /// How many numbered footnotes have been opened.
    pub samples: int,
    pub in_first_para: bool,
    /// How many paragraphs of the footnote have been opened.
    pub paragraphs: int,
    /// The contents of the open run.
    pub run: Option<Seq<Ev>>,
    /// Whether the next run may be the separator.
    pub expect_separator: bool,
    /// Whether enough has been seen.
    pub stopped: bool,
}

/// Nothing seen yet.
pub open spec fn capture_start() -> CaptureView {
    CaptureView {
        format: no_format(),
        in_note: false,
        samples: 0,
        in_first_para: false,
        paragraphs: 0,
        run: None,
        expect_separator: false,
        stopped: false,
    }
}

/// What the end of a run does to a capture.
pub open spec fn run_captured(s: CaptureView, events: Seq<Ev>) -> CaptureView {
    if has_number_mark(events) && s.format.marker_rpr_xml is None {
        CaptureView {
            format: FormatView { marker_rpr_xml: rpr_bytes(events), ..s.format },
            expect_separator: s.format.separator is None,
            run: None,
            ..s
        }
    } else if s.expect_separator && s.format.separator is None {
        CaptureView {
            format: FormatView { separator: separator_of(events), ..s.format },
            expect_separator: false,
            run: None,
            ..s
        }
    } else {
        CaptureView { run: None, ..s }
    }
}

/// What one event does to a capture.
pub open spec fn capture_step(s: CaptureView, e: Ev) -> CaptureView {
    if s.stopped {
        s
    } else if is_start(e, "w:footnote") {
        CaptureView {
            in_note: has_positive_id(e),
            paragraphs: 0,
            in_first_para: false,
            expect_separator: false,
            samples: if has_positive_id(e) {
                s.samples + 1
            } else {
                s.samples
            },
            ..s
        }
    } else if is_end(e, "w:footnote") {
        if (s.format.marker_rpr_xml is Some && s.format.separator is Some) || s.samples >= 3 {
            CaptureView { stopped: true, ..s }
        } else {
            CaptureView { in_note: false, in_first_para: false, expect_separator: false, ..s }
        }
    } else if s.in_note && is_start(e, "w:p") {
        CaptureView { paragraphs: s.paragraphs + 1, in_first_para: s.paragraphs == 0, ..s }
    } else if s.in_note && is_end(e, "w:p") {
        CaptureView { in_first_para: false, ..s }
    } else if s.in_first_para && is_start(e, "w:r") {
        CaptureView { run: Some(Seq::empty()), ..s }
    } else if s.in_first_para && is_end(e, "w:r") {
        match s.run {
            Some(events) => run_captured(s, events),
            None => s,
        }
    } else {
        match s.run {
            Some(events) => CaptureView { run: Some(events.push(e)), ..s },
            None => s,
        }
    }
}

/// The state of the capture after `events`.
pub open spec fn capture_state(events: Seq<Ev>) -> CaptureView
    decreases events.len(),
{
    if events.len() == 0 {
        capture_start()
    } else {
        capture_step(capture_state(events.drop_last()), events.last())
    }
}

/// The format that a capture comes to. Where numbered footnotes were seen but no
/// separator, the separator is empty.
pub open spec fn captured_format(s: CaptureView) -> FormatView {
    if s.samples > 0 && s.format.separator is None {
        FormatView { separator: Some(Seq::empty()), ..s.format }
    } else {
        s.format
    }
}

/// The format of a footnotes part. A part that cannot be read as far as needed gives
/// none.
pub open spec fn part_format(data: Seq<u8>) -> FormatView {
    let s = capture_state(xml_events(data));
    if xml_readable(data) || s.stopped {
        captured_format(s)
    } else {
        no_format()
    }
}

fn positive_id(ev: &XmlEvent) -> (r: bool)
    ensures
        r == has_positive_id(ev@),
{
    if let Some(v) = get_attr(ev, "w:id") {
        if let Some(t) = utf8_str(&v) {
            if let Some(n) = parse_unsigned(&chars_of(t), i64::MAX as u64) {
                return n > 0;
            }
        }
    }
    false
}

fn run_payload_has_footnote_ref(events: &Vec<XmlEvent>) -> (r: bool)
    ensures
        r == has_number_mark(events_view(events@)),
{
    let ghost evs = events_view(events@);
    let mut i: usize = 0;
    while i < events.len()
        invariant
            i <= events@.len(),
            evs == events_view(events@),
            forall|j: int| 0 <= j < i ==> !is_open_tag(#[trigger] evs[j], "w:footnoteRef"),
        decreases events@.len() - i,
    {
        assert(evs[i as int] == events@[i as int]@);
        if events[i].is_open_tag("w:footnoteRef") {
            return true;
        }
        i += 1;
    }
    false
}

/// The bytes of the run properties among the events.
fn extract_rpr_xml(events: &Vec<XmlEvent>) -> (r: Option<Vec<u8>>)
    ensures
        opt_bytes(r) == rpr_bytes(events_view(events@)),
{
    let ghost evs = events_view(events@);
    let mut i: usize = 0;
    while i < events.len() && !events[i].is_start("w:rPr")
        invariant
            i <= events@.len(),
            evs == events_view(events@),
            rpr_start(evs, 0) == rpr_start(evs, i as int),
        decreases events@.len() - i,
    {
        assert(evs[i as int] == events@[i as int]@);
        i += 1;
    }
    if i == events.len() {
        return None;
    }
    assert(evs[i as int] == events@[i as int]@);
    let ghost start = i as int;
    let mut out: Vec<u8> = Vec::new();
    let mut depth: i128 = 0;
    assert(evs.subrange(start, start) =~= Seq::empty());
    while i < events.len()
        invariant
            start <= i <= events@.len(),
            evs == events_view(events@),
            rpr_start(evs, 0) == Some(start),
            0 <= start,
            -i <= depth <= i,
            rpr_stop(evs, start, 0) == rpr_stop(evs, i as int, depth as int),
            out@ == emitted_all(evs.subrange(start, i as int)),
        decreases events@.len() - i,
    {
        let ev = &events[i];
        emit(&mut out, ev);
        proof {
            assert(evs[i as int] == ev@);
            let upto = evs.subrange(start, i + 1);
            assert(upto.drop_last() =~= evs.subrange(start, i as int));
            assert(upto.last() == ev@);
        }
        if ev.kind == EventKind::Start {
            depth += 1;
        } else if ev.kind == EventKind::End {
            depth -= 1;
        }
        if depth == 0 {
            return Some(out);
        }
        i += 1;
    }
    Some(out)
}

/// Whether the events from `from` up to `to` open a tab, and their raw text.
fn tab_and_text(events: &Vec<XmlEvent>, from: usize, to: usize) -> (r: (bool, String))
    requires
        from <= to <= events@.len(),
    ensures
        ({
            let inner = events_view(events@).subrange(from as int, to as int);
            r.0 == has_tab(inner) && r.1@ == raw_text(inner)
        }),
{
    let ghost inner = events_view(events@).subrange(from as int, to as int);
    let mut tab = false;
    let mut text = String::new();
    let mut i: usize = from;
    assert(inner.take(0) =~= Seq::empty());
    while i < to
        invariant
            from <= i <= to <= events@.len(),
            inner == events_view(events@).subrange(from as int, to as int),
            tab == exists|j: int|
                0 <= j < i - from && is_open_tag(#[trigger] inner[j], "w:tab"),
            text@ == raw_text(inner.take(i - from)),
        decreases to - i,
    {
        let ev = &events[i];
        proof {
            assert(inner[i - from] == ev@);
            assert(inner.take(i + 1 - from).drop_last() =~= inner.take(i - from));
            assert(inner.take(i + 1 - from).last() == ev@);
        }
        if ev.is_open_tag("w:tab") {
            tab = true;
        }
        if ev.kind == EventKind::Text {
            if let Some(t) = utf8_str(&ev.raw) {
                text.append(t);
            }
        }
        i += 1;
    }
    assert(inner.take(i - from) =~= inner);
    (tab, text)
}

fn extract_separator(events: &Vec<XmlEvent>) -> (r: Option<String>)
    ensures
        opt_text(r) == separator_of(events_view(events@)),
{
    let (tab, text) = tab_and_text(events, 0, events.len());
    assert(events_view(events@).subrange(0, events@.len() as int) =~= events_view(events@));
    if tab {
        Some("\t".to_owned())
    } else if trim(&chars_of(&text)).len() == 0 {
        Some(text)
    } else {
        None
    }
}

/// What an optional vector of events stands for.
pub open spec fn opt_events(o: Option<Vec<XmlEvent>>) -> Option<Seq<Ev>> {
    match o {
        Some(v) => Some(events_view(v@)),
        None => None,
    }
}

struct Capture {
    format: FootnoteFormat,
    in_note: bool,
    samples: usize,
    in_first_para: bool,
    paragraphs: usize,
    run: Option<Vec<XmlEvent>>,
    expect_separator: bool,
    stopped: bool,
}

impl View for Capture {
    type V = CaptureView;

    closed spec fn view(&self) -> CaptureView {
        CaptureView {
            format: self.format@,
            in_note: self.in_note,
            samples: self.samples as int,
            in_first_para: self.in_first_para,
            paragraphs: self.paragraphs as int,
            run: opt_events(self.run),
            expect_separator: self.expect_separator,
            stopped: self.stopped,
        }
    }
}

impl Capture {
    fn finish_run(&mut self, events: &Vec<XmlEvent>)
        ensures
            final(self)@ == run_captured(old(self)@, events_view(events@)),
            final(self).samples == old(self).samples,
            final(self).paragraphs == old(self).paragraphs,
    {
        let ghost s = self@;
        if run_payload_has_footnote_ref(events) && self.format.marker_rpr_xml.is_none() {
            self.format.marker_rpr_xml = extract_rpr_xml(events);
            self.expect_separator = self.format.separator.is_none();
        } else if self.expect_separator && self.format.separator.is_none() {
            self.format.separator = extract_separator(events);
            self.expect_separator = false;
        }
        self.run = None;
        assert(self@ =~= run_captured(s, events_view(events@)));
    }

    fn step(&mut self, ev: &XmlEvent)
        requires
            old(self).samples < usize::MAX,
            old(self).paragraphs < usize::MAX,
        ensures
            final(self)@ == capture_step(old(self)@, ev@),
            final(self).samples <= old(self).samples + 1,
            final(self).paragraphs <= old(self).paragraphs + 1,
    {
        let ghost s = self@;
        if self.stopped {
        } else if ev.is_start("w:footnote") {
            self.in_note = positive_id(ev);
            self.paragraphs = 0;
            self.in_first_para = false;
            self.expect_separator = false;
            if self.in_note {
                self.samples += 1;
            }
        } else if ev.is_end("w:footnote") {
            if (self.format.marker_rpr_xml.is_some() && self.format.separator.is_some())
                || self.samples >= 3 {
                self.stopped = true;
            } else {
                self.in_note = false;
                self.in_first_para = false;
                self.expect_separator = false;
            }
        } else if self.in_note && ev.is_start("w:p") {
            self.in_first_para = self.paragraphs == 0;
            self.paragraphs += 1;
        } else if self.in_note && ev.is_end("w:p") {
            self.in_first_para = false;
        } else if self.in_first_para && ev.is_start("w:r") {
            self.run = Some(Vec::new());
            assert(self@.run->0 =~= Seq::empty());
        } else if self.in_first_para && ev.is_end("w:r") {
            let mut finished: Option<Vec<XmlEvent>> = None;
            std::mem::swap(&mut finished, &mut self.run);
            if let Some(events) = finished {
                self.finish_run(&events);
            }
        } else {
            if let Some(events) = &mut self.run {
                let ghost before = events@;
                events.push(ev.copy());
                assert(events_view(events@) =~= events_view(before).push(ev@));
            }
        }
        assert(self@ =~= capture_step(s, ev@));
    }
}

/// The format of the footnotes among the events, and whether enough of them was seen.
pub fn capture_from_events(events: &Vec<XmlEvent>) -> (r: (FootnoteFormat, bool))
    ensures
        r.0@ == captured_format(capture_state(events_view(events@))),
        r.1 == capture_state(events_view(events@)).stopped,
{
    let ghost evs = events_view(events@);
    let mut c = Capture {
        format: FootnoteFormat::default(),
        in_note: false,
        samples: 0,
        in_first_para: false,
        paragraphs: 0,
        run: None,
        expect_separator: false,
        stopped: false,
    };
    let mut i: usize = 0;
    assert(evs.take(0) =~= Seq::empty());
    assert(c@ =~= capture_start());
    while i < events.len()
        invariant
            i <= events@.len(),
            evs == events_view(events@),
            c.samples <= i,
            c.paragraphs <= i,
            c@ == capture_state(evs.take(i as int)),
        decreases events@.len() - i,
    {
        c.step(&events[i]);
        proof {
            assert(evs.take(i + 1).drop_last() =~= evs.take(i as int));
            assert(evs.take(i + 1).last() == events@[i as int]@);
        }
        i += 1;
    }
    assert(evs.take(i as int) =~= evs);
    let stopped = c.stopped;
    let mut format = c.format;
    if c.samples > 0 && format.separator.is_none() {
        format.separator = Some(String::new());
    }
    assert(format@ =~= captured_format(c@));
    (format, stopped)
}

/// What [`extract_footnote_format`] finds in the parts of a package.
pub open spec fn format_found(parts: Parts, res: Result<FootnoteFormat, Error>) -> bool {
    &&& res is Ok
    &&& match part(parts, PART_FOOTNOTES@) {
        Some(data) => is_read(data) && res->Ok_0@ == part_format(data),
        None => res->Ok_0@ == no_format(),
    }
}

/// The format of a blueprint's footnote numbers, from up to three numbered footnotes.
/// A footnotes part that is missing or cannot be read gives none.
pub fn extract_footnote_format(pkg: &Package) -> (res: Result<FootnoteFormat, Error>)
    ensures
        format_found(pkg@, res),
{
    match pkg.get_part(PART_FOOTNOTES) {
        None => Ok(FootnoteFormat::default()),
        Some(data) => {
            let (events, failure) = read_events(data);
            let (format, stopped) = capture_from_events(&events);
            if failure.is_none() || stopped {
                Ok(format)
            } else {
                Ok(FootnoteFormat::default())
            }
        },
    }
}

// ---------------------------------------------------------------------------
// Application
// ---------------------------------------------------------------------------

/// A run among the events of a paragraph that is inside no other run.
#[verifier::ext_equal]
pub struct SpanView {
    /// The position of its start tag.
    pub start: int,
    /// The position of its end tag.
    pub end: int,
    /// Whether it holds the number of the note.
    pub has_number: bool,
}

/// How far the survey of runs has come.
#[verifier::ext_equal]
pub struct RunsView {
    pub done: Seq<SpanView>,
    pub start: Option<int>,
    pub depth: int,
    pub has_number: bool,
}

/// What the event at position `i` does to a survey of runs.
pub open spec fn runs_step(s: RunsView, e: Ev, i: int) -> RunsView {
    if is_start(e, "w:r") {
        if s.depth == 0 {
            RunsView { start: Some(i), has_number: false, depth: 1, ..s }
        } else {
            RunsView { depth: s.depth + 1, ..s }
        }
    } else if is_end(e, "w:r") {
        if s.depth == 1 {
            RunsView {
                done: match s.start {
                    Some(start) => s.done.push(
                        SpanView { start, end: i, has_number: s.has_number },
                    ),
                    None => s.done,
                },
                start: None,
                depth: 0,
                has_number: false,
            }
        } else {
            RunsView { depth: s.depth - 1, ..s }
        }
    } else if s.depth > 0 && is_open_tag(e, "w:footnoteRef") {
        RunsView { has_number: true, ..s }
    } else {
        s
    }
}

/// The survey of runs after `events`.
pub open spec fn runs_state(events: Seq<Ev>) -> RunsView
    decreases events.len(),
{
    if events.len() == 0 {
        RunsView { done: Seq::empty(), start: None, depth: 0, has_number: false }
    } else {
        runs_step(runs_state(events.drop_last()), events.last(), events.len() - 1)
    }
}

/// The runs among `events` that are inside no other run, in order.
pub open spec fn top_runs(events: Seq<Ev>) -> Seq<SpanView> {
    runs_state(events).done
}

/// The first run at or after the `i`-th that holds the number.
pub open spec fn number_run(runs: Seq<SpanView>, i: int) -> Option<int>
    decreases runs.len() - i,
{
    if i >= runs.len() {
        None
    } else if runs[i].has_number {
        Some(i)
    } else {
        number_run(runs, i + 1)
    }
}

/// Where the run properties between positions `i` and `end` start and end, given where
/// they started, if they have, and how deep inside them position `i` is.
pub open spec fn find_rpr(
    events: Seq<Ev>,
    i: int,
    end: int,
    start: Option<int>,
    depth: int,
) -> Option<(int, int)>
    decreases end - i,
{
    if i >= end {
        None
    } else if is_start(events[i], "w:rPr") && depth == 0 {
        find_rpr(events, i + 1, end, Some(i), 1)
    } else if is_end(events[i], "w:rPr") && depth == 1 && start is Some {
        Some((start->0, i))
    } else if start is Some && events[i].kind == EventKind::Start {
        find_rpr(events, i + 1, end, start, depth + 1)
    } else if start is Some && events[i].kind == EventKind::End {
        find_rpr(events, i + 1, end, start, depth - 1)
    } else {
        find_rpr(events, i + 1, end, start, depth)
    }
}

/// `events` with the stretch from `from` up to `to` replaced.
pub open spec fn spliced(events: Seq<Ev>, from: int, to: int, new: Seq<Ev>) -> Seq<Ev> {
    events.take(from) + new + events.skip(to)
}

/// `events` with the properties of a run replaced; a run without any gets them at its
/// start.
pub open spec fn with_rpr(events: Seq<Ev>, run: SpanView, rpr: Seq<Ev>) -> Seq<Ev> {
    match find_rpr(events, run.start + 1, run.end, None, 0) {
        Some((a, b)) => spliced(events, a, b + 1, rpr),
        None => spliced(events, run.start + 1, run.start + 1, rpr),
    }
}

/// An event with the given raw text.
pub open spec fn event(kind: EventKind, raw: Seq<u8>) -> Ev {
    Ev { kind, raw }
}

/// What a run holds to be a separator.
pub open spec fn separator_payload(text: Seq<char>) -> Seq<Ev> {
    if text == "\t"@ {
        seq![event(EventKind::Empty, lit("w:tab"))]
    } else {
        seq![
            event(
                EventKind::Start,
                if text.contains(' ') {
                    lit("w:t") + attr_bytes(lit("xml:space"), lit("preserve"))
                } else {
                    lit("w:t")
                },
            ),
            event(EventKind::Text, vstd::utf8::encode_utf8(text)),
            event(EventKind::End, lit("w:t")),
        ]
    }
}

/// A run that is a separator.
pub open spec fn separator_run(text: Seq<char>) -> Seq<Ev> {
    seq![event(EventKind::Start, lit("w:r"))] + separator_payload(text) + seq![
        event(EventKind::End, lit("w:r")),
    ]
}

/// An event that makes a run a separator: text, or the tags of text and tabs.
pub open spec fn is_separator_event(e: Ev) -> bool {
    match e.kind {
        EventKind::Text => true,
        EventKind::Empty | EventKind::Start | EventKind::End => tag_name(e) == lit("w:t")
            || tag_name(e) == lit("w:tab"),
        _ => false,
    }
}

/// `events` without the events that make a run a separator.
pub open spec fn without_separator(events: Seq<Ev>, run: SpanView) -> Seq<Ev> {
    spliced(
        events,
        run.start + 1,
        run.end,
        events.subrange(run.start + 1, run.end).filter(|e: Ev| !is_separator_event(e)),
    )
}

/// The position of the end tag that closes the run which starts at or after `i`, with
/// `depth` runs open; the end of the events where there is none.
pub open spec fn run_stop(events: Seq<Ev>, i: int, depth: int) -> int
    decreases events.len() - i,
{
    if i >= events.len() {
        events.len() as int
    } else if is_start(events[i], "w:r") {
        run_stop(events, i + 1, depth + 1)
    } else if is_end(events[i], "w:r") {
        if depth == 1 {
            i
        } else {
            run_stop(events, i + 1, depth - 1)
        }
    } else {
        run_stop(events, i + 1, depth)
    }
}

/// `events` with the run after the number made to agree with the wanted separator. A
/// run of text is left alone and gets a separator before it; a separator that differs
/// is replaced.
pub open spec fn separator_normalized(events: Seq<Ev>, run: SpanView, wanted: Seq<char>) -> Seq<Ev> {
    let inner = events.subrange(run.start + 1, run.end);
    let tab = has_tab(inner);
    let text = raw_text(inner);
    if !tab && trimmed(text).len() > 0 {
        if wanted.len() > 0 {
            spliced(events, run.start, run.start, separator_run(wanted))
        } else {
            events
        }
    } else if wanted.len() == 0 {
        without_separator(events, run)
    } else if (tab && wanted == "\t"@) || (!tab && text == wanted) {
        events
    } else {
        let bare = without_separator(events, run);
        let end = run_stop(bare, run.start, 0);
        spliced(bare, end, end, separator_payload(wanted))
    }
}

/// The separator after the number settled: normalized where a run follows the number,
/// inserted where none does.
pub open spec fn separator_settled(
    events: Seq<Ev>,
    number: int,
    separator: Option<Seq<char>>,
) -> (Seq<Ev>, bool) {
    let runs = top_runs(events);
    match separator {
        None => (events, false),
        Some(wanted) => if number + 1 < runs.len() {
            (separator_normalized(events, runs[number + 1], wanted), true)
        } else if wanted.len() > 0 && number < runs.len() {
            (
                spliced(
                    events,
                    runs[number].end + 1,
                    runs[number].end + 1,
                    separator_run(wanted),
                ),
                true,
            )
        } else {
            (events, false)
        },
    }
}

/// What becomes of the contents of a note's first paragraph, and whether anything was
/// rewritten.
pub open spec fn first_para(events: Seq<Ev>, format: FormatView) -> (Seq<Ev>, bool) {
    let runs = top_runs(events);
    match number_run(runs, 0) {
        None => (events, false),
        Some(n) => {
            let marked = match format.marker_rpr_xml {
                Some(rpr) => with_rpr(events, runs[n], xml_events(rpr)),
                None => events,
            };
            let (out, settled) = separator_settled(marked, n, format.separator);
            (out, settled || format.marker_rpr_xml is Some)
        },
    }
}

/// How far the application to a part has come.
#[verifier::ext_equal]
pub struct NotesView {
    pub out: Seq<u8>,
    pub touched: nat,
    pub in_note: bool,
    pub in_first_para: bool,
    pub paragraphs: int,
    /// The start tag of the first paragraph, and what followed it.
    pub open: Ev,
    pub payload: Seq<Ev>,
}

/// Nothing written yet.
pub open spec fn notes_start() -> NotesView {
    NotesView {
        out: Seq::empty(),
        touched: 0,
        in_note: false,
        in_first_para: false,
        paragraphs: 0,
        open: Ev { kind: EventKind::Eof, raw: Seq::empty() },
        payload: Seq::empty(),
    }
}

/// What one event does to the application.
pub open spec fn notes_step(s: NotesView, format: FormatView, e: Ev) -> NotesView {
    if is_start(e, "w:footnote") || is_start(e, "w:endnote") {
        NotesView {
            out: s.out + emitted(e),
            in_note: has_positive_id(e),
            paragraphs: 0,
            in_first_para: false,
            ..s
        }
    } else if is_end(e, "w:footnote") || is_end(e, "w:endnote") {
        NotesView { out: s.out + emitted(e), in_note: false, in_first_para: false, ..s }
    } else if s.in_note && is_start(e, "w:p") {
        if s.paragraphs == 0 {
            NotesView {
                paragraphs: 1,
                in_first_para: true,
                open: e,
                payload: Seq::empty(),
                ..s
            }
        } else {
            NotesView { out: s.out + emitted(e), paragraphs: s.paragraphs + 1, ..s }
        }
    } else if s.in_first_para && is_end(e, "w:p") {
        let (para, rewritten) = first_para(s.payload, format);
        NotesView {
            out: s.out + emitted(s.open) + emitted_all(para) + emitted(e),
            touched: if rewritten {
                s.touched + 1
            } else {
                s.touched
            },
            in_first_para: false,
            payload: Seq::empty(),
            ..s
        }
    } else if s.in_first_para {
        NotesView { payload: s.payload.push(e), ..s }
    } else {
        NotesView { out: s.out + emitted(e), ..s }
    }
}

/// The application to a part after `events`.
pub open spec fn notes_state(events: Seq<Ev>, format: FormatView) -> NotesView
    decreases events.len(),
{
    if events.len() == 0 {
        notes_start()
    } else {
        notes_step(notes_state(events.drop_last(), format), format, events.last())
    }
}

/// A notes part with the format applied, and how many notes were touched.
pub open spec fn notes_formatted(events: Seq<Ev>, format: FormatView) -> (Seq<u8>, nat) {
    (notes_state(events, format).out, notes_state(events, format).touched)
}

struct RunSpan {
    start: usize,
    end: usize,
    has_number: bool,
}

impl View for RunSpan {
    type V = SpanView;

    closed spec fn view(&self) -> SpanView {
        SpanView { start: self.start as int, end: self.end as int, has_number: self.has_number }
    }
}

spec fn spans_view(v: Seq<RunSpan>) -> Seq<SpanView> {
    v.map_values(|r: RunSpan| r@)
}

spec fn opt_index(o: Option<usize>) -> Option<int> {
    match o {
        Some(i) => Some(i as int),
        None => None,
    }
}

/// The runs among the events that are inside no other run.
fn collect_top_runs(events: &Vec<XmlEvent>) -> (r: Vec<RunSpan>)
    ensures
        spans_view(r@) == top_runs(events_view(events@)),
        forall|i: int|
            0 <= i < r@.len() ==> (#[trigger] r@[i]).start < r@[i].end && r@[i].end
                < events@.len(),
{
    let ghost evs = events_view(events@);
    let mut done: Vec<RunSpan> = Vec::new();
    let mut start: Option<usize> = None;
    let mut depth: i128 = 0;
    let mut has_number = false;
    let mut i: usize = 0;
    assert(evs.take(0) =~= Seq::empty());
    assert(spans_view(done@) =~= Seq::empty());
    while i < events.len()
        invariant
            i <= events@.len(),
            evs == events_view(events@),
            -i <= depth <= i,
            start matches Some(k) ==> k < i,
            forall|j: int|
                0 <= j < done@.len() ==> (#[trigger] done@[j]).start < done@[j].end && done@[j].end
                    < i,
            runs_state(evs.take(i as int)) == (RunsView {
                done: spans_view(done@),
                start: opt_index(start),
                depth: depth as int,
                has_number,
            }),
        decreases events@.len() - i,
    {
        let ev = &events[i];
        let ghost s = runs_state(evs.take(i as int));
        proof {
            assert(evs.take(i + 1).drop_last() =~= evs.take(i as int));
            assert(evs.take(i + 1).last() == ev@);
        }
        if ev.is_start("w:r") {
            if depth == 0 {
                start = Some(i);
                has_number = false;
            }
            depth += 1;
        } else if ev.is_end("w:r") {
            depth -= 1;
            if depth == 0 {
                if let Some(k) = start {
                    let span = RunSpan { start: k, end: i, has_number };
                    done.push(span);
                    assert(spans_view(done@) =~= s.done.push(span@));
                }
                start = None;
                has_number = false;
            }
        } else if depth > 0 && ev.is_open_tag("w:footnoteRef") {
            has_number = true;
        }
        i += 1;
    }
    assert(evs.take(i as int) =~= evs);
    done
}

/// Copies of the events with the stretch from `from` up to `to` replaced.
fn splice(events: &Vec<XmlEvent>, from: usize, to: usize, new: &Vec<XmlEvent>) -> (r: Vec<XmlEvent>)
    requires
        from <= to <= events@.len(),
    ensures
        events_view(r@) == spliced(events_view(events@), from as int, to as int, events_view(new@)),
{
    let mut r: Vec<XmlEvent> = Vec::new();
    push_events(&mut r, events, 0, from);
    push_events(&mut r, new, 0, new.len());
    push_events(&mut r, events, to, events.len());
    proof {
        let evs = events_view(events@);
        assert(evs.subrange(0, from as int) =~= evs.take(from as int));
        assert(evs.subrange(to as int, evs.len() as int) =~= evs.skip(to as int));
        assert(events_view(new@).subrange(0, new@.len() as int) =~= events_view(new@));
        assert(events_view(r@) =~= spliced(evs, from as int, to as int, events_view(new@)));
    }
    r
}

fn push_events(out: &mut Vec<XmlEvent>, events: &Vec<XmlEvent>, from: usize, to: usize)
    requires
        from <= to <= events@.len(),
    ensures
        events_view(final(out)@) == events_view(old(out)@) + events_view(events@).subrange(
            from as int,
            to as int,
        ),
{
    let ghost before = events_view(out@);
    let ghost evs = events_view(events@);
    let mut i: usize = from;
    assert(before + evs.subrange(from as int, from as int) =~= before);
    while i < to
        invariant
            from <= i <= to <= events@.len(),
            evs == events_view(events@),
            events_view(out@) == before + evs.subrange(from as int, i as int),
        decreases to - i,
    {
        let ghost mid = out@;
        out.push(events[i].copy());
        proof {
            assert(events_view(out@) =~= events_view(mid).push(evs[i as int]));
            assert(evs.subrange(from as int, i + 1) =~= evs.subrange(from as int, i as int).push(
                evs[i as int],
            ));
            assert(events_view(out@) =~= before + evs.subrange(from as int, i + 1));
        }
        i += 1;
    }
}

fn replace_rpr_in_range(events: &Vec<XmlEvent>, run: &RunSpan, rpr: &Vec<XmlEvent>) -> (r: Vec<
    XmlEvent,
>)
    requires
        run.start < run.end < events@.len(),
    ensures
        events_view(r@) == with_rpr(events_view(events@), run@, events_view(rpr@)),
{
    let ghost evs = events_view(events@);
    let mut start: Option<usize> = None;
    let mut depth: i128 = 0;
    let mut i: usize = run.start + 1;
    while i < run.end
        invariant
            run.start + 1 <= i <= run.end < events@.len(),
            evs == events_view(events@),
            -i <= depth <= i,
            start matches Some(k) ==> run.start < k < i,
            find_rpr(evs, run.start + 1, run.end as int, None, 0) == find_rpr(
                evs,
                i as int,
                run.end as int,
                opt_index(start),
                depth as int,
            ),
        decreases run.end - i,
    {
        let ev = &events[i];
        assert(evs[i as int] == ev@);
        if ev.is_start("w:rPr") && depth == 0 {
            start = Some(i);
            depth = 1;
        } else if ev.is_end("w:rPr") && depth == 1 && start.is_some() {
            if let Some(k) = start {
                return splice(events, k, i + 1, rpr);
            }
        } else if start.is_some() && ev.kind == EventKind::Start {
            depth += 1;
        } else if start.is_some() && ev.kind == EventKind::End {
            depth -= 1;
        }
        i += 1;
    }
    splice(events, run.start + 1, run.start + 1, rpr)
}

fn new_event(kind: EventKind, raw: &str) -> (r: XmlEvent)
    ensures
        r@ == event(kind, lit(raw)),
{
    let mut bytes: Vec<u8> = Vec::new();
    push_str(&mut bytes, raw);
    assert(bytes@ =~= lit(raw));
    XmlEvent { kind, raw: bytes }
}

fn has_space(text: &str) -> (r: bool)
    ensures
        r == text@.contains(' '),
{
    let chars = chars_of(text);
    let mut i: usize = 0;
    while i < chars.len()
        invariant
            i <= chars@.len(),
            chars@ == text@,
            forall|j: int| 0 <= j < i ==> chars@[j] != ' ',
        decreases chars@.len() - i,
    {
        if chars[i] == ' ' {
            return true;
        }
        i += 1;
    }
    false
}

fn build_separator_payload(text: &str) -> (r: Vec<XmlEvent>)
    ensures
        events_view(r@) == separator_payload(text@),
{
    let mut r: Vec<XmlEvent> = Vec::new();
    if str_eq(text, "\t") {
        r.push(new_event(EventKind::Empty, "w:tab"));
    } else {
        let mut open = new_event(EventKind::Start, "w:t");
        if has_space(text) {
            push_attr(&mut open.raw, "xml:space".as_bytes(), "preserve".as_bytes());
        }
        r.push(open);
        r.push(new_event(EventKind::Text, text));
        r.push(new_event(EventKind::End, "w:t"));
    }
    assert(events_view(r@) =~= separator_payload(text@));
    r
}

fn build_separator_run(text: &str) -> (r: Vec<XmlEvent>)
    ensures
        events_view(r@) == separator_run(text@),
{
    let mut r: Vec<XmlEvent> = Vec::new();
    r.push(new_event(EventKind::Start, "w:r"));
    let payload = build_separator_payload(text);
    let ghost before = r@;
    push_events(&mut r, &payload, 0, payload.len());
    assert(events_view(payload@).subrange(0, payload@.len() as int) =~= separator_payload(text@));
    let ghost mid = r@;
    r.push(new_event(EventKind::End, "w:r"));
    assert(events_view(before) =~= seq![event(EventKind::Start, lit("w:r"))]);
    assert(events_view(r@) =~= events_view(mid).push(event(EventKind::End, lit("w:r"))));
    assert(events_view(r@) =~= separator_run(text@));
    r
}

fn separator_event(ev: &XmlEvent) -> (r: bool)
    ensures
        r == is_separator_event(ev@),
{
    match ev.kind {
        EventKind::Text => true,
        EventKind::Empty => ev.has_name("w:t") || ev.has_name("w:tab"),
        EventKind::Start => ev.has_name("w:t") || ev.has_name("w:tab"),
        EventKind::End => ev.has_name("w:t") || ev.has_name("w:tab"),
        _ => false,
    }
}

fn strip_sep_payload(events: &Vec<XmlEvent>, run: &RunSpan) -> (r: Vec<XmlEvent>)
    requires
        run.start < run.end < events@.len(),
    ensures
        events_view(r@) == without_separator(events_view(events@), run@),
{
    let ghost evs = events_view(events@);
    let ghost keep = |e: Ev| !is_separator_event(e);
    let ghost inner = evs.subrange(run.start + 1, run.end as int);
    let mut kept: Vec<XmlEvent> = Vec::new();
    let mut i: usize = run.start + 1;
    proof {
        reveal(Seq::filter);
        assert(inner.take(0).filter(keep) =~= Seq::empty());
        assert(events_view(kept@) =~= Seq::empty());
    }
    while i < run.end
        invariant
            run.start + 1 <= i <= run.end < events@.len(),
            evs == events_view(events@),
            inner == evs.subrange(run.start + 1, run.end as int),
            forall|e: Ev| #[trigger] keep(e) == !is_separator_event(e),
            events_view(kept@) == inner.take(i - run.start - 1).filter(keep),
        decreases run.end - i,
    {
        let ev = &events[i];
        proof {
            reveal(Seq::filter);
            let upto = inner.take(i - run.start);
            assert(upto.drop_last() =~= inner.take(i - run.start - 1));
            assert(upto.last() == ev@);
            assert(keep(ev@) == !is_separator_event(ev@));
        }
        if !separator_event(ev) {
            let ghost before = kept@;
            kept.push(ev.copy());
            assert(events_view(kept@) =~= events_view(before).push(ev@));
        }
        i += 1;
    }
    assert(inner.take(i - run.start - 1) =~= inner);
    splice(events, run.start + 1, run.end, &kept)
}

fn find_run_end_after_strip(events: &Vec<XmlEvent>, run_start: usize) -> (r: usize)
    ensures
        r == run_stop(events_view(events@), run_start as int, 0) || (run_start > events@.len() && r
            == events@.len()),
        r <= events@.len(),
{
    let ghost evs = events_view(events@);
    let mut depth: i128 = 0;
    let mut i: usize = run_start;
    while i < events.len()
        invariant
            run_start <= i,
            i <= events@.len() || run_start > events@.len(),
            evs == events_view(events@),
            -i <= depth <= i,
            run_stop(evs, run_start as int, 0) == run_stop(evs, i as int, depth as int),
        decreases events@.len() - i,
    {
        let ev = &events[i];
        assert(evs[i as int] == ev@);
        if ev.is_start("w:r") {
            depth += 1;
        } else if ev.is_end("w:r") {
            depth -= 1;
            if depth == 0 {
                return i;
            }
        }
        i += 1;
    }
    events.len()
}

fn normalize_separator_run(events: &Vec<XmlEvent>, run: &RunSpan, wanted: &str) -> (r: Vec<XmlEvent>)
    requires
        run.start < run.end < events@.len(),
    ensures
        events_view(r@) == separator_normalized(events_view(events@), run@, wanted@),
{
    let (tab, text) = tab_and_text(events, run.start + 1, run.end);
    let is_sep = tab || trim(&chars_of(&text)).len() == 0;
    if !is_sep {
        if wanted.is_empty() {
            copy_events(events)
        } else {
            splice(events, run.start, run.start, &build_separator_run(wanted))
        }
    } else if wanted.is_empty() {
        strip_sep_payload(events, run)
    } else if (tab && str_eq(wanted, "\t")) || (!tab && str_eq(&text, wanted)) {
        copy_events(events)
    } else {
        let bare = strip_sep_payload(events, run);
        let end: usize = find_run_end_after_strip(&bare, run.start);
        splice(&bare, end, end, &build_separator_payload(wanted))
    }
}

fn copy_events(events: &Vec<XmlEvent>) -> (r: Vec<XmlEvent>)
    ensures
        events_view(r@) == events_view(events@),
{
    let mut r: Vec<XmlEvent> = Vec::new();
    push_events(&mut r, events, 0, events.len());
    assert(events_view(r@) =~= events_view(events@));
    r
}

fn find_number_run(runs: &Vec<RunSpan>) -> (r: Option<usize>)
    ensures
        opt_index(r) == number_run(spans_view(runs@), 0),
        r matches Some(i) ==> i < runs@.len(),
{
    let ghost all = spans_view(runs@);
    let mut i: usize = 0;
    while i < runs.len()
        invariant
            i <= runs@.len(),
            all == spans_view(runs@),
            number_run(all, 0) == number_run(all, i as int),
        decreases runs@.len() - i,
    {
        assert(all[i as int] == runs@[i as int]@);
        if runs[i].has_number {
            return Some(i);
        }
        i += 1;
    }
    None
}

fn settle_separator(events: &Vec<XmlEvent>, number: usize, separator: &Option<String>) -> (r: (
    Vec<XmlEvent>,
    bool,
))
    requires
        number < usize::MAX,
    ensures
        separator_settled(events_view(events@), number as int, opt_text(*separator)) == (
            events_view(r.0@),
            r.1,
        ),
{
    let runs = collect_top_runs(events);
    match separator {
        None => (copy_events(events), false),
        Some(wanted) => {
            if number + 1 < runs.len() {
                assert(spans_view(runs@)[number + 1] == runs@[number + 1]@);
                (normalize_separator_run(events, &runs[number + 1], wanted), true)
            } else if !wanted.as_str().is_empty() && number < runs.len() {
                assert(spans_view(runs@)[number as int] == runs@[number as int]@);
                let total: usize = events.len();
                assert(runs@[number as int].end < total);
                let at: usize = runs[number].end + 1;
                (splice(events, at, at, &build_separator_run(wanted)), true)
            } else {
                (copy_events(events), false)
            }
        },
    }
}

/// The contents of a note's first paragraph with the format applied, and whether
/// anything was rewritten.
fn rewrite_first_para(events: &Vec<XmlEvent>, format: &FootnoteFormat) -> (r: (Vec<XmlEvent>, bool))
    ensures
        first_para(events_view(events@), format@) == (events_view(r.0@), r.1),
{
    let runs = collect_top_runs(events);
    match find_number_run(&runs) {
        None => (copy_events(events), false),
        Some(n) => {
            let total: usize = runs.len();
            assert(n < total);
            assert(spans_view(runs@)[n as int] == runs@[n as int]@);
            match &format.marker_rpr_xml {
                Some(rpr) => {
                    let (parsed, _) = read_events(rpr);
                    let marked = replace_rpr_in_range(events, &runs[n], &parsed);
                    let (out, _) = settle_separator(&marked, n, &format.separator);
                    (out, true)
                },
                None => settle_separator(events, n, &format.separator),
            }
        },
    }
}

struct NotesWriter {
    out: Vec<u8>,
    touched: usize,
    in_note: bool,
    in_first_para: bool,
    paragraphs: usize,
    open: XmlEvent,
    payload: Vec<XmlEvent>,
}

impl View for NotesWriter {
    type V = NotesView;

    closed spec fn view(&self) -> NotesView {
        NotesView {
            out: self.out@,
            touched: self.touched as nat,
            in_note: self.in_note,
            in_first_para: self.in_first_para,
            paragraphs: self.paragraphs as int,
            open: self.open@,
            payload: events_view(self.payload@),
        }
    }
}

impl NotesWriter {
    fn finish_first_para(&mut self, format: &FootnoteFormat, ev: &XmlEvent)
        requires
            old(self).touched < usize::MAX,
        ensures
            ({
                let s = old(self)@;
                let (para, rewritten) = first_para(s.payload, format@);
                final(self)@ == NotesView {
                    out: s.out + emitted(s.open) + emitted_all(para) + emitted(ev@),
                    touched: if rewritten {
                        s.touched + 1
                    } else {
                        s.touched
                    },
                    in_first_para: false,
                    payload: Seq::empty(),
                    ..s
                }
            }),
            final(self).touched <= old(self).touched + 1,
            final(self).paragraphs == old(self).paragraphs,
    {
        let ghost s = self@;
        let (para, rewritten) = rewrite_first_para(&self.payload, format);
        emit(&mut self.out, &self.open);
        emit_all(&mut self.out, &para);
        emit(&mut self.out, ev);
        if rewritten {
            self.touched += 1;
        }
        self.in_first_para = false;
        self.payload = Vec::new();
        assert(events_view(self.payload@) =~= Seq::empty());
    }

    fn step(&mut self, format: &FootnoteFormat, ev: &XmlEvent)
        requires
            old(self).touched < usize::MAX,
            old(self).paragraphs < usize::MAX,
        ensures
            final(self)@ == notes_step(old(self)@, format@, ev@),
            final(self).touched <= old(self).touched + 1,
            final(self).paragraphs <= old(self).paragraphs + 1,
    {
        let ghost s = self@;
        if ev.is_start("w:footnote") || ev.is_start("w:endnote") {
            self.in_note = positive_id(ev);
            self.paragraphs = 0;
            self.in_first_para = false;
            emit(&mut self.out, ev);
        } else if ev.is_end("w:footnote") || ev.is_end("w:endnote") {
            self.in_note = false;
            self.in_first_para = false;
            emit(&mut self.out, ev);
        } else if self.in_note && ev.is_start("w:p") {
            if self.paragraphs == 0 {
                self.in_first_para = true;
                self.open = ev.copy();
                self.payload = Vec::new();
                assert(events_view(self.payload@) =~= Seq::empty());
            } else {
                emit(&mut self.out, ev);
            }
            self.paragraphs += 1;
        } else if self.in_first_para && ev.is_end("w:p") {
            self.finish_first_para(format, ev);
        } else if self.in_first_para {
            self.payload.push(ev.copy());
            assert(events_view(self.payload@) =~= s.payload.push(ev@));
        } else {
            emit(&mut self.out, ev);
        }
        assert(self@ =~= notes_step(s, format@, ev@));
    }
}

/// The events of a notes part with the format applied, and how many notes were
/// touched.
pub fn apply_to_events(events: &Vec<XmlEvent>, format: &FootnoteFormat) -> (r: (Vec<u8>, usize))
    ensures
        notes_formatted(events_view(events@), format@) == (r.0@, r.1 as nat),
{
    let ghost evs = events_view(events@);
    let mut w = NotesWriter {
        out: Vec::new(),
        touched: 0,
        in_note: false,
        in_first_para: false,
        paragraphs: 0,
        open: XmlEvent { kind: EventKind::Eof, raw: Vec::new() },
        payload: Vec::new(),
    };
    let mut i: usize = 0;
    assert(evs.take(0) =~= Seq::empty());
    assert(w@ =~= notes_start());
    while i < events.len()
        invariant
            i <= events@.len(),
            evs == events_view(events@),
            w.touched <= i,
            w.paragraphs <= i,
            w@ == notes_state(evs.take(i as int), format@),
        decreases events@.len() - i,
    {
        w.step(format, &events[i]);
        proof {
            assert(evs.take(i + 1).drop_last() =~= evs.take(i as int));
            assert(evs.take(i + 1).last() == events@[i as int]@);
        }
        i += 1;
    }
    assert(evs.take(i as int) =~= evs);
    (w.out, w.touched)
}

fn apply_to_part(pkg: &mut Package, name: &str, format: &FootnoteFormat) -> (res: Result<
    usize,
    Error,
>)
    ensures
        final(pkg).source_view() == old(pkg).source_view(),
        ({
            let p = pass_part(
                Pass { parts: old(pkg)@, count: 0, failed: None },
                name@,
                |evs: Seq<Ev>| notes_formatted(evs, format@),
            );
            &&& final(pkg)@ == p.parts
            &&& match res {
                Ok(n) => p.failed is None && n == p.count,
                Err(e) => p.failed == Some(name@) && e.is_xml_parse(name@),
            }
        }),
        part(old(pkg)@, name@) matches Some(data) ==> is_read(data),
{
    let (out, n) = match pkg.get_part(name) {
        None => return Ok(0),
        Some(data) => {
            let events = parse_events(data, name)?;
            apply_to_events(&events, format)
        },
    };
    if n > 0 {
        pkg.set_part(name, out);
    }
    Ok(n)
}

/// The format applied to the footnotes and the endnotes of a package. Where nothing
/// is known of the format, nothing changes.
pub open spec fn format_applied(parts: Parts, format: FormatView) -> Pass {
    let p = Pass { parts, count: 0, failed: None };
    if format.marker_rpr_xml is None && format.separator is None {
        p
    } else {
        let f = |evs: Seq<Ev>| notes_formatted(evs, format);
        pass_part(pass_part(p, PART_FOOTNOTES@, f), PART_ENDNOTES@, f)
    }
}

/// What [`apply_footnote_format`] does to the parts of a package, as `after` shows.
pub open spec fn format_set(
    before: Parts,
    format: FormatView,
    after: Parts,
    res: Result<usize, Error>,
) -> bool {
    let p = format_applied(before, format);
    &&& after == p.parts
    &&& match res {
        Ok(n) => {
            &&& p.failed is None
            &&& n == capped(p.count as int)
            &&& format.marker_rpr_xml is Some || format.separator is Some ==> (part(
                before,
                PART_FOOTNOTES@,
            ) matches Some(data) ==> is_read(data))
        },
        Err(e) => p.failed is Some && e.is_xml_parse(p.failed->0),
    }
}

/// Applies a format to the footnotes and the endnotes of a package. Returns how many
/// notes were touched.
pub fn apply_footnote_format(pkg: &mut Package, fmt: &FootnoteFormat) -> (res: Result<usize, Error>)
    ensures
        final(pkg).source_view() == old(pkg).source_view(),
        format_set(old(pkg)@, fmt@, final(pkg)@, res),
{
    if fmt.marker_rpr_xml.is_none() && fmt.separator.is_none() {
        return Ok(0);
    }
    let a = apply_to_part(pkg, PART_FOOTNOTES, fmt)?;
    let b = apply_to_part(pkg, PART_ENDNOTES, fmt)?;
    Ok(add_capped(a, b))
}

} // verus!
