//! Removal of cosmetic whole-paragraph bold.
//!
//! Some authoring workflows bold every run of every body paragraph. A paragraph all
//! of whose runs are bold loses the bold; one with mixed runs keeps its emphasis. A run is
//! bold by `<w:b/>`; the marker for complex script goes with it.

use vstd::prelude::*;

use crate::bytes::lit;
use crate::clean_runs::emit_all;
use crate::error::Error;
use crate::heading_inference::{bold_on, is_bold_on, is_off, is_val_off};
use crate::joined::{
    joined, lemma_joined, lemma_nested_next, lemma_nested_none, lemma_nested_push,
    names_after, nested,
};
use crate::ns::PART_DOCUMENT;
use crate::package::{lemma_with_part, part, with_part, Package, Parts};
use crate::wellformed::{
    ends_in_text, is_token, lemma_emitted_concat, lemma_emitted_push, open_names,
    paragraphs_open, starts_with_mark, well_formed,
};
use crate::xml::{
    emit, emitted_all, events_view, is_end, is_read, is_start, parse_events, reads_back, tag_name,
    xml_events, xml_readable, Ev, EventKind, XmlEvent,
};

verus! {

/// A bold marker, for Latin or for complex script.
pub open spec fn is_bold_name(e: Ev) -> bool {
    tag_name(e) == lit("w:b") || tag_name(e) == lit("w:bCs")
}

/// How far the survey of a paragraph has come.
#[verifier::ext_equal]
pub struct BoldView {
    /// Whether a run has been closed, and whether every closed run is bold.
    pub any_run: bool,
    pub all_bold: bool,
    /// For each open run, outermost first, whether it is bold.
    pub runs: Seq<bool>,
    pub in_rpr: bool,
}

/// What one event does to the survey of a paragraph.
pub open spec fn bold_step(s: BoldView, e: Ev) -> BoldView {
    if is_start(e, "w:r") {
        BoldView { runs: s.runs.push(false), in_rpr: false, ..s }
    } else if is_end(e, "w:r") {
        BoldView {
            any_run: true,
            all_bold: s.all_bold && s.runs.len() > 0 && s.runs.last(),
            runs: if s.runs.len() > 0 {
                s.runs.drop_last()
            } else {
                s.runs
            },
            ..s
        }
    } else if s.runs.len() > 0 && is_start(e, "w:rPr") {
        BoldView { in_rpr: true, ..s }
    } else if s.runs.len() > 0 && is_end(e, "w:rPr") {
        BoldView { in_rpr: false, ..s }
    } else if s.runs.len() > 0 && s.in_rpr && is_bold_on(e) {
        BoldView { runs: s.runs.drop_last().push(true), ..s }
    } else {
        s
    }
}

/// The survey of a paragraph after `events`.
pub open spec fn bold_state(events: Seq<Ev>) -> BoldView
    decreases events.len(),
{
    if events.len() == 0 {
        BoldView { any_run: false, all_bold: true, runs: Seq::empty(), in_rpr: false }
    } else {
        bold_step(bold_state(events.drop_last()), events.last())
    }
}

/// The paragraph has a run, and every run is bold.
pub open spec fn is_all_bold(events: Seq<Ev>) -> bool {
    bold_state(events).any_run && bold_state(events).all_bold
}

/// How far the removal of bold from a paragraph has come.
#[verifier::ext_equal]
pub struct UnboldView {
    /// What is left of the paragraph.
    pub out: Seq<Ev>,
    /// How many runs are open.
    pub runs: int,
    pub in_rpr: bool,
    /// For each bold marker that is open as an element, whether it has been removed.
    pub open: Seq<bool>,
    pub removed: nat,
}

/// What one event does to the removal of bold.
pub open spec fn unbold_step(s: UnboldView, e: Ev) -> UnboldView {
    if is_start(e, "w:r") {
        UnboldView { out: s.out.push(e), runs: s.runs + 1, in_rpr: false, ..s }
    } else if is_end(e, "w:r") {
        UnboldView {
            out: s.out.push(e),
            runs: if s.runs > 0 {
                s.runs - 1
            } else {
                s.runs
            },
            ..s
        }
    } else if s.runs > 0 && is_start(e, "w:rPr") {
        UnboldView { out: s.out.push(e), in_rpr: true, ..s }
    } else if s.runs > 0 && is_end(e, "w:rPr") {
        UnboldView { out: s.out.push(e), in_rpr: false, ..s }
    } else if s.runs > 0 && s.in_rpr && is_bold_name(e) {
        match e.kind {
            EventKind::Empty => if is_off(e) {
                UnboldView { out: s.out.push(e), ..s }
            } else {
                UnboldView { removed: s.removed + 1, ..s }
            },
            EventKind::Start => if is_off(e) {
                UnboldView { out: s.out.push(e), open: s.open.push(false), ..s }
            } else {
                UnboldView { open: s.open.push(true), removed: s.removed + 1, ..s }
            },
            EventKind::End => UnboldView {
                out: if s.open.len() > 0 && s.open.last() {
                    s.out
                } else {
                    s.out.push(e)
                },
                open: if s.open.len() > 0 {
                    s.open.drop_last()
                } else {
                    s.open
                },
                ..s
            },
            _ => UnboldView { out: s.out.push(e), ..s },
        }
    } else {
        UnboldView { out: s.out.push(e), ..s }
    }
}

/// The removal of bold after `events`.
pub open spec fn unbold_state(events: Seq<Ev>) -> UnboldView
    decreases events.len(),
{
    if events.len() == 0 {
        UnboldView { out: Seq::empty(), runs: 0, in_rpr: false, open: Seq::empty(), removed: 0 }
    } else {
        unbold_step(unbold_state(events.drop_last()), events.last())
    }
}

/// A paragraph once whole-paragraph bold has been removed from it.
pub open spec fn plain_paragraph(events: Seq<Ev>) -> Seq<Ev> {
    if is_all_bold(events) {
        unbold_state(events).out
    } else {
        events
    }
}

/// How far a document has been worked through.
#[verifier::ext_equal]
pub struct StripView {
    pub out: Seq<Ev>,
    /// How many paragraphs have lost their bold.
    pub stripped: nat,
    /// How many paragraphs are open, one inside the other.
    pub depth: int,
    /// The outermost open paragraph.
    pub para: Seq<Ev>,
}

/// What one event does.
pub open spec fn strip_step(s: StripView, e: Ev) -> StripView {
    if is_start(e, "w:p") && s.depth == 0 {
        StripView { depth: 1, para: seq![e], ..s }
    } else if is_end(e, "w:p") && s.depth == 1 {
        let para = s.para.push(e);
        StripView {
            out: s.out + plain_paragraph(para),
            stripped: if is_all_bold(para) && unbold_state(para).removed > 0 {
                s.stripped + 1
            } else {
                s.stripped
            },
            depth: 0,
            para: Seq::empty(),
        }
    } else if s.depth > 0 {
        StripView { depth: paragraphs_open(s.depth, e), para: s.para.push(e), ..s }
    } else {
        StripView { out: s.out.push(e), ..s }
    }
}

/// The state after `events`.
pub open spec fn strip_state(events: Seq<Ev>) -> StripView
    decreases events.len(),
{
    if events.len() == 0 {
        StripView { out: Seq::empty(), stripped: 0, depth: 0, para: Seq::empty() }
    } else {
        strip_step(strip_state(events.drop_last()), events.last())
    }
}

/// Every run of the paragraph is plain.
spec fn all_plain(s: BoldView) -> bool {
    &&& forall|i: int| 0 <= i < s.runs.len() ==> !#[trigger] s.runs[i]
    &&& s.any_run ==> !s.all_bold
}

proof fn lemma_bold_push(events: Seq<Ev>, e: Ev)
    ensures
        bold_state(events.push(e)) == bold_step(bold_state(events), e),
{
    assert(events.push(e).drop_last() =~= events);
}

#[verifier::rlimit(40)]
proof fn lemma_unbolded(events: Seq<Ev>)
    ensures
        all_plain(bold_state(unbold_state(events).out)),
        bold_state(unbold_state(events).out).runs.len() == unbold_state(events).runs,
        bold_state(unbold_state(events).out).in_rpr == unbold_state(events).in_rpr,
        bold_state(unbold_state(events).out).any_run == bold_state(events).any_run,
        bold_state(events).runs.len() == unbold_state(events).runs,
        bold_state(events).in_rpr == unbold_state(events).in_rpr,
        (exists|i: int| 0 <= i < bold_state(events).runs.len() && #[trigger] bold_state(
            events,
        ).runs[i]) ==> unbold_state(events).removed > 0,
        bold_state(events).any_run && bold_state(events).all_bold ==> unbold_state(events).removed
            > 0,
        unbold_state(events).runs >= 0,
    decreases events.len(),
{
    if events.len() > 0 {
        let init = events.drop_last();
        let e = events.last();
        lemma_unbolded(init);
        let u = unbold_state(init);
        lemma_bold_push(u.out, e);
        let b = bold_state(init);
        if b.runs.len() > 0 {
            assert(b.runs.last() == b.runs[b.runs.len() - 1]);
        }
        lemma_open_names_differ();
    }
}

proof fn lemma_open_names_differ()
    ensures
        lit("w:b") != lit("w:r"),
        lit("w:bCs") != lit("w:r"),
        lit("w:b") != lit("w:rPr"),
        lit("w:bCs") != lit("w:rPr"),
{
    reveal_strlit("w:b");
    reveal_strlit("w:bCs");
    reveal_strlit("w:r");
    reveal_strlit("w:rPr");
    vstd::utf8::is_ascii_chars_encode_utf8("w:b"@);
    vstd::utf8::is_ascii_chars_encode_utf8("w:bCs"@);
    vstd::utf8::is_ascii_chars_encode_utf8("w:r"@);
    vstd::utf8::is_ascii_chars_encode_utf8("w:rPr"@);
    assert(lit("w:b")[2] != lit("w:r")[2]);
    assert(lit("w:bCs")[2] != lit("w:rPr")[2]);
}

/// A paragraph that was bold throughout is not any more once its bold has been removed;
/// one that was not stays as it is; and none is worked on twice.
pub proof fn law_plain_paragraph(events: Seq<Ev>)
    ensures
        !is_all_bold(plain_paragraph(events)),
        !is_all_bold(events) ==> plain_paragraph(events) == events,
        is_all_bold(events) ==> unbold_state(events).removed > 0,
        plain_paragraph(plain_paragraph(events)) == plain_paragraph(events),
{
    lemma_unbolded(events);
}

fn bold_name(ev: &XmlEvent) -> (r: bool)
    ensures
        r == is_bold_name(ev@),
{
    ev.has_name("w:b") || ev.has_name("w:bCs")
}

/// Whether the paragraph has a run and every run is bold.
pub fn para_is_all_bold(events: &Vec<XmlEvent>) -> (r: bool)
    ensures
        r == is_all_bold(events_view(events@)),
{
    let ghost evs = events_view(events@);
    let mut any_run = false;
    let mut all_bold = true;
    let mut runs: Vec<bool> = Vec::new();
    let mut in_rpr = false;
    let mut i: usize = 0;
    assert(evs.take(0) =~= Seq::empty());
    assert(runs@ =~= Seq::empty());
    while i < events.len()
        invariant
            i <= events@.len(),
            evs == events_view(events@),
            bold_state(evs.take(i as int)) == (BoldView { any_run, all_bold, runs: runs@, in_rpr }),
        decreases events@.len() - i,
    {
        let ev = &events[i];
        let ghost s = bold_state(evs.take(i as int));
        proof {
            assert(evs.take(i + 1).drop_last() =~= evs.take(i as int));
            assert(evs.take(i + 1).last() == ev@);
        }
        if ev.is_start("w:r") {
            runs.push(false);
            in_rpr = false;
        } else if ev.is_end("w:r") {
            any_run = true;
            let bold = match runs.pop() {
                Some(b) => b,
                None => false,
            };
            all_bold = all_bold && bold;
        } else if runs.len() > 0 && ev.is_start("w:rPr") {
            in_rpr = true;
        } else if runs.len() > 0 && ev.is_end("w:rPr") {
            in_rpr = false;
        } else if runs.len() > 0 && in_rpr && bold_on(ev) {
            runs.pop();
            runs.push(true);
        }
        assert(runs@ =~= bold_step(s, ev@).runs);
        i += 1;
    }
    assert(evs.take(i as int) =~= evs);
    any_run && all_bold
}

/// The removal of bold from a paragraph under way.
struct Unbold {
    runs: usize,
    in_rpr: bool,
    open: Vec<bool>,
    removed: usize,
}

impl Unbold {
    spec fn stands_for(&self, s: UnboldView) -> bool {
        &&& self.runs == s.runs
        &&& self.in_rpr == s.in_rpr
        &&& self.open@ == s.open
        &&& self.removed == s.removed
    }

    /// Whether an event stays.
    fn step(&mut self, ev: &XmlEvent, Ghost(s): Ghost<UnboldView>) -> (keep: bool)
        requires
            old(self).stands_for(s),
            old(self).runs < usize::MAX,
            old(self).removed < usize::MAX,
        ensures
            final(self).stands_for(unbold_step(s, ev@)),
            unbold_step(s, ev@).out == (if keep {
                s.out.push(ev@)
            } else {
                s.out
            }),
            final(self).runs <= old(self).runs + 1,
            final(self).removed <= old(self).removed + 1,
    {
        if ev.is_start("w:r") {
            self.runs += 1;
            self.in_rpr = false;
            return true;
        }
        if ev.is_end("w:r") {
            if self.runs > 0 {
                self.runs -= 1;
            }
            return true;
        }
        if self.runs > 0 && ev.is_start("w:rPr") {
            self.in_rpr = true;
            return true;
        }
        if self.runs > 0 && ev.is_end("w:rPr") {
            self.in_rpr = false;
            return true;
        }
        if !(self.runs > 0 && self.in_rpr && bold_name(ev)) {
            return true;
        }
        match ev.kind {
            EventKind::Empty => {
                let off = is_val_off(ev);
                if !off {
                    self.removed += 1;
                }
                off
            },
            EventKind::Start => {
                let off = is_val_off(ev);
                if !off {
                    self.removed += 1;
                }
                self.open.push(!off);
                off
            },
            EventKind::End => {
                let dropped = match self.open.pop() {
                    Some(b) => b,
                    None => false,
                };
                assert(self.open@ =~= unbold_step(s, ev@).open);
                !dropped
            },
            _ => true,
        }
    }
}

/// Writes the events of a paragraph without the bold of its runs. Returns how many
/// markers went.
fn drop_bold_in_runs(out: &mut Vec<u8>, events: &Vec<XmlEvent>) -> (n: usize)
    ensures
        final(out)@ == old(out)@ + emitted_all(unbold_state(events_view(events@)).out),
        n == unbold_state(events_view(events@)).removed,
{
    let ghost evs = events_view(events@);
    let mut u = Unbold { runs: 0, in_rpr: false, open: Vec::new(), removed: 0 };
    let mut i: usize = 0;
    assert(evs.take(0) =~= Seq::empty());
    assert(out@ =~= old(out)@ + emitted_all(unbold_state(evs.take(0)).out));
    assert(u.open@ =~= Seq::empty());
    while i < events.len()
        invariant
            i <= events@.len(),
            u.runs <= i,
            u.removed <= i,
            evs == events_view(events@),
            u.stands_for(unbold_state(evs.take(i as int))),
            out@ == old(out)@ + emitted_all(unbold_state(evs.take(i as int)).out),
        decreases events@.len() - i,
    {
        let ev = &events[i];
        let ghost s = unbold_state(evs.take(i as int));
        proof {
            assert(evs.take(i + 1).drop_last() =~= evs.take(i as int));
            assert(evs.take(i + 1).last() == ev@);
        }
        if u.step(ev, Ghost(s)) {
            emit(out, ev);
            proof {
                lemma_emitted_push(s.out, ev@);
                assert(out@ =~= old(out)@ + emitted_all(s.out.push(ev@)));
            }
        }
        i += 1;
    }
    assert(evs.take(i as int) =~= evs);
    u.removed
}

/// The events of a document without whole-paragraph bold, and how many paragraphs
/// lost it.
pub fn strip_bold_in_events(events: &Vec<XmlEvent>) -> (r: (Vec<u8>, usize))
    ensures
        r.0@ == emitted_all(strip_state(events_view(events@)).out),
        r.1 == strip_state(events_view(events@)).stripped,
{
    let ghost evs = events_view(events@);
    let mut out: Vec<u8> = Vec::new();
    let mut stripped: usize = 0;
    let mut depth: usize = 0;
    let mut para: Vec<XmlEvent> = Vec::new();
    let mut i: usize = 0;
    assert(evs.take(0) =~= Seq::empty());
    assert(events_view(para@) =~= Seq::empty());
    assert(out@ =~= emitted_all(Seq::empty()));
    while i < events.len()
        invariant
            i <= events@.len(),
            stripped <= i,
            depth <= i,
            evs == events_view(events@),
            ({
                let s = strip_state(evs.take(i as int));
                &&& out@ == emitted_all(s.out)
                &&& s.stripped == stripped
                &&& s.depth == depth
                &&& s.para == events_view(para@)
            }),
        decreases events@.len() - i,
    {
        let ev = &events[i];
        let ghost s = strip_state(evs.take(i as int));
        proof {
            assert(evs.take(i + 1).drop_last() =~= evs.take(i as int));
            assert(evs.take(i + 1).last() == ev@);
        }
        if ev.is_start("w:p") && depth == 0 {
            depth = 1;
            para = Vec::new();
            para.push(ev.copy());
            assert(events_view(para@) =~= seq![ev@]);
        } else if ev.is_end("w:p") && depth == 1 {
            para.push(ev.copy());
            assert(events_view(para@) =~= s.para.push(ev@));
            proof {
                lemma_emitted_concat(s.out, plain_paragraph(s.para.push(ev@)));
            }
            if para_is_all_bold(&para) {
                let n: usize = drop_bold_in_runs(&mut out, &para);
                if n > 0 {
                    stripped += 1;
                }
            } else {
                emit_all(&mut out, &para);
            }
            depth = 0;
            para = Vec::new();
            assert(events_view(para@) =~= Seq::empty());
        } else if depth > 0 {
            if ev.is_start("w:p") {
                depth += 1;
            } else if ev.is_end("w:p") {
                depth -= 1;
            }
            para.push(ev.copy());
            assert(events_view(para@) =~= s.para.push(ev@));
        } else {
            emit(&mut out, ev);
            proof {
                lemma_emitted_push(s.out, ev@);
            }
        }
        i += 1;
    }
    assert(evs.take(i as int) =~= evs);
    (out, stripped)
}

/// What [`strip_paragraph_bold`] does to the parts of a package, as `after` shows.
pub open spec fn bold_removed(before: Parts, after: Parts, res: Result<usize, Error>) -> bool {
    match part(before, PART_DOCUMENT@) {
        None => res == Ok::<usize, Error>(0) && after == before,
        Some(doc) => {
            let s = strip_state(xml_events(doc));
            &&& is_read(doc)
            &&& res is Ok == xml_readable(doc)
            &&& res matches Ok(n) ==> n == s.stripped
            &&& res matches Err(e) ==> e.is_xml_parse(PART_DOCUMENT@)
            &&& after == (if res is Ok && s.stripped > 0 {
                with_part(before, PART_DOCUMENT@, emitted_all(s.out))
            } else {
                before
            })
        },
    }
}

/// Removes whole-paragraph bold from the main document. Returns how many paragraphs
/// lost it; where none did, the package is as it was.
pub fn strip_paragraph_bold(pkg: &mut Package) -> (res: Result<usize, Error>)
    ensures
        final(pkg).source_view() == old(pkg).source_view(),
        bold_removed(old(pkg)@, final(pkg)@, res),
{
    let (out, n) = match pkg.get_part(PART_DOCUMENT) {
        None => return Ok(0),
        Some(doc) => {
            let events = parse_events(doc, PART_DOCUMENT)?;
            strip_bold_in_events(&events)
        },
    };
    if n > 0 {
        pkg.set_part(PART_DOCUMENT, out);
    }
    Ok(n)
}

// ---------------------------------------------------------------------------
// Stripping again
// ---------------------------------------------------------------------------

/// A survey of the paragraphs of a document.
#[verifier::ext_equal]
pub struct SurveyView {
    pub depth: int,
    /// The survey of the outermost open paragraph.
    pub bold: BoldView,
    /// How many paragraphs were bold throughout.
    pub found: nat,
}

/// What one event does to the survey.
pub open spec fn survey_step(s: SurveyView, e: Ev) -> SurveyView {
    if is_start(e, "w:p") && s.depth == 0 {
        SurveyView { depth: 1, bold: bold_state(Seq::empty()), ..s }
    } else if is_end(e, "w:p") && s.depth == 1 {
        SurveyView {
            depth: 0,
            found: if s.bold.any_run && s.bold.all_bold {
                s.found + 1
            } else {
                s.found
            },
            ..s
        }
    } else if s.depth > 0 {
        SurveyView { depth: paragraphs_open(s.depth, e), bold: bold_step(s.bold, e), ..s }
    } else {
        s
    }
}

/// The survey after `events`.
pub open spec fn survey(events: Seq<Ev>) -> SurveyView
    decreases events.len(),
{
    if events.len() == 0 {
        SurveyView { depth: 0, bold: bold_state(Seq::empty()), found: 0 }
    } else {
        survey_step(survey(events.drop_last()), events.last())
    }
}

proof fn lemma_survey_push(events: Seq<Ev>, e: Ev)
    ensures
        survey(events.push(e)) == survey_step(survey(events), e),
{
    assert(events.push(e).drop_last() =~= events);
}

/// Joining texts changes nothing about the paragraphs.
proof fn lemma_survey_joined(events: Seq<Ev>)
    ensures
        survey(joined(events)) == survey(events),
    decreases events.len(),
{
    if events.len() > 0 {
        let init = events.drop_last();
        let e = events.last();
        lemma_survey_joined(init);
        let before = joined(init);
        lemma_survey_push(before, e);
        if e.kind == EventKind::Text && ends_in_text(before) {
            let text = Ev { kind: EventKind::Text, raw: before.last().raw + e.raw };
            lemma_survey_push(before.drop_last(), text);
        }
    }
}

proof fn lemma_paragraph_names()
    ensures
        lit("w:p") != lit("w:r"),
        lit("w:p") != lit("w:rPr"),
        lit("w:p") != lit("w:b"),
        lit("w:p") != lit("w:bCs"),
{
    reveal_strlit("w:p");
    reveal_strlit("w:b");
    reveal_strlit("w:bCs");
    reveal_strlit("w:r");
    reveal_strlit("w:rPr");
    vstd::utf8::is_ascii_chars_encode_utf8("w:p"@);
    vstd::utf8::is_ascii_chars_encode_utf8("w:b"@);
    vstd::utf8::is_ascii_chars_encode_utf8("w:bCs"@);
    vstd::utf8::is_ascii_chars_encode_utf8("w:r"@);
    vstd::utf8::is_ascii_chars_encode_utf8("w:rPr"@);
    assert(lit("w:p")[2] != lit("w:r")[2]);
    assert(lit("w:p")[2] != lit("w:rPr")[2]);
    assert(lit("w:p")[2] != lit("w:b")[2]);
    assert(lit("w:p")[2] != lit("w:bCs")[2]);
}

/// The survey counts the paragraphs that lose their bold.
proof fn lemma_survey_counts(events: Seq<Ev>)
    ensures
        survey(events).depth == strip_state(events).depth,
        survey(events).found == strip_state(events).stripped,
        survey(events).depth > 0 ==> survey(events).bold == bold_state(strip_state(events).para),
    decreases events.len(),
{
    if events.len() > 0 {
        let init = events.drop_last();
        let e = events.last();
        lemma_survey_counts(init);
        let s = strip_state(init);
        lemma_paragraph_names();
        lemma_bold_push(s.para, e);
        lemma_bold_push(Seq::empty(), e);
        assert(Seq::<Ev>::empty().push(e) =~= seq![e]);
        law_plain_paragraph(s.para.push(e));
    }
}

proof fn lemma_unbold_push(events: Seq<Ev>, e: Ev)
    ensures
        unbold_state(events.push(e)) == unbold_step(unbold_state(events), e),
{
    assert(events.push(e).drop_last() =~= events);
}

/// No paragraph of what is left is bold throughout.
#[verifier::rlimit(40)]
proof fn lemma_none_left(events: Seq<Ev>)
    ensures
        ({
            let s = strip_state(events);
            let whole = survey(s.out + s.para);
            let plain = survey(s.out + unbold_state(s.para).out);
            &&& survey(s.out).depth == 0
            &&& survey(s.out).found == 0
            &&& whole.depth == s.depth
            &&& whole.found == 0
            &&& plain.depth == s.depth
            &&& plain.found == 0
            &&& s.depth >= 0
            &&& s.depth == 0 ==> s.para.len() == 0
            &&& s.depth > 0 ==> whole.bold == bold_state(s.para) && plain.bold == bold_state(
                unbold_state(s.para).out,
            )
        }),
    decreases events.len(),
{
    let none = Seq::<Ev>::empty();
    if events.len() == 0 {
        assert(none + none =~= none);
    } else {
        let init = events.drop_last();
        let e = events.last();
        lemma_none_left(init);
        let s = strip_state(init);
        let t = strip_state(events);
        let u = unbold_state(s.para);
        lemma_paragraph_names();
        lemma_open_names_differ();
        if is_start(e, "w:p") && s.depth == 0 {
            lemma_survey_push(s.out, e);
            lemma_bold_push(none, e);
            lemma_unbold_push(none, e);
            assert(none.push(e) =~= seq![e]);
            assert(s.out + seq![e] =~= s.out.push(e));
            assert(unbold_state(seq![e]).out =~= seq![e]);
        } else if is_end(e, "w:p") && s.depth == 1 {
            let para = s.para.push(e);
            lemma_survey_push(s.out + s.para, e);
            lemma_survey_push(s.out + u.out, e);
            lemma_bold_push(s.para, e);
            lemma_bold_push(u.out, e);
            lemma_unbold_push(s.para, e);
            assert(s.out + para =~= (s.out + s.para).push(e));
            assert(s.out + u.out.push(e) =~= (s.out + u.out).push(e));
            lemma_unbolded(para);
            lemma_unbolded(s.para);
            assert(t.out + none =~= t.out);
            assert(t.para =~= none);
        } else if s.depth > 0 {
            lemma_survey_push(s.out + s.para, e);
            lemma_survey_push(s.out + u.out, e);
            lemma_bold_push(s.para, e);
            lemma_bold_push(u.out, e);
            lemma_unbold_push(s.para, e);
            assert(s.out + s.para.push(e) =~= (s.out + s.para).push(e));
            assert(s.out + u.out.push(e) =~= (s.out + u.out).push(e));
            lemma_unbolded(s.para);
        } else {
            lemma_survey_push(s.out, e);
            assert(s.para =~= none);
            assert(t.out + none =~= t.out);
        }
    }
}

/// A name of a bold marker.
pub open spec fn is_marker(name: Seq<u8>) -> bool {
    name == lit("w:b") || name == lit("w:bCs")
}

/// No element stands in a bold marker.
pub open spec fn markers_hold_no_elements(events: Seq<Ev>) -> bool {
    forall|i: int|
        #![trigger events[i]]
        0 <= i < events.len() && events[i].kind == EventKind::Start ==> {
            let names = open_names(events.take(i))->0;
            names.len() > 0 ==> !is_marker(names.last())
        }
}

/// Only the innermost open element may be a bold marker.
spec fn markers_last(names: Seq<Seq<u8>>) -> bool {
    forall|k: int| 0 <= k < names.len() - 1 ==> !is_marker(#[trigger] names[k])
}

/// What is left behind `out` of a paragraph is nested as the paragraph is, whose open
/// elements are `names`. A bold marker that is open in run properties is the innermost of
/// them, and the only one that may be missing.
spec fn left_nested(out: Seq<Ev>, u: UnboldView, names: Seq<Seq<u8>>) -> bool {
    &&& nested(out + u.out)
    &&& open_names(out + u.out)->0 == (if u.open.len() == 1 && u.open[0] {
        names.drop_last()
    } else {
        names
    })
    &&& u.open.len() <= 1
    &&& u.runs >= 0
    &&& u.open.len() == 1 ==> u.runs > 0 && u.in_rpr && names.len() > 0 && is_marker(names.last())
    &&& u.open.len() == 0 && names.len() > 0 && is_marker(names.last()) ==> !(u.runs > 0
        && u.in_rpr)
}

#[verifier::rlimit(40)]
proof fn lemma_unbold_nested(
    out: Seq<Ev>,
    u: UnboldView,
    names: Seq<Seq<u8>>,
    e: Ev,
    after: Seq<Seq<u8>>,
)
    requires
        left_nested(out, u, names),
        markers_last(names),
        names_after(names, e) == Some(after),
        is_token(e),
        e.kind == EventKind::Start && names.len() > 0 ==> !is_marker(names.last()),
    ensures
        left_nested(out, unbold_step(u, e), after),
{
    lemma_open_names_differ();
    let v = unbold_step(u, e);
    if v.out == u.out.push(e) {
        assert(out + u.out.push(e) =~= (out + u.out).push(e));
    }
    if e.kind == EventKind::End && after.len() > 0 {
        assert(after.last() == names[after.len() - 1]);
    }
    if u.open.len() == 1 {
        assert(u.open.last() == u.open[0]);
    }
    if e.kind == EventKind::Start {
        assert(after.drop_last() =~= names);
    }
    if u.open.len() == 1 && u.open[0] {
        if e.kind != EventKind::End {
            lemma_nested_push(out + u.out, e);
        }
    } else {
        lemma_nested_push(out + u.out, e);
    }
}

/// What is left of a document is nested as the document is. A bold marker that has been
/// taken out is the innermost open element for as long as it is open.
#[verifier::rlimit(40)]
proof fn lemma_left_nested(events: Seq<Ev>, n: int)
    requires
        well_formed(events),
        markers_hold_no_elements(events),
        0 <= n <= events.len(),
    ensures
        ({
            let s = strip_state(events.take(n));
            let u = unbold_state(s.para);
            let names = open_names(events.take(n))->0;
            &&& markers_last(names)
            &&& nested(s.out)
            &&& s.depth >= 0
            &&& s.depth == 0 ==> s.para.len() == 0
            &&& nested(s.out + s.para)
            &&& open_names(s.out + s.para)->0 == names
            &&& left_nested(s.out, u, names)
        }),
    decreases n,
{
    let none = Seq::<Ev>::empty();
    let now = events.take(n);
    let t = strip_state(now);
    if n == 0 {
        lemma_nested_none();
        assert(now =~= none);
        assert(none + none =~= none);
    } else {
        lemma_left_nested(events, n - 1);
        lemma_nested_next(events, n - 1);
        let before = events.take(n - 1);
        let e = events[n - 1];
        assert(now.drop_last() =~= before);
        let s = strip_state(before);
        let u = unbold_state(s.para);
        let names = open_names(before)->0;
        let after = open_names(now)->0;
        lemma_paragraph_names();
        lemma_open_names_differ();
        assert(markers_last(after)) by {
            assert forall|k: int| 0 <= k < after.len() - 1 implies !is_marker(
                #[trigger] after[k],
            ) by {
                assert(after[k] == names[k]);
            }
        }
        if e.kind == EventKind::End && after.len() > 0 {
            assert(after.last() == names[after.len() - 1]);
        }
        if s.depth == 0 {
            assert(s.para =~= none);
            assert(s.out + none =~= s.out);
            lemma_nested_push(s.out, e);
            assert(none.push(e) =~= seq![e]);
            if is_start(e, "w:p") {
                lemma_unbold_push(none, e);
                assert(unbold_state(seq![e]).out =~= seq![e]);
                assert(s.out + seq![e] =~= s.out.push(e));
            } else {
                assert(t.out + none =~= t.out);
            }
        } else {
            lemma_nested_push(s.out + s.para, e);
            lemma_unbold_push(s.para, e);
            assert(s.out + s.para.push(e) =~= (s.out + s.para).push(e));
            assert(s.out + u.out.push(e) =~= (s.out + u.out).push(e));
            lemma_unbold_nested(s.out, u, names, e, after);
            if is_end(e, "w:p") && s.depth == 1 {
                assert(t.para =~= none);
                assert(t.out + none =~= t.out);
            }
        }
    }
}

/// What is left of a document starts as the document does, and not with two texts.
proof fn lemma_left_start(events: Seq<Ev>, n: int)
    requires
        well_formed(events),
        0 <= n <= events.len(),
    ensures
        ({
            let s = strip_state(events.take(n));
            let u = unbold_state(s.para);
            &&& s.out.len() > 0 ==> s.out[0] == events[0]
            &&& s.out.len() > 1 && s.out[0].kind == EventKind::Text ==> s.out[1].kind
                != EventKind::Text
            &&& s.depth >= 0
            &&& s.depth == 0 ==> (s.out.len() == 0 ==> n == 0) && (s.out.len() == 1 ==> n == 1)
            &&& s.depth > 0 ==> {
                &&& s.para.len() > 0
                &&& s.para[0].kind == EventKind::Start
                &&& u.out.len() > 0
                &&& u.out[0] == s.para[0]
                &&& n > 0
                &&& s.out.len() == 0 ==> s.para[0] == events[0]
            }
        }),
    decreases n,
{
    let none = Seq::<Ev>::empty();
    let now = events.take(n);
    if n > 0 {
        lemma_left_start(events, n - 1);
        let before = events.take(n - 1);
        let e = events[n - 1];
        assert(now.drop_last() =~= before);
        assert(now.last() == e);
        let s = strip_state(before);
        let u = unbold_state(s.para);
        lemma_paragraph_names();
        lemma_unbold_push(s.para, e);
        lemma_unbold_push(none, e);
        assert(none.push(e) =~= seq![e]);
        if n == 2 {
            reveal(well_formed);
            assert(events[0].kind == EventKind::Text ==> events[1].kind != EventKind::Text);
        }
    } else {
        assert(now =~= none);
    }
}

/// Stripping a document again finds nothing to strip, and can read it.
proof fn lemma_document_again(data: Seq<u8>, again: Seq<u8>)
    requires
        is_read(data),
        is_read(again),
        markers_hold_no_elements(xml_events(data)),
        !starts_with_mark(xml_events(data)),
        again == emitted_all(strip_state(xml_events(data)).out),
    ensures
        xml_readable(again),
        strip_state(xml_events(again)).stripped == 0,
{
    let events = xml_events(data);
    let n = events.len() as int;
    assert(events.take(n) =~= events);
    lemma_left_nested(events, n);
    lemma_left_start(events, n);
    let out = strip_state(events).out;
    lemma_joined(out);
    assert(!starts_with_mark(joined(out)));
    assert(again == emitted_all(joined(out)));
    assert(reads_back(joined(out)));
    lemma_survey_joined(out);
    lemma_survey_counts(joined(out));
    lemma_none_left(events);
}

/// Removing whole-paragraph bold again finds none and changes nothing. Left out are bold
/// markers that hold elements, which are not taken out whole, and documents that start with
/// a second byte order mark.
pub proof fn law_stripping_bold_again(
    before: Parts,
    after: Parts,
    first: Result<usize, Error>,
    last: Parts,
    second: Result<usize, Error>,
)
    requires
        bold_removed(before, after, first),
        first is Ok,
        part(before, PART_DOCUMENT@) matches Some(doc) ==> markers_hold_no_elements(
            xml_events(doc),
        ) && !starts_with_mark(xml_events(doc)),
        bold_removed(after, last, second),
    ensures
        second == Ok::<usize, Error>(0),
        last == after,
{
    if let Some(doc) = part(before, PART_DOCUMENT@) {
        let s = strip_state(xml_events(doc));
        if s.stripped > 0 {
            lemma_with_part(before, PART_DOCUMENT@, emitted_all(s.out));
            lemma_document_again(doc, emitted_all(s.out));
        }
    }
}

} // verus!
