//! Removal of run formatting that carries no meaning.
//!
//! Of the properties of a run only those that carry meaning stay (bold, italics,
//! underline and the like); fonts, sizes, colours, language and styles go, so that
//! the styles of the package govern how the run looks. A run that holds a footnote
//! reference is left as it is.

use vstd::prelude::*;

use crate::bytes::{add_capped, capped, lit};
use crate::error::Error;
use crate::joined::{
    joined, lemma_joined, lemma_nested_next, lemma_nested_none, lemma_nested_push, names_after, nested,
};
use crate::ns::{PART_DOCUMENT, PART_ENDNOTES, PART_FOOTNOTES};
use crate::package::{lemma_with_part, part, Package, Parts};
use crate::story::{lemma_pass_part, lemma_story_names, pass_part, pass_story, Pass};
use crate::style_mapper::is_open_tag;
use crate::wellformed::{
    count_name, ends_in_text, is_token, lemma_emitted_concat, lemma_emitted_push,
    lemma_first_counts, open_names, starts_with_mark, well_formed,
};
use crate::xml::{
    emit, emitted_all, events_view, is_end, is_read, is_start, parse_events, reads_back, tag_name,
    xml_events, xml_readable, Ev, EventKind, XmlEvent,
};

verus! {

/// The run properties that carry meaning.
pub open spec fn keep_rpr_tags() -> Seq<Seq<u8>> {
    seq![
        lit("w:b"),
        lit("w:bCs"),
        lit("w:i"),
        lit("w:iCs"),
        lit("w:u"),
        lit("w:strike"),
        lit("w:dstrike"),
        lit("w:vertAlign"),
        lit("w:highlight"),
        lit("w:smallCaps"),
        lit("w:allCaps"),
        lit("w:em"),
        lit("w:vanish"),
    ]
}

/// A property that carries meaning.
pub open spec fn is_kept(e: Ev) -> bool {
    keep_rpr_tags().contains(tag_name(e))
}

/// The run properties that carry meaning.
pub fn keep_tags() -> (r: Vec<&'static str>)
    ensures
        r@.map_values(|s: &str| lit(s)) == keep_rpr_tags(),
{
    let r: Vec<&'static str> = vec![
        "w:b",
        "w:bCs",
        "w:i",
        "w:iCs",
        "w:u",
        "w:strike",
        "w:dstrike",
        "w:vertAlign",
        "w:highlight",
        "w:smallCaps",
        "w:allCaps",
        "w:em",
        "w:vanish",
    ];
    assert(r@.map_values(|s: &str| lit(s)) =~= keep_rpr_tags());
    r
}

fn keeps(ev: &XmlEvent) -> (r: bool)
    ensures
        r == is_kept(ev@),
{
    let tags = keep_tags();
    let ghost all = keep_rpr_tags();
    let mut i: usize = 0;
    while i < tags.len()
        invariant
            i <= tags@.len(),
            tags@.map_values(|s: &str| lit(s)) == all,
            all == keep_rpr_tags(),
            forall|j: int| 0 <= j < i ==> #[trigger] all[j] != tag_name(ev@),
        decreases tags@.len() - i,
    {
        assert(all[i as int] == lit(tags@[i as int]));
        if ev.has_name(tags[i]) {
            return true;
        }
        i += 1;
    }
    false
}

/// A footnote reference, or the marker of a footnote's own text.
pub open spec fn is_footnote_mark(e: Ev) -> bool {
    is_open_tag(e, "w:footnoteReference") || is_open_tag(e, "w:footnoteRef")
}

/// Some event is a footnote mark.
pub open spec fn has_footnote_mark(events: Seq<Ev>) -> bool {
    exists|i: int| 0 <= i < events.len() && is_footnote_mark(#[trigger] events[i])
}

/// How far the filtering of a run has come.
#[verifier::ext_equal]
pub struct FilterView {
    pub out: Seq<Ev>,
    pub in_rpr: bool,
    /// How deep inside a dropped element.
    pub dropping: int,
    pub removed: nat,
}

/// What one event of a run does to its filtering.
pub open spec fn filter_step(s: FilterView, e: Ev) -> FilterView {
    if s.dropping > 0 {
        match e.kind {
            EventKind::Start => FilterView { dropping: s.dropping + 1, ..s },
            EventKind::End => FilterView { dropping: s.dropping - 1, ..s },
            _ => s,
        }
    } else if is_start(e, "w:rPr") {
        FilterView { out: s.out.push(e), in_rpr: true, ..s }
    } else if is_end(e, "w:rPr") {
        FilterView { out: s.out.push(e), in_rpr: false, ..s }
    } else if s.in_rpr && e.kind == EventKind::Empty && !is_kept(e) {
        FilterView { removed: s.removed + 1, ..s }
    } else if s.in_rpr && e.kind == EventKind::Start && !is_kept(e) {
        FilterView { removed: s.removed + 1, dropping: 1, ..s }
    } else {
        FilterView { out: s.out.push(e), ..s }
    }
}

/// The filtering of a run after `events`.
pub open spec fn filter_state(events: Seq<Ev>) -> FilterView
    decreases events.len(),
{
    if events.len() == 0 {
        FilterView { out: Seq::empty(), in_rpr: false, dropping: 0, removed: 0 }
    } else {
        filter_step(filter_state(events.drop_last()), events.last())
    }
}

/// What becomes of the contents of a run, and how many properties go.
pub open spec fn cleaned_run(payload: Seq<Ev>) -> (Seq<Ev>, nat) {
    if has_footnote_mark(payload) {
        (payload, 0)
    } else {
        (filter_state(payload).out, filter_state(payload).removed)
    }
}

/// How far the cleaning of a part has come.
#[verifier::ext_equal]
pub struct CleanView {
    pub out: Seq<Ev>,
    pub removed: nat,
    /// How many runs are open, one inside the other.
    pub depth: int,
    /// The outermost open run: its start tag and what followed it.
    pub open: Ev,
    pub payload: Seq<Ev>,
}

/// Nothing read yet.
pub open spec fn clean_start() -> CleanView {
    CleanView {
        out: Seq::empty(),
        removed: 0,
        depth: 0,
        open: Ev { kind: EventKind::Eof, raw: Seq::empty() },
        payload: Seq::empty(),
    }
}

/// What one event does to the cleaning of a part.
pub open spec fn clean_step(s: CleanView, e: Ev) -> CleanView {
    if is_start(e, "w:r") {
        if s.depth == 0 {
            CleanView { depth: 1, open: e, payload: Seq::empty(), ..s }
        } else {
            CleanView { depth: s.depth + 1, payload: s.payload.push(e), ..s }
        }
    } else if is_end(e, "w:r") && s.depth == 1 {
        let (kept, n) = cleaned_run(s.payload);
        CleanView {
            out: (s.out.push(s.open) + kept).push(e),
            removed: s.removed + n,
            depth: 0,
            payload: Seq::empty(),
            ..s
        }
    } else if s.depth > 0 {
        CleanView {
            depth: if is_end(e, "w:r") {
                s.depth - 1
            } else {
                s.depth
            },
            payload: s.payload.push(e),
            ..s
        }
    } else {
        CleanView { out: s.out.push(e), ..s }
    }
}

/// The cleaning of a part after `events`.
pub open spec fn clean_state(events: Seq<Ev>) -> CleanView
    decreases events.len(),
{
    if events.len() == 0 {
        clean_start()
    } else {
        clean_step(clean_state(events.drop_last()), events.last())
    }
}

/// A part with its runs cleaned, and how many properties went.
pub open spec fn runs_cleaned(events: Seq<Ev>) -> (Seq<u8>, nat) {
    (emitted_all(clean_state(events).out), clean_state(events).removed)
}

fn payload_has_footnote_ref(payload: &Vec<XmlEvent>) -> (r: bool)
    ensures
        r == has_footnote_mark(events_view(payload@)),
{
    let ghost evs = events_view(payload@);
    let mut i: usize = 0;
    while i < payload.len()
        invariant
            i <= payload@.len(),
            evs == events_view(payload@),
            forall|j: int| 0 <= j < i ==> !is_footnote_mark(#[trigger] evs[j]),
        decreases payload@.len() - i,
    {
        assert(evs[i as int] == payload@[i as int]@);
        if payload[i].is_open_tag("w:footnoteReference") || payload[i].is_open_tag(
            "w:footnoteRef",
        ) {
            return true;
        }
        i += 1;
    }
    false
}

/// Writes events.
pub(crate) fn emit_all(out: &mut Vec<u8>, events: &Vec<XmlEvent>)
    ensures
        final(out)@ == old(out)@ + emitted_all(events_view(events@)),
{
    let ghost evs = events_view(events@);
    let mut i: usize = 0;
    assert(evs.take(0) =~= Seq::empty());
    assert(out@ =~= old(out)@ + emitted_all(evs.take(0)));
    while i < events.len()
        invariant
            i <= events@.len(),
            evs == events_view(events@),
            out@ == old(out)@ + emitted_all(evs.take(i as int)),
        decreases events@.len() - i,
    {
        emit(out, &events[i]);
        proof {
            assert(evs.take(i + 1).drop_last() =~= evs.take(i as int));
            assert(evs.take(i + 1).last() == events@[i as int]@);
            assert(out@ =~= old(out)@ + emitted_all(evs.take(i + 1)));
        }
        i += 1;
    }
    assert(evs.take(i as int) =~= evs);
}

/// Writes the events of a run without the properties that carry no meaning. Returns
/// how many went.
fn filter_rpr_children(out: &mut Vec<u8>, events: &Vec<XmlEvent>) -> (n: usize)
    ensures
        final(out)@ == old(out)@ + emitted_all(filter_state(events_view(events@)).out),
        n == filter_state(events_view(events@)).removed,
{
    let ghost evs = events_view(events@);
    let mut in_rpr = false;
    let mut dropping: usize = 0;
    let mut removed: usize = 0;
    let mut i: usize = 0;
    assert(evs.take(0) =~= Seq::empty());
    assert(out@ =~= old(out)@ + emitted_all(filter_state(evs.take(0)).out));
    while i < events.len()
        invariant
            i <= events@.len(),
            removed <= i,
            dropping <= i,
            evs == events_view(events@),
            ({
                let s = filter_state(evs.take(i as int));
                &&& out@ == old(out)@ + emitted_all(s.out)
                &&& s.in_rpr == in_rpr
                &&& s.dropping == dropping
                &&& s.removed == removed
            }),
        decreases events@.len() - i,
    {
        let ev = &events[i];
        let ghost s = filter_state(evs.take(i as int));
        proof {
            assert(evs.take(i + 1).drop_last() =~= evs.take(i as int));
            assert(evs.take(i + 1).last() == ev@);
            lemma_emitted_push(s.out, ev@);
        }
        if dropping > 0 {
            if ev.kind == EventKind::Start {
                dropping += 1;
            } else if ev.kind == EventKind::End {
                dropping -= 1;
            }
        } else if ev.is_start("w:rPr") {
            in_rpr = true;
            emit(out, ev);
            assert(out@ =~= old(out)@ + emitted_all(s.out.push(ev@)));
        } else if ev.is_end("w:rPr") {
            in_rpr = false;
            emit(out, ev);
            assert(out@ =~= old(out)@ + emitted_all(s.out.push(ev@)));
        } else if in_rpr && ev.kind == EventKind::Empty && !keeps(ev) {
            removed += 1;
        } else if in_rpr && ev.kind == EventKind::Start && !keeps(ev) {
            removed += 1;
            dropping = 1;
        } else {
            emit(out, ev);
            assert(out@ =~= old(out)@ + emitted_all(s.out.push(ev@)));
        }
        i += 1;
    }
    assert(evs.take(i as int) =~= evs);
    removed
}

/// Writes the cleaned contents of a run. Returns how many properties went.
fn emit_cleaned(out: &mut Vec<u8>, payload: &Vec<XmlEvent>) -> (n: usize)
    ensures
        final(out)@ == old(out)@ + emitted_all(cleaned_run(events_view(payload@)).0),
        n == cleaned_run(events_view(payload@)).1,
{
    if payload_has_footnote_ref(payload) {
        emit_all(out, payload);
        0
    } else {
        filter_rpr_children(out, payload)
    }
}

/// The events of a part with the runs cleaned, and how many properties went.
pub fn clean_events(events: &Vec<XmlEvent>) -> (r: (Vec<u8>, usize))
    ensures
        r.0@ == runs_cleaned(events_view(events@)).0,
        r.1 == capped(runs_cleaned(events_view(events@)).1 as int),
{
    let ghost evs = events_view(events@);
    let mut out: Vec<u8> = Vec::new();
    let mut removed: usize = 0;
    let mut depth: usize = 0;
    let mut open = XmlEvent { kind: EventKind::Eof, raw: Vec::new() };
    let mut payload: Vec<XmlEvent> = Vec::new();
    let mut i: usize = 0;
    assert(evs.take(0) =~= Seq::empty());
    assert(events_view(payload@) =~= Seq::empty());
    assert(open.raw@ =~= Seq::<u8>::empty());
    assert(out@ =~= emitted_all(Seq::empty()));
    while i < events.len()
        invariant
            i <= events@.len(),
            depth <= i,
            evs == events_view(events@),
            ({
                let s = clean_state(evs.take(i as int));
                &&& out@ == emitted_all(s.out)
                &&& removed == capped(s.removed as int)
                &&& depth == s.depth
                &&& open@ == s.open
                &&& events_view(payload@) == s.payload
            }),
        decreases events@.len() - i,
    {
        let ev = &events[i];
        let ghost s = clean_state(evs.take(i as int));
        proof {
            assert(evs.take(i + 1).drop_last() =~= evs.take(i as int));
            assert(evs.take(i + 1).last() == ev@);
        }
        if ev.is_start("w:r") && depth == 0 {
            depth = 1;
            open = ev.copy();
            payload = Vec::new();
            assert(events_view(payload@) =~= Seq::empty());
        } else if ev.is_end("w:r") && depth == 1 {
            emit(&mut out, &open);
            let n: usize = emit_cleaned(&mut out, &payload);
            emit(&mut out, ev);
            proof {
                let kept = cleaned_run(s.payload).0;
                lemma_emitted_push(s.out, s.open);
                lemma_emitted_concat(s.out.push(s.open), kept);
                lemma_emitted_push(s.out.push(s.open) + kept, ev@);
                assert(out@ =~= emitted_all((s.out.push(s.open) + kept).push(ev@)));
            }
            removed = add_capped(removed, n);
            depth = 0;
            payload = Vec::new();
            assert(events_view(payload@) =~= Seq::empty());
        } else if depth > 0 {
            if ev.is_start("w:r") {
                depth += 1;
            } else if ev.is_end("w:r") {
                depth -= 1;
            }
            payload.push(ev.copy());
            assert(events_view(payload@) =~= s.payload.push(ev@));
        } else {
            emit(&mut out, ev);
            proof {
                lemma_emitted_push(s.out, ev@);
            }
        }
        i += 1;
    }
    assert(evs.take(i as int) =~= evs);
    (out, removed)
}

fn clean_part(pkg: &mut Package, name: &str) -> (res: Result<usize, Error>)
    ensures
        final(pkg).source_view() == old(pkg).source_view(),
        ({
            let p = pass_part(
                Pass { parts: old(pkg)@, count: 0, failed: None },
                name@,
                |evs: Seq<Ev>| runs_cleaned(evs),
            );
            &&& final(pkg)@ == p.parts
            &&& match res {
                Ok(n) => p.failed is None && n == capped(p.count as int),
                Err(e) => p.failed == Some(name@) && e.is_xml_parse(name@),
            }
        }),
        part_read(old(pkg)@, name@),
{
    let (out, n) = match pkg.get_part(name) {
        None => return Ok(0),
        Some(data) => {
            let events = parse_events(data, name)?;
            clean_events(&events)
        },
    };
    if n > 0 {
        pkg.set_part(name, out);
    }
    Ok(n)
}

/// The part can be read again where it has been written.
pub open spec fn part_read(parts: Parts, name: Seq<char>) -> bool {
    part(parts, name) matches Some(data) ==> is_read(data)
}

/// What [`clean_runs`] does to the parts of a package, as `after` shows.
pub open spec fn properties_removed(
    before: Parts,
    after: Parts,
    res: Result<usize, Error>,
) -> bool {
    let p = pass_story(before, |evs: Seq<Ev>| runs_cleaned(evs));
    &&& after == p.parts
    &&& match res {
        Ok(n) => {
            &&& p.failed is None
            &&& n == capped(p.count as int)
            &&& part_read(before, PART_DOCUMENT@)
            &&& part_read(before, PART_FOOTNOTES@)
            &&& part_read(before, PART_ENDNOTES@)
        },
        Err(e) => p.failed is Some && e.is_xml_parse(p.failed->0) && part_read(
            before,
            p.failed->0,
        ),
    }
}

/// Removes the run properties that carry no meaning from the main document, the
/// footnotes and the endnotes. Returns how many went; where none did, the package is
/// as it was.
pub fn clean_runs(pkg: &mut Package) -> (res: Result<usize, Error>)
    ensures
        final(pkg).source_view() == old(pkg).source_view(),
        properties_removed(old(pkg)@, final(pkg)@, res),
        res matches Ok(n) && n == 0 ==> final(pkg)@ == old(pkg)@,
{
    proof {
        lemma_story_names();
        let f = |evs: Seq<Ev>| runs_cleaned(evs);
        let p = Pass { parts: pkg@, count: 0, failed: None };
        lemma_pass_part(p, PART_DOCUMENT@, f);
        lemma_pass_part(pass_part(p, PART_DOCUMENT@, f), PART_FOOTNOTES@, f);
    }
    let a = clean_part(pkg, PART_DOCUMENT)?;
    let b = clean_part(pkg, PART_FOOTNOTES)?;
    let c = clean_part(pkg, PART_ENDNOTES)?;
    Ok(add_capped(add_capped(a, b), c))
}

// ---------------------------------------------------------------------------
// Laws
// ---------------------------------------------------------------------------

proof fn lemma_filter_push(events: Seq<Ev>, e: Ev)
    ensures
        filter_state(events.push(e)) == filter_step(filter_state(events), e),
{
    assert(events.push(e).drop_last() =~= events);
}

/// What a filtering leaves is left as it is by another.
proof fn lemma_filtered_again(events: Seq<Ev>)
    ensures
        ({
            let once = filter_state(events);
            let again = filter_state(once.out);
            &&& again.out == once.out
            &&& again.removed == 0
            &&& again.dropping == 0
            &&& again.in_rpr == once.in_rpr
            &&& once.dropping >= 0
        }),
    decreases events.len(),
{
    if events.len() > 0 {
        lemma_filtered_again(events.drop_last());
        lemma_filter_push(filter_state(events.drop_last()).out, events.last());
    }
}

proof fn lemma_filter_keeps(events: Seq<Ev>)
    ensures
        forall|i: int|
            0 <= i < filter_state(events).out.len() ==> events.contains(
                #[trigger] filter_state(events).out[i],
            ),
    decreases events.len(),
{
    if events.len() > 0 {
        let init = events.drop_last();
        lemma_filter_keeps(init);
        let before = filter_state(init).out;
        let out = filter_state(events).out;
        assert forall|i: int| 0 <= i < out.len() implies events.contains(#[trigger] out[i]) by {
            if i < before.len() {
                assert(init.contains(before[i]));
                let k = choose|k: int| 0 <= k < init.len() && init[k] == before[i];
                assert(events[k] == out[i]);
            } else {
                assert(events[events.len() - 1] == out[i]);
            }
        }
    }
}

/// Cleaning a run that has been cleaned removes nothing and changes nothing; and a run
/// with a footnote mark is never changed.
pub proof fn law_cleaned_again(payload: Seq<Ev>)
    ensures
        cleaned_run(cleaned_run(payload).0) == (cleaned_run(payload).0, 0nat),
        has_footnote_mark(payload) ==> cleaned_run(payload).0 == payload,
{
    if !has_footnote_mark(payload) {
        let once = filter_state(payload);
        lemma_filtered_again(payload);
        lemma_filter_keeps(payload);
        if has_footnote_mark(once.out) {
            let i = choose|i: int| 0 <= i < once.out.len() && is_footnote_mark(
                #[trigger] once.out[i],
            );
            let k = choose|k: int| 0 <= k < payload.len() && payload[k] == once.out[i];
            assert(is_footnote_mark(payload[k]));
        }
    }
}

/// In what a cleaning leaves of the properties of a run, every tag carries meaning.
pub proof fn law_only_meaning_is_left(payload: Seq<Ev>, i: int)
    requires
        !has_footnote_mark(payload),
        0 <= i < cleaned_run(payload).0.len(),
        filter_state(cleaned_run(payload).0.take(i)).in_rpr,
        cleaned_run(payload).0[i].kind == EventKind::Empty || cleaned_run(payload).0[i].kind
            == EventKind::Start,
    ensures
        is_kept(cleaned_run(payload).0[i]) || is_start(cleaned_run(payload).0[i], "w:rPr"),
{
    let out = filter_state(payload).out;
    lemma_filtered_again(payload);
    lemma_removed_grows(out, i + 1);
    lemma_removed_grows(out, i);
    assert(out.take(i + 1) =~= out.take(i).push(out[i]));
    lemma_filter_push(out.take(i), out[i]);
}

/// A longer part of a run loses no fewer properties.
proof fn lemma_removed_grows(events: Seq<Ev>, n: int)
    requires
        0 <= n <= events.len(),
    ensures
        filter_state(events.take(n)).removed <= filter_state(events).removed,
        filter_state(events).removed == 0 ==> filter_state(events.take(n)).dropping == 0,
    decreases events.len() - n,
{
    if n < events.len() {
        lemma_removed_grows(events, n + 1);
        assert(events.take(n + 1) =~= events.take(n).push(events[n]));
        lemma_filter_push(events.take(n), events[n]);
        lemma_not_dropping(events.take(n));
    } else {
        assert(events.take(n) =~= events);
        lemma_not_dropping(events);
    }
}

/// Where nothing has been removed, nothing is being dropped.
proof fn lemma_not_dropping(events: Seq<Ev>)
    ensures
        filter_state(events).removed == 0 ==> filter_state(events).dropping == 0,
    decreases events.len(),
{
    if events.len() > 0 {
        lemma_not_dropping(events.drop_last());
    }
}

// ---------------------------------------------------------------------------
// Cleaning again
// ---------------------------------------------------------------------------

/// A count of the properties that carry no meaning.
#[verifier::ext_equal]
pub struct TallyView {
    /// How many runs are open, one inside the other.
    pub depth: int,
    /// Whether the outermost open run holds a footnote mark.
    pub marked: bool,
    /// How far its filtering has come, but for what it leaves.
    pub filter: FilterView,
    pub total: nat,
}

/// A filtering but for what it leaves.
pub open spec fn cleared(f: FilterView) -> FilterView {
    FilterView { out: Seq::empty(), ..f }
}

/// How many runs are open after an event.
pub open spec fn runs_open(depth: int, e: Ev) -> int {
    if is_start(e, "w:r") {
        depth + 1
    } else if is_end(e, "w:r") {
        depth - 1
    } else {
        depth
    }
}

/// What one event does to the count.
pub open spec fn tally_step(s: TallyView, e: Ev) -> TallyView {
    if is_start(e, "w:r") && s.depth == 0 {
        TallyView { depth: 1, marked: false, filter: filter_state(Seq::empty()), ..s }
    } else if is_end(e, "w:r") && s.depth == 1 {
        TallyView {
            depth: 0,
            total: if s.marked {
                s.total
            } else {
                s.total + s.filter.removed
            },
            ..s
        }
    } else if s.depth > 0 {
        TallyView {
            depth: runs_open(s.depth, e),
            marked: s.marked || is_footnote_mark(e),
            filter: cleared(filter_step(s.filter, e)),
            ..s
        }
    } else {
        s
    }
}

/// The count after `events`.
pub open spec fn tally(events: Seq<Ev>) -> TallyView
    decreases events.len(),
{
    if events.len() == 0 {
        TallyView { depth: 0, marked: false, filter: filter_state(Seq::empty()), total: 0 }
    } else {
        tally_step(tally(events.drop_last()), events.last())
    }
}

proof fn lemma_tally_push(events: Seq<Ev>, e: Ev)
    ensures
        tally(events.push(e)) == tally_step(tally(events), e),
{
    assert(events.push(e).drop_last() =~= events);
}

/// Joining texts changes nothing about the properties.
proof fn lemma_tally_joined(events: Seq<Ev>)
    ensures
        tally(joined(events)) == tally(events),
        tally(events).filter.out.len() == 0,
    decreases events.len(),
{
    if events.len() > 0 {
        let init = events.drop_last();
        let e = events.last();
        lemma_tally_joined(init);
        let before = joined(init);
        lemma_tally_push(before, e);
        if e.kind == EventKind::Text && ends_in_text(before) {
            let text = Ev { kind: EventKind::Text, raw: before.last().raw + e.raw };
            lemma_tally_push(before.drop_last(), text);
            lemma_text_does_nothing(tally(init), e);
            lemma_text_does_nothing(tally(before.drop_last()), text);
            lemma_text_does_nothing(tally(before.drop_last()), before.last());
            lemma_no_filter_out(before.drop_last());
        }
    }
}

proof fn lemma_no_filter_out(events: Seq<Ev>)
    ensures
        tally(events).filter.out.len() == 0,
    decreases events.len(),
{
    if events.len() > 0 {
        lemma_no_filter_out(events.drop_last());
    }
}

proof fn lemma_text_does_nothing(s: TallyView, e: Ev)
    requires
        e.kind == EventKind::Text,
        s.filter.out.len() == 0,
    ensures
        tally_step(s, e) == s,
{
    assert(s.filter.out =~= Seq::empty());
}

proof fn lemma_mark_push(events: Seq<Ev>, e: Ev)
    ensures
        has_footnote_mark(events.push(e)) == (has_footnote_mark(events) || is_footnote_mark(e)),
{
    let after = events.push(e);
    if has_footnote_mark(events) {
        let i = choose|i: int| 0 <= i < events.len() && is_footnote_mark(#[trigger] events[i]);
        assert(after[i] == events[i]);
    }
    assert(after[events.len() as int] == e);
    if has_footnote_mark(after) {
        let i = choose|i: int| 0 <= i < after.len() && is_footnote_mark(#[trigger] after[i]);
        if i < events.len() {
            assert(events[i] == after[i]);
        }
    }
}

/// The count counts what a cleaning removes.
proof fn lemma_tally_counts(events: Seq<Ev>)
    ensures
        ({
            let s = clean_state(events);
            let t = tally(events);
            &&& t.depth == s.depth
            &&& t.total == s.removed
            &&& s.depth >= 0
            &&& s.depth > 0 ==> t.marked == has_footnote_mark(s.payload) && t.filter == cleared(
                filter_state(s.payload),
            )
        }),
    decreases events.len(),
{
    if events.len() > 0 {
        let init = events.drop_last();
        let e = events.last();
        lemma_tally_counts(init);
        let s = clean_state(init);
        lemma_mark_push(s.payload, e);
        lemma_filter_push(s.payload, e);
        assert(cleared(filter_state(Seq::empty())) =~= filter_state(Seq::empty()));
        lemma_runs_are_not_properties();
        assert(cleared(filter_step(filter_state(s.payload), e)) =~= cleared(
            filter_step(cleared(filter_state(s.payload)), e),
        ));
    }
}

proof fn lemma_runs_are_not_properties()
    ensures
        lit("w:r") != lit("w:rPr"),
{
    reveal_strlit("w:r");
    reveal_strlit("w:rPr");
    vstd::utf8::is_ascii_chars_encode_utf8("w:r"@);
    vstd::utf8::is_ascii_chars_encode_utf8("w:rPr"@);
    assert(lit("w:r").len() != lit("w:rPr").len());
}

/// How many of the open elements behind the first `k` are runs.
pub open spec fn open_runs(names: Seq<Seq<u8>>, k: int) -> int {
    count_name(names.skip(k), lit("w:r"))
}

/// The open runs after one more event.
pub proof fn lemma_open_runs(names: Seq<Seq<u8>>, k: int, e: Ev)
    requires
        0 <= k < names.len(),
        names_after(names, e) is Some,
    ensures
        names_after(names, e)->0.len() >= k,
        open_runs(names_after(names, e)->0, k) == runs_open(open_runs(names, k), e),
{
    let after = names_after(names, e)->0;
    match e.kind {
        EventKind::Start => {
            assert(after.skip(k) =~= names.skip(k).push(tag_name(e)));
            assert(names.skip(k).push(tag_name(e)).drop_last() =~= names.skip(k));
        },
        EventKind::End => {
            assert(after.skip(k) =~= names.skip(k).drop_last());
        },
        _ => {},
    }
}

/// What a filtering behind `out` leaves of a run: nested as far as nothing is being
/// dropped, with nothing more to remove.
spec fn left_clean(out: Seq<Ev>, f: FilterView, names: Seq<Seq<u8>>, k: int) -> bool {
    let left = out + f.out;
    let there = names.take(names.len() - f.dropping);
    &&& f.dropping >= 0
    &&& names.len() - f.dropping > k
    &&& nested(left)
    &&& open_names(left)->0 == there
    &&& tally(left).depth == open_runs(there, k)
    &&& tally(left).total == 0
    &&& tally(left).filter == FilterView {
        out: Seq::empty(),
        in_rpr: f.in_rpr,
        dropping: 0,
        removed: 0,
    }
}

#[verifier::rlimit(60)]
proof fn lemma_left_clean(out: Seq<Ev>, f: FilterView, names: Seq<Seq<u8>>, k: int, e: Ev)
    requires
        left_clean(out, f, names, k),
        0 <= k < names.len(),
        names[k] == lit("w:r"),
        names_after(names, e) is Some,
        is_token(e),
        !(is_end(e, "w:r") && open_runs(names, k) == 1),
    ensures
        left_clean(out, filter_step(f, e), names_after(names, e)->0, k),
        names_after(names, e)->0.len() > k,
        names_after(names, e)->0[k] == names[k],
{
    let after = names_after(names, e)->0;
    let g = filter_step(f, e);
    let left = out + f.out;
    let there = names.take(names.len() - f.dropping);
    let then_there = after.take(after.len() - g.dropping);
    lemma_runs_are_not_properties();
    assert(names.skip(k)[0] == names[k]);
    lemma_first_counts(names.skip(k), lit("w:r"));
    if e.kind == EventKind::End && names.len() == k + 1 {
        assert(names.last() == names[k]);
        assert(names.skip(k).drop_last() =~= Seq::empty());
        assert(names.skip(k).last() == names[k]);
        reveal_with_fuel(count_name, 2);
    }
    assert(there.skip(k)[0] == names[k]);
    lemma_first_counts(there.skip(k), lit("w:r"));
    lemma_open_runs(names, k, e);
    if f.dropping > 0 {
        assert(then_there =~= there);
    } else {
        assert(there =~= names);
        if g.out == f.out.push(e) {
            assert(out + g.out =~= left.push(e));
            lemma_nested_push(left, e);
            lemma_tally_push(left, e);
            assert(then_there =~= after);
        } else {
            assert(then_there =~= there);
        }
    }
}

/// What is left of a part is nested as the part is, with nothing more to remove.
#[verifier::rlimit(60)]
proof fn lemma_part_left(events: Seq<Ev>, n: int)
    requires
        well_formed(events),
        0 <= n <= events.len(),
    ensures
        ({
            let s = clean_state(events.take(n));
            let names = open_names(events.take(n))->0;
            let k = open_names(s.out)->0.len() as int;
            let whole = s.out.push(s.open) + s.payload;
            &&& nested(s.out)
            &&& tally(s.out).depth == 0
            &&& tally(s.out).total == 0
            &&& s.depth >= 0
            &&& s.depth == 0 ==> open_names(s.out)->0 == names
            &&& s.depth > 0 ==> {
                &&& k < names.len()
                &&& names[k] == lit("w:r")
                &&& open_runs(names, k) == s.depth
                &&& nested(whole)
                &&& open_names(whole)->0 == names
                &&& tally(whole).depth == s.depth
                &&& tally(whole).total == 0
                &&& tally(whole).marked == has_footnote_mark(s.payload)
                &&& left_clean(s.out.push(s.open), filter_state(s.payload), names, k)
            }
        }),
    decreases n,
{
    let none = Seq::<Ev>::empty();
    let now = events.take(n);
    if n == 0 {
        lemma_nested_none();
        assert(now =~= none);
    } else {
        lemma_part_left(events, n - 1);
        lemma_nested_next(events, n - 1);
        let before = events.take(n - 1);
        let e = events[n - 1];
        assert(now.drop_last() =~= before);
        assert(now.last() == e);
        let s = clean_state(before);
        let t = clean_state(now);
        let names = open_names(before)->0;
        let after = open_names(now)->0;
        let k = open_names(s.out)->0.len() as int;
        let whole = s.out.push(s.open) + s.payload;
        let f = filter_state(s.payload);
        let left = s.out.push(s.open) + f.out;
        lemma_runs_are_not_properties();
        if s.depth == 0 {
            lemma_nested_push(s.out, e);
            lemma_tally_push(s.out, e);
            if is_start(e, "w:r") {
                assert(s.out.push(e) + none =~= s.out.push(e));
                assert(after.take(after.len() as int) =~= after);
                assert(after.skip(k) =~= seq![lit("w:r")]);
                reveal_with_fuel(count_name, 2);
                assert(seq![lit("w:r")].drop_last() =~= Seq::empty());
                assert(tally(s.out.push(e)).filter.out =~= Seq::empty());
            }
        } else {
            lemma_nested_push(whole, e);
            lemma_tally_push(whole, e);
            lemma_tally_push(left, e);
            if is_end(e, "w:r") && s.depth == 1 {
                lemma_run_closes(names, k);
                assert(names.take(names.len() as int) =~= names);
                lemma_nested_push(left, e);
            } else {
                assert(s.out.push(s.open) + s.payload.push(e) =~= whole.push(e));
                lemma_open_runs(names, k, e);
                lemma_left_clean(s.out.push(s.open), f, names, k, e);
                lemma_filter_push(s.payload, e);
                lemma_mark_push(s.payload, e);
            }
        }
    }
}

/// The end tag of the outermost run closes it.
pub proof fn lemma_run_closes(names: Seq<Seq<u8>>, k: int)
    requires
        0 <= k < names.len(),
        names[k] == lit("w:r"),
        names.last() == lit("w:r"),
        open_runs(names, k) == 1,
    ensures
        names.len() == k + 1,
{
    assert(names.skip(k)[0] == names[k]);
    lemma_first_counts(names.skip(k), lit("w:r"));
    if names.len() > k + 1 {
        assert(names.skip(k).last() == names.last());
    }
}

/// What is left of a part starts as the part does, and not with two texts.
proof fn lemma_clean_start(events: Seq<Ev>, n: int)
    requires
        well_formed(events),
        0 <= n <= events.len(),
    ensures
        ({
            let s = clean_state(events.take(n));
            &&& s.out.len() > 0 ==> s.out[0] == events[0]
            &&& s.out.len() > 1 && s.out[0].kind == EventKind::Text ==> s.out[1].kind
                != EventKind::Text
            &&& s.depth >= 0
            &&& s.depth == 0 ==> (s.out.len() == 0 ==> n == 0) && (s.out.len() == 1 ==> n == 1)
            &&& s.depth > 0 ==> s.open.kind == EventKind::Start && n > 0 && (s.out.len() == 0
                ==> s.open == events[0])
        }),
    decreases n,
{
    let now = events.take(n);
    if n > 0 {
        lemma_clean_start(events, n - 1);
        assert(now.drop_last() =~= events.take(n - 1));
        assert(now.last() == events[n - 1]);
        if n == 2 {
            reveal(well_formed);
            assert(events[0].kind == EventKind::Text ==> events[1].kind != EventKind::Text);
        }
    } else {
        assert(now =~= Seq::empty());
    }
}

/// A part that has been cleaned can be read and is not changed by another pass.
proof fn lemma_part_again(data: Seq<u8>, again: Seq<u8>)
    requires
        xml_readable(data),
        is_read(data),
        is_read(again),
        !starts_with_mark(xml_events(data)),
        again == (if runs_cleaned(xml_events(data)).1 == 0 {
            data
        } else {
            runs_cleaned(xml_events(data)).0
        }),
    ensures
        xml_readable(again),
        runs_cleaned(xml_events(again)).1 == 0,
{
    let events = xml_events(data);
    let n = events.len() as int;
    if runs_cleaned(events).1 != 0 {
        assert(events.take(n) =~= events);
        lemma_part_left(events, n);
        lemma_clean_start(events, n);
        let out = clean_state(events).out;
        lemma_joined(out);
        assert(!starts_with_mark(joined(out)));
        assert(again == emitted_all(joined(out)));
        assert(reads_back(joined(out)));
        lemma_tally_joined(out);
        lemma_tally_counts(joined(out));
    }
}

/// The part after its own pass.
spec fn part_after(parts: Parts, name: Seq<char>) -> Option<Seq<u8>> {
    match part(parts, name) {
        None => None,
        Some(data) => Some(
            if runs_cleaned(xml_events(data)).1 == 0 {
                data
            } else {
                runs_cleaned(xml_events(data)).0
            },
        ),
    }
}

proof fn lemma_own_pass(p: Pass, name: Seq<char>)
    requires
        p.failed is None,
        pass_part(p, name, |evs: Seq<Ev>| runs_cleaned(evs)).failed is None,
    ensures
        part(pass_part(p, name, |evs: Seq<Ev>| runs_cleaned(evs)).parts, name) == part_after(
            p.parts,
            name,
        ),
        part(p.parts, name) matches Some(data) ==> xml_readable(data),
{
    if let Some(data) = part(p.parts, name) {
        lemma_with_part(p.parts, name, runs_cleaned(xml_events(data)).0);
    }
}

/// The part does not start with a second byte order mark.
pub open spec fn has_no_mark(parts: Parts, name: Seq<char>) -> bool {
    part(parts, name) matches Some(data) ==> !starts_with_mark(xml_events(data))
}

/// Cleaning the runs of a package again removes nothing and changes nothing. Left out are
/// parts that start with a second byte order mark.
pub proof fn law_cleaning_again(
    before: Parts,
    after: Parts,
    first: Result<usize, Error>,
    last: Parts,
    second: Result<usize, Error>,
)
    requires
        properties_removed(before, after, first),
        first is Ok,
        has_no_mark(before, PART_DOCUMENT@),
        has_no_mark(before, PART_FOOTNOTES@),
        has_no_mark(before, PART_ENDNOTES@),
        properties_removed(after, last, second),
    ensures
        second == Ok::<usize, Error>(0),
        last == after,
{
    lemma_story_names();
    let f = |evs: Seq<Ev>| runs_cleaned(evs);
    let p0 = Pass { parts: before, count: 0, failed: None };
    let p1 = pass_part(p0, PART_DOCUMENT@, f);
    let p2 = pass_part(p1, PART_FOOTNOTES@, f);
    lemma_pass_part(p0, PART_DOCUMENT@, f);
    lemma_pass_part(p1, PART_FOOTNOTES@, f);
    lemma_pass_part(p2, PART_ENDNOTES@, f);
    assert(p1.failed is None && p2.failed is None);
    lemma_own_pass(p0, PART_DOCUMENT@);
    lemma_own_pass(p1, PART_FOOTNOTES@);
    lemma_own_pass(p2, PART_ENDNOTES@);
    assert(part(after, PART_DOCUMENT@) == part_after(before, PART_DOCUMENT@));
    assert(part(after, PART_FOOTNOTES@) == part_after(before, PART_FOOTNOTES@));
    assert(part(after, PART_ENDNOTES@) == part_after(before, PART_ENDNOTES@));
    let q0 = Pass { parts: after, count: 0, failed: None };
    let q1 = pass_part(q0, PART_DOCUMENT@, f);
    let q2 = pass_part(q1, PART_FOOTNOTES@, f);
    let q3 = pass_part(q2, PART_ENDNOTES@, f);
    lemma_pass_part(q0, PART_DOCUMENT@, f);
    lemma_pass_part(q1, PART_FOOTNOTES@, f);
    if second is Err {
        let name = q3.failed->0;
        assert(part(after, name) is Some && !xml_readable(part(after, name)->0));
        lemma_part_again(part(before, name)->0, part(after, name)->0);
    }
    if let Some(data) = part(before, PART_DOCUMENT@) {
        lemma_part_again(data, part(after, PART_DOCUMENT@)->0);
    }
    if let Some(data) = part(before, PART_FOOTNOTES@) {
        lemma_part_again(data, part(after, PART_FOOTNOTES@)->0);
    }
    if let Some(data) = part(before, PART_ENDNOTES@) {
        lemma_part_again(data, part(after, PART_ENDNOTES@)->0);
    }
    assert(pass_part(q0, PART_DOCUMENT@, f) == q0);
    assert(pass_part(q0, PART_FOOTNOTES@, f) == q0);
    assert(pass_part(q0, PART_ENDNOTES@, f) == q0);
}

} // verus!
