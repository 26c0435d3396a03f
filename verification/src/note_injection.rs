//! Inline `[N]` markers turned into footnote references.
//!
//! Callers give the bodies of the notes by number. Every `[N]` in the text of a run
//! whose number has a body becomes a reference run between clones of the text run, and
//! the note is added to the footnotes part. A marker that is split over several text
//! elements is left alone, and so is a run that holds another run.

use std::collections::BTreeMap;
use vstd::prelude::*;
use vstd::std_specs::cmp::OrdSpec;
use vstd::utf8::{encode_utf8, is_ascii_chars_encode_utf8, valid_utf8};

use crate::bytes::{add_capped, capped, is_str, lit, push_all, push_str};
use crate::clean_runs::emit_all;
use crate::error::Error;
use crate::notes_kind::with_mapped;
use crate::ns::{
    CT_FOOTNOTES, PART_CONTENT_TYPES, PART_DOCUMENT, PART_DOCUMENT_RELS, PART_FOOTNOTES,
    REL_TYPE_FOOTNOTES,
};
use crate::package::{part, with_part, Package, Parts};
use crate::paragraph_runs::event_text;
use crate::paragraph_text::{texts_state, texts_step, TextsView};
use crate::rels::{
    digits_at, free_rid, insert_before_last, inserted_before_last, memchr_contains, next_rid_in,
    occurs, read_digits,
};
use crate::style_mapper::push_attr;
use crate::text::{decimal, parse_unsigned, parsed_unsigned, to_decimal, utf8_str};
use crate::wellformed::{lemma_emitted_concat, lemma_emitted_push, tag};
use crate::xml::{
    attr_bytes, attributes, attrs_view, emit, emit_raw, emitted, emitted_all, events_view,
    is_end, is_read, is_start, is_xml_space, lemma_name_end, name_end, parse_events, tag_attrs, tag_name,
    xml_events, xml_readable, At, Ev, EventKind, XmlAttr, XmlEvent,
};

verus! {

/// Outcome of an injection.
#[derive(Debug)]
pub struct InjectionReport {
    /// How many markers were turned into references.
    pub inserted: usize,
    /// Numbers of references made that have no body. A marker without a body is left
    /// in the text, so there are none.
    pub unknown_ids: Vec<u32>,
    /// Numbers with a body that no marker cites.
    pub unused_ids: Vec<u32>,
}

// ---------------------------------------------------------------------------
// Markers
// ---------------------------------------------------------------------------

/// A marker in a text: where it starts, where it ends, which note it cites.
#[derive(Clone, Copy, Debug, PartialEq, Eq, Structural)]
pub struct Marker {
    pub start: usize,
    pub end: usize,
    pub number: u32,
}

/// The note that a marker at position `i` cites, if one stands there.
pub open spec fn marker_at(text: Seq<u8>, known: Set<u32>, i: int) -> Option<u32> {
    let d = digits_at(text, i + 1);
    let j = i + 1 + d.len();
    if text[i] == 0x5b && j < text.len() && text[j] == 0x5d {
        match parsed_unsigned(d, u32::MAX as int) {
            Some(n) => if known.contains(n as u32) {
                Some(n as u32)
            } else {
                None
            },
            None => None,
        }
    } else {
        None
    }
}

/// The position after a marker at position `i`.
pub open spec fn marker_end(text: Seq<u8>, i: int) -> int {
    i + digits_at(text, i + 1).len() + 2
}

/// The markers at or after position `i` that cite known notes, left to right.
pub open spec fn markers(text: Seq<u8>, known: Set<u32>, i: int) -> Seq<Marker>
    decreases text.len() - i,
{
    if i >= text.len() {
        Seq::empty()
    } else {
        match marker_at(text, known, i) {
            Some(n) => seq![
                Marker { start: i as usize, end: marker_end(text, i) as usize, number: n },
            ] + markers(text, known, marker_end(text, i)),
            None => markers(text, known, i + 1),
        }
    }
}

/// Every marker that cites a known note.
pub fn find_all_markers(text: &[u8], notes: &BTreeMap<u32, &str>) -> (r: Vec<Marker>)
    ensures
        r@ == markers(text@, notes@.dom(), 0),
        in_order(r@, text@.len() as int),
{
    broadcast use vstd::std_specs::btree::group_btree_axioms;

    let ghost known = notes@.dom();
    let mut r: Vec<Marker> = Vec::new();
    let mut i: usize = 0;
    assert(r@ + markers(text@, known, 0) =~= markers(text@, known, 0));
    while i < text.len()
        invariant
            i <= text@.len(),
            known == notes@.dom(),
            in_order(r@, i as int),
            r@ + markers(text@, known, i as int) == markers(text@, known, 0),
        decreases text@.len() - i,
    {
        let mut next: usize = i + 1;
        let ghost before = r@;
        if text[i] == 0x5b {
            let digits = read_digits(text, i + 1);
            let j: usize = i + 1 + digits.len();
            if j < text.len() && text[j] == 0x5d {
                if let Some(n) = parse_unsigned(&digits, u32::MAX as u64) {
                    let number: u32 = n as u32;
                    if notes.contains_key(&number) {
                        let m = Marker { start: i, end: j + 1, number };
                        assert(marker_at(text@, known, i as int) == Some(number));
                        r.push(m);
                        next = j + 1;
                    }
                }
            }
        }
        proof {
            if next == i + 1 {
                assert(marker_at(text@, known, i as int) is None);
            } else {
                assert(r@ + markers(text@, known, next as int) =~= before + markers(
                    text@,
                    known,
                    i as int,
                ));
            }
        }
        i = next;
    }
    assert(r@ + markers(text@, known, i as int) =~= r@);
    r
}

/// Markers follow one another without overlap, before position `to`.
pub open spec fn in_order(ms: Seq<Marker>, to: int) -> bool {
    &&& forall|i: int| 0 <= i < ms.len() ==> (#[trigger] ms[i]).start < ms[i].end <= to
    &&& forall|i: int, j: int|
        0 <= i < j < ms.len() ==> (#[trigger] ms[i]).end <= (#[trigger] ms[j]).start
}

/// The first marker that cites a known note: its position and the note.
pub fn find_first_marker(text: &[u8], notes: &BTreeMap<u32, &str>) -> (r: Option<(usize, u32)>)
    ensures
        match r {
            Some(p) => {
                let ms = markers(text@, notes@.dom(), 0);
                ms.len() > 0 && ms[0].start == p.0 && ms[0].number == p.1
            },
            None => markers(text@, notes@.dom(), 0).len() == 0,
        },
{
    let ms = find_all_markers(text, notes);
    if ms.len() > 0 {
        Some((ms[0].start, ms[0].number))
    } else {
        None
    }
}

/// The length of the marker of a note: two brackets and the number.
pub fn marker_len(n: u32) -> (r: usize)
    ensures
        r == decimal(n as nat).len() + 2,
{
    let mut len: usize = 3;
    let mut v: u32 = n;
    proof {
        reveal_with_fuel(crate::text::power_of_ten, 11);
        crate::text::lemma_decimal_len(n as nat, 10);
    }
    while v >= 10
        invariant
            len + decimal(v as nat).len() == decimal(n as nat).len() + 3,
            decimal(n as nat).len() <= 10,
        decreases v,
    {
        v = v / 10;
        len += 1;
    }
    len
}

// ---------------------------------------------------------------------------
// Runs
// ---------------------------------------------------------------------------

/// ASCII white space.
pub open spec fn is_ascii_space(b: u8) -> bool {
    b == 0x20 || b == 0x09 || b == 0x0a || b == 0x0c || b == 0x0d
}

/// A text that starts or ends with white space, which must be marked to be kept.
pub open spec fn needs_preserving(text: Seq<u8>) -> bool {
    text.len() > 0 && (is_ascii_space(text[0]) || is_ascii_space(text.last()))
}

/// A tag that asks for white space to be kept.
pub open spec fn preserves(attrs: Seq<At>) -> bool {
    exists|i: int|
        0 <= i < attrs.len() && (#[trigger] attrs[i]).key == lit("xml:space") && attrs[i].value
            == lit("preserve")
}

/// The start tag of a text, marked to keep white space where that matters.
pub open spec fn text_tag(t: Ev, text: Seq<u8>) -> Ev {
    if needs_preserving(text) && !preserves(tag_attrs(t, true)) {
        Ev { kind: EventKind::Start, raw: t.raw + attr_bytes(lit("xml:space"), lit("preserve")) }
    } else {
        Ev { kind: EventKind::Start, raw: t.raw }
    }
}

/// A clone of a run with a piece of its text; a piece that is not UTF-8 is dropped.
pub open spec fn clone_run(run: Ev, t: Ev, text: Seq<u8>) -> Seq<u8> {
    emitted(run) + emitted(text_tag(t, text)) + (if valid_utf8(text) {
        text
    } else {
        Seq::empty()
    }) + lit("</w:t></w:r>")
}

/// A run that refers to a note.
pub open spec fn reference_run(number: u32) -> Seq<u8> {
    lit("<w:r><w:rPr><w:rStyle w:val=\"FootnoteReference\"/></w:rPr><w:footnoteReference w:id=\"")
        + encode_utf8(decimal(number as nat)) + lit("\"/></w:r>")
}

/// A clone for a piece of text, if there is any.
pub open spec fn piece(run: Ev, t: Ev, text: Seq<u8>) -> Seq<u8> {
    if text.len() == 0 {
        Seq::empty()
    } else {
        clone_run(run, t, text)
    }
}

/// Where the text after the first `n` markers starts.
pub open spec fn after_markers(ms: Seq<Marker>, n: int) -> int {
    if n <= 0 {
        0
    } else {
        ms[n - 1].end as int
    }
}

/// The runs that stand for the text up to the end of the `n`-th marker.
pub open spec fn split_upto(run: Ev, t: Ev, text: Seq<u8>, ms: Seq<Marker>, n: int) -> Seq<u8>
    decreases n,
{
    if n <= 0 {
        Seq::empty()
    } else {
        split_upto(run, t, text, ms, n - 1) + piece(
            run,
            t,
            text.subrange(after_markers(ms, n - 1), ms[n - 1].start as int),
        ) + reference_run(ms[n - 1].number)
    }
}

/// The runs that a run with markers is split into.
pub open spec fn split_run(run: Ev, t: Ev, text: Seq<u8>, ms: Seq<Marker>) -> Seq<u8> {
    split_upto(run, t, text, ms, ms.len() as int) + piece(
        run,
        t,
        text.skip(after_markers(ms, ms.len() as int)),
    )
}

/// The notes cited so far, each once, in order of first citation.
pub open spec fn with_cited(seen: Seq<u32>, ms: Seq<Marker>, n: int) -> Seq<u32>
    decreases n,
{
    if n <= 0 {
        seen
    } else {
        let before = with_cited(seen, ms, n - 1);
        if before.contains(ms[n - 1].number) {
            before
        } else {
            before.push(ms[n - 1].number)
        }
    }
}

// ---------------------------------------------------------------------------
// The document
// ---------------------------------------------------------------------------

/// How far the rewriting of the document has come.
#[verifier::ext_equal]
pub struct InjectView {
    pub out: Seq<u8>,
    pub inserted: nat,
    pub seen: Seq<u32>,
    /// How many runs are open, one inside the other.
    pub depth: int,
    /// Whether the outermost open run holds another run.
    pub nested: bool,
    /// The outermost open run: its start tag and what followed it.
    pub open: Ev,
    pub payload: Seq<Ev>,
    /// The start tag of its last text element, and the text since.
    pub t: Ev,
    pub text: Option<Seq<u8>>,
}

/// Nothing written yet.
pub open spec fn inject_start() -> InjectView {
    InjectView {
        out: Seq::empty(),
        inserted: 0,
        seen: Seq::empty(),
        depth: 0,
        nested: false,
        open: Ev { kind: EventKind::Eof, raw: Seq::empty() },
        payload: Seq::empty(),
        t: Ev { kind: EventKind::Eof, raw: Seq::empty() },
        text: None,
    }
}

/// The markers in the text of the open run.
pub open spec fn run_markers(s: InjectView, known: Set<u32>) -> Seq<Marker> {
    match s.text {
        Some(text) if !s.nested => markers(text, known, 0),
        _ => Seq::empty(),
    }
}

/// What the end of the outermost run does.
pub open spec fn run_closed(s: InjectView, known: Set<u32>, e: Ev) -> InjectView {
    let ms = run_markers(s, known);
    if ms.len() > 0 {
        InjectView {
            out: s.out + split_run(s.open, s.t, s.text->0, ms),
            inserted: s.inserted + ms.len(),
            seen: with_cited(s.seen, ms, ms.len() as int),
            depth: 0,
            payload: Seq::empty(),
            text: None,
            ..s
        }
    } else {
        InjectView {
            out: s.out + emitted(s.open) + emitted_all(s.payload) + emitted(e),
            depth: 0,
            payload: Seq::empty(),
            text: None,
            ..s
        }
    }
}

/// What an event inside a run does to what is known of the run's text.
pub open spec fn text_followed(s: InjectView, e: Ev) -> InjectView {
    if is_start(e, "w:t") {
        InjectView { t: e, text: Some(Seq::empty()), ..s }
    } else if e.kind == EventKind::Text && s.text is Some {
        InjectView { text: Some(s.text->0 + e.raw), ..s }
    } else {
        s
    }
}

/// What one event does to the rewriting.
pub open spec fn inject_step(s: InjectView, known: Set<u32>, e: Ev) -> InjectView {
    if is_start(e, "w:r") && s.depth == 0 {
        InjectView {
            depth: 1,
            nested: false,
            open: e,
            payload: Seq::empty(),
            text: None,
            ..s
        }
    } else if is_end(e, "w:r") && s.depth == 1 {
        run_closed(s, known, e)
    } else if s.depth > 0 {
        let followed = text_followed(s, e);
        InjectView {
            depth: if is_start(e, "w:r") {
                s.depth + 1
            } else if is_end(e, "w:r") {
                s.depth - 1
            } else {
                s.depth
            },
            nested: s.nested || is_start(e, "w:r"),
            payload: s.payload.push(e),
            ..followed
        }
    } else {
        InjectView { out: s.out + emitted(e), ..s }
    }
}

/// The rewriting after `events`.
pub open spec fn inject_state(events: Seq<Ev>, known: Set<u32>) -> InjectView
    decreases events.len(),
{
    if events.len() == 0 {
        inject_start()
    } else {
        inject_step(inject_state(events.drop_last(), known), known, events.last())
    }
}

/// Whether white space at the edges of the text must be marked to be kept.
pub fn needs_preserve(text: &[u8]) -> (r: bool)
    ensures
        r == needs_preserving(text@),
{
    if text.len() == 0 {
        return false;
    }
    let a: u8 = text[0];
    let b: u8 = text[text.len() - 1];
    (a == 0x20 || a == 0x09 || a == 0x0a || a == 0x0c || a == 0x0d) || (b == 0x20 || b == 0x09 || b
        == 0x0a || b == 0x0c || b == 0x0d)
}

fn has_preserve(attrs: &Vec<XmlAttr>) -> (r: bool)
    ensures
        r == preserves(attrs_view(attrs@)),
{
    let ghost all = attrs_view(attrs@);
    let mut i: usize = 0;
    while i < attrs.len()
        invariant
            i <= attrs@.len(),
            all == attrs_view(attrs@),
            forall|j: int|
                0 <= j < i ==> !((#[trigger] all[j]).key == lit("xml:space") && all[j].value == lit(
                    "preserve",
                )),
        decreases attrs@.len() - i,
    {
        assert(all[i as int] == attrs@[i as int]@);
        if is_str(&attrs[i].key, "xml:space") && is_str(&attrs[i].value, "preserve") {
            return true;
        }
        i += 1;
    }
    false
}

/// Writes a clone of a run with a piece of its text.
fn write_clone_run(out: &mut Vec<u8>, run: &XmlEvent, t: &XmlEvent, text: &[u8])
    ensures
        final(out)@ == old(out)@ + clone_run(run@, t@, text@),
{
    emit(out, run);
    let mut raw: Vec<u8> = crate::bytes::to_vec(&t.raw);
    if needs_preserve(text) {
        let attrs = attributes(t, true);
        if !has_preserve(&attrs) {
            push_attr(&mut raw, "xml:space".as_bytes(), "preserve".as_bytes());
        }
    }
    emit_raw(out, EventKind::Start, &raw);
    assert(text_tag(t@, text@) =~= (Ev { kind: EventKind::Start, raw: raw@ }));
    let ghost before = out@;
    if utf8_str(text).is_some() {
        push_all(out, text);
    }
    push_str(out, "</w:t></w:r>");
    assert(out@ =~= old(out)@ + clone_run(run@, t@, text@));
}

/// Writes a run that refers to a note.
fn write_ref_run(out: &mut Vec<u8>, number: u32)
    ensures
        final(out)@ == old(out)@ + reference_run(number),
{
    push_str(
        out,
        "<w:r><w:rPr><w:rStyle w:val=\"FootnoteReference\"/></w:rPr><w:footnoteReference w:id=\"",
    );
    push_str(out, &to_decimal(number as u64));
    push_str(out, "\"/></w:r>");
    assert(out@ =~= old(out)@ + reference_run(number));
}

fn contains_id(v: &Vec<u32>, n: u32) -> (r: bool)
    ensures
        r == v@.contains(n),
{
    let mut i: usize = 0;
    while i < v.len()
        invariant
            i <= v@.len(),
            forall|j: int| 0 <= j < i ==> v@[j] != n,
        decreases v@.len() - i,
    {
        if v[i] == n {
            return true;
        }
        i += 1;
    }
    false
}

/// Writes the runs that a run with markers is split into, and notes what it cites.
fn write_split(
    out: &mut Vec<u8>,
    seen: &mut Vec<u32>,
    run: &XmlEvent,
    t: &XmlEvent,
    text: &Vec<u8>,
    ms: &Vec<Marker>,
)
    requires
        in_order(ms@, text@.len() as int),
    ensures
        final(out)@ == old(out)@ + split_run(run@, t@, text@, ms@),
        final(seen)@ == with_cited(old(seen)@, ms@, ms@.len() as int),
{
    let mut cursor: usize = 0;
    let mut i: usize = 0;
    assert(out@ =~= old(out)@ + split_upto(run@, t@, text@, ms@, 0));
    while i < ms.len()
        invariant
            i <= ms@.len(),
            in_order(ms@, text@.len() as int),
            cursor == after_markers(ms@, i as int),
            cursor <= text@.len(),
            out@ == old(out)@ + split_upto(run@, t@, text@, ms@, i as int),
            seen@ == with_cited(old(seen)@, ms@, i as int),
        decreases ms@.len() - i,
    {
        let m = ms[i];
        proof {
            if i > 0 {
                assert(ms@[i - 1].end <= ms@[i as int].start);
            }
            assert(m.start < m.end <= text@.len());
        }
        if cursor < m.start {
            write_clone_run(
                out,
                run,
                t,
                vstd::slice::slice_subrange(text.as_slice(), cursor, m.start),
            );
        }
        write_ref_run(out, m.number);
        cursor = m.end;
        if !contains_id(seen, m.number) {
            seen.push(m.number);
        }
        i += 1;
        assert(out@ =~= old(out)@ + split_upto(run@, t@, text@, ms@, i as int));
    }
    if cursor < text.len() {
        write_clone_run(
            out,
            run,
            t,
            vstd::slice::slice_subrange(text.as_slice(), cursor, text.len()),
        );
    }
    assert(text@.subrange(cursor as int, text@.len() as int) =~= text@.skip(cursor as int));
    assert(out@ =~= old(out)@ + split_run(run@, t@, text@, ms@));
}

struct Injector {
    out: Vec<u8>,
    inserted: usize,
    seen: Vec<u32>,
    depth: usize,
    nested: bool,
    open: XmlEvent,
    payload: Vec<XmlEvent>,
    t: XmlEvent,
    text: Option<Vec<u8>>,
}

spec fn opt_bytes_view(o: Option<Vec<u8>>) -> Option<Seq<u8>> {
    match o {
        Some(v) => Some(v@),
        None => None,
    }
}

impl Injector {
    /// The state stands for `s`, except that the count goes only as far as it fits.
    spec fn stands_for(&self, s: InjectView) -> bool {
        &&& self.out@ == s.out
        &&& self.inserted == capped(s.inserted as int)
        &&& self.seen@ == s.seen
        &&& self.depth == s.depth
        &&& self.nested == s.nested
        &&& self.open@ == s.open
        &&& events_view(self.payload@) == s.payload
        &&& self.t@ == s.t
        &&& opt_bytes_view(self.text) == s.text
    }

    fn close_run(&mut self, notes: &BTreeMap<u32, &str>, ev: &XmlEvent, Ghost(s): Ghost<InjectView>)
        requires
            old(self).stands_for(s),
        ensures
            final(self).stands_for(run_closed(s, notes@.dom(), ev@)),
    {
        let ms: Vec<Marker> = match &self.text {
            Some(text) => if self.nested {
                Vec::new()
            } else {
                find_all_markers(text, notes)
            },
            None => Vec::new(),
        };
        assert(ms@ =~= run_markers(s, notes@.dom()));
        if ms.len() > 0 {
            if let Some(text) = &self.text {
                write_split(&mut self.out, &mut self.seen, &self.open, &self.t, text, &ms);
            }
            self.inserted = add_capped(self.inserted, ms.len());
        } else {
            emit(&mut self.out, &self.open);
            emit_all(&mut self.out, &self.payload);
            emit(&mut self.out, ev);
        }
        self.depth = 0;
        self.payload = Vec::new();
        assert(events_view(self.payload@) =~= Seq::empty());
        self.text = None;
    }

    fn track_text(&mut self, ev: &XmlEvent, Ghost(s): Ghost<InjectView>)
        requires
            old(self).stands_for(s),
        ensures
            final(self).stands_for(text_followed(s, ev@)),
    {
        if ev.is_start("w:t") {
            self.t = ev.copy();
            self.text = Some(Vec::new());
            assert(self.text->0@ =~= Seq::empty());
        } else if ev.kind == EventKind::Text {
            if let Some(text) = &mut self.text {
                push_all(text, &ev.raw);
            }
        }
    }

    fn step(&mut self, notes: &BTreeMap<u32, &str>, ev: &XmlEvent, Ghost(s): Ghost<InjectView>)
        requires
            old(self).stands_for(s),
            old(self).depth < usize::MAX,
        ensures
            final(self).stands_for(inject_step(s, notes@.dom(), ev@)),
            final(self).depth <= old(self).depth + 1,
    {
        if ev.is_start("w:r") && self.depth == 0 {
            self.depth = 1;
            self.nested = false;
            self.open = ev.copy();
            self.payload = Vec::new();
            assert(events_view(self.payload@) =~= Seq::empty());
            self.text = None;
        } else if ev.is_end("w:r") && self.depth == 1 {
            self.close_run(notes, ev, Ghost(s));
        } else if self.depth > 0 {
            self.track_text(ev, Ghost(s));
            if ev.is_start("w:r") {
                self.depth += 1;
                self.nested = true;
            } else if ev.is_end("w:r") {
                self.depth -= 1;
            }
            self.payload.push(ev.copy());
            assert(events_view(self.payload@) =~= s.payload.push(ev@));
        } else {
            emit(&mut self.out, ev);
        }
    }
}

/// The events of a document with its markers turned into references; the notes cited,
/// each once, in order of first citation; and the number of markers.
pub fn rewrite_document(events: &Vec<XmlEvent>, notes: &BTreeMap<u32, &str>) -> (r: (
    Vec<u8>,
    Vec<u32>,
    usize,
))
    ensures
        ({
            let s = inject_state(events_view(events@), notes@.dom());
            r.0@ == s.out && r.1@ == s.seen && r.2 == capped(s.inserted as int)
        }),
{
    let ghost evs = events_view(events@);
    let ghost known = notes@.dom();
    let mut j = Injector {
        out: Vec::new(),
        inserted: 0,
        seen: Vec::new(),
        depth: 0,
        nested: false,
        open: XmlEvent { kind: EventKind::Eof, raw: Vec::new() },
        payload: Vec::new(),
        t: XmlEvent { kind: EventKind::Eof, raw: Vec::new() },
        text: None,
    };
    let mut i: usize = 0;
    assert(evs.take(0) =~= Seq::empty());
    assert(events_view(j.payload@) =~= Seq::empty());
    assert(j.open@ =~= inject_start().open);
    while i < events.len()
        invariant
            i <= events@.len(),
            evs == events_view(events@),
            known == notes@.dom(),
            j.depth <= i,
            j.stands_for(inject_state(evs.take(i as int), known)),
        decreases events@.len() - i,
    {
        j.step(notes, &events[i], Ghost(inject_state(evs.take(i as int), known)));
        proof {
            assert(evs.take(i + 1).drop_last() =~= evs.take(i as int));
            assert(evs.take(i + 1).last() == events@[i as int]@);
        }
        i += 1;
    }
    assert(evs.take(i as int) =~= evs);
    (j.out, j.seen, j.inserted)
}

// ---------------------------------------------------------------------------
// The footnotes part
// ---------------------------------------------------------------------------

/// Text with the characters escaped that XML does not take in text.
pub open spec fn minimally_escaped(b: Seq<u8>) -> Seq<u8>
    decreases b.len(),
{
    if b.len() == 0 {
        Seq::empty()
    } else {
        minimally_escaped(b.drop_last()) + (if b.last() == 0x3c {
            lit("&lt;")
        } else if b.last() == 0x3e {
            lit("&gt;")
        } else if b.last() == 0x26 {
            lit("&amp;")
        } else {
            seq![b.last()]
        })
    }
}

/// The entry of a note.
pub open spec fn note_entry(number: u32, body: Seq<char>) -> Seq<u8> {
    lit("<w:footnote w:id=\"") + encode_utf8(decimal(number as nat)) + lit("\">") + lit(
        "<w:p><w:r><w:rPr><w:rStyle w:val=\"FootnoteReference\"/></w:rPr><w:footnoteRef/></w:r><w:r><w:t xml:space=\"preserve\"> </w:t></w:r><w:r><w:t xml:space=\"preserve\">",
    ) + minimally_escaped(encode_utf8(body)) + lit("</w:t></w:r></w:p></w:footnote>")
}

/// The entries of the notes cited, as far as they have bodies.
pub open spec fn note_entries(bodies: Map<u32, &str>, cited: Seq<u32>) -> Seq<u8>
    decreases cited.len(),
{
    if cited.len() == 0 {
        Seq::empty()
    } else {
        let before = note_entries(bodies, cited.drop_last());
        if bodies.contains_key(cited.last()) {
            before + note_entry(cited.last(), bodies[cited.last()]@)
        } else {
            before
        }
    }
}

/// What a new footnotes part starts with: Word's two separators.
pub const NOTES_HEAD: &'static str =
    "<?xml version=\"1.0\" encoding=\"UTF-8\" standalone=\"yes\"?><w:footnotes xmlns:w=\"http://schemas.openxmlformats.org/wordprocessingml/2006/main\"><w:footnote w:id=\"-1\" w:type=\"separator\"><w:p><w:r><w:separator/></w:r></w:p></w:footnote><w:footnote w:id=\"0\" w:type=\"continuationSeparator\"><w:p><w:r><w:continuationSeparator/></w:r></w:p></w:footnote>";

/// The footnotes part with entries appended. A part that is missing, or has no end to
/// append at, is made anew.
pub open spec fn with_entries(existing: Option<Seq<u8>>, entries: Seq<u8>) -> Seq<u8> {
    let appended = match existing {
        Some(data) => inserted_before_last(data, lit("</w:footnotes>"), entries),
        None => None,
    };
    match appended {
        Some(data) => data,
        None => lit(NOTES_HEAD) + entries + lit("</w:footnotes>"),
    }
}

/// The content types with an override for the footnotes part, unless there is one.
/// Content types that are not UTF-8, or have no end, stay as they are.
pub open spec fn with_notes_type(data: Seq<u8>) -> Seq<u8> {
    let entry = lit("<Override PartName=\"/word/footnotes.xml\" ContentType=\"") + lit(
        CT_FOOTNOTES,
    ) + lit("\"/>");
    if occurs(data, lit("/word/footnotes.xml")) || !valid_utf8(data) {
        data
    } else {
        match inserted_before_last(data, lit("</Types>"), entry) {
            Some(d) => d,
            None => data,
        }
    }
}

/// The relationships with one to the footnotes part, under the next free id, unless
/// there is one. Relationships that are not UTF-8, or have no end, stay as they are.
pub open spec fn with_notes_relationship(data: Seq<u8>) -> Seq<u8> {
    let entry = lit("<Relationship Id=\"rId") + encode_utf8(decimal(free_rid(data) as nat)) + lit(
        "\" Type=\"",
    ) + lit(REL_TYPE_FOOTNOTES) + lit("\" Target=\"footnotes.xml\"/>");
    if occurs(data, lit("relationships/footnotes")) || !valid_utf8(data) {
        data
    } else {
        match inserted_before_last(data, lit("</Relationships>"), entry) {
            Some(d) => d,
            None => data,
        }
    }
}

/// The parts with the cited notes in the footnotes part, and that part made known.
pub open spec fn with_notes(parts: Parts, bodies: Map<u32, &str>, cited: Seq<u32>) -> Parts {
    let p1 = with_part(
        parts,
        PART_FOOTNOTES@,
        with_entries(part(parts, PART_FOOTNOTES@), note_entries(bodies, cited)),
    );
    let p2 = with_mapped(p1, PART_CONTENT_TYPES@, |d: Seq<u8>| with_notes_type(d));
    with_mapped(p2, PART_DOCUMENT_RELS@, |d: Seq<u8>| with_notes_relationship(d))
}

fn push_minimally_escaped(out: &mut Vec<u8>, text: &str)
    ensures
        final(out)@ == old(out)@ + minimally_escaped(lit(text)),
{
    let b = text.as_bytes();
    let mut i: usize = 0;
    assert(b@.take(0) =~= Seq::empty());
    assert(out@ =~= old(out)@ + minimally_escaped(b@.take(0)));
    while i < b.len()
        invariant
            i <= b@.len(),
            out@ == old(out)@ + minimally_escaped(b@.take(i as int)),
        decreases b@.len() - i,
    {
        let c: u8 = b[i];
        proof {
            assert(b@.take(i + 1).drop_last() =~= b@.take(i as int));
            assert(b@.take(i + 1).last() == c);
        }
        if c == 0x3c {
            push_str(out, "&lt;");
        } else if c == 0x3e {
            push_str(out, "&gt;");
        } else if c == 0x26 {
            push_str(out, "&amp;");
        } else {
            out.push(c);
        }
        i += 1;
        assert(out@ =~= old(out)@ + minimally_escaped(b@.take(i as int)));
    }
    assert(b@.take(i as int) =~= b@);
}

fn build_entries(notes: &BTreeMap<u32, &str>, cited: &Vec<u32>) -> (r: Vec<u8>)
    ensures
        r@ == note_entries(notes@, cited@),
{
    broadcast use vstd::std_specs::btree::group_btree_axioms;

    let mut r: Vec<u8> = Vec::new();
    let mut i: usize = 0;
    assert(cited@.take(0) =~= Seq::empty());
    while i < cited.len()
        invariant
            i <= cited@.len(),
            r@ == note_entries(notes@, cited@.take(i as int)),
        decreases cited@.len() - i,
    {
        let n: u32 = cited[i];
        let ghost before = r@;
        proof {
            assert(cited@.take(i + 1).drop_last() =~= cited@.take(i as int));
            assert(cited@.take(i + 1).last() == n);
        }
        if let Some(body) = notes.get(&n) {
            push_str(&mut r, "<w:footnote w:id=\"");
            push_str(&mut r, &to_decimal(n as u64));
            push_str(&mut r, "\">");
            push_str(
                &mut r,
                "<w:p><w:r><w:rPr><w:rStyle w:val=\"FootnoteReference\"/></w:rPr><w:footnoteRef/></w:r><w:r><w:t xml:space=\"preserve\"> </w:t></w:r><w:r><w:t xml:space=\"preserve\">",
            );
            push_minimally_escaped(&mut r, *body);
            push_str(&mut r, "</w:t></w:r></w:p></w:footnote>");
            assert(r@ =~= before + note_entry(n, notes@[n]@));
        }
        i += 1;
    }
    assert(cited@.take(i as int) =~= cited@);
    r
}

fn append_entries(existing: Option<&[u8]>, entries: &Vec<u8>) -> (r: Vec<u8>)
    ensures
        r@ == with_entries(
            match existing {
                Some(d) => Some(d@),
                None => None,
            },
            entries@,
        ),
{
    if let Some(data) = existing {
        if let Some(out) = insert_before_last(data, "</w:footnotes>", entries) {
            return out;
        }
    }
    let mut out: Vec<u8> = Vec::new();
    push_str(&mut out, NOTES_HEAD);
    push_all(&mut out, entries);
    push_str(&mut out, "</w:footnotes>");
    assert(out@ =~= lit(NOTES_HEAD) + entries@ + lit("</w:footnotes>"));
    out
}

fn add_notes_type(data: &mut Vec<u8>)
    ensures
        final(data)@ == with_notes_type(old(data)@),
{
    if !memchr_contains(data, "/word/footnotes.xml".as_bytes()) && utf8_str(data).is_some() {
        let mut entry: Vec<u8> = Vec::new();
        push_str(&mut entry, "<Override PartName=\"/word/footnotes.xml\" ContentType=\"");
        push_str(&mut entry, CT_FOOTNOTES);
        push_str(&mut entry, "\"/>");
        assert(entry@ =~= lit("<Override PartName=\"/word/footnotes.xml\" ContentType=\"") + lit(
            CT_FOOTNOTES,
        ) + lit("\"/>"));
        if let Some(out) = insert_before_last(data, "</Types>", &entry) {
            *data = out;
        }
    }
}

fn add_notes_relationship(data: &mut Vec<u8>)
    ensures
        final(data)@ == with_notes_relationship(old(data)@),
{
    if !memchr_contains(data, "relationships/footnotes".as_bytes()) && utf8_str(data).is_some() {
        let id: u64 = next_rid_in(data);
        let mut entry: Vec<u8> = Vec::new();
        push_str(&mut entry, "<Relationship Id=\"rId");
        push_str(&mut entry, &to_decimal(id));
        push_str(&mut entry, "\" Type=\"");
        push_str(&mut entry, REL_TYPE_FOOTNOTES);
        push_str(&mut entry, "\" Target=\"footnotes.xml\"/>");
        assert(entry@ =~= lit("<Relationship Id=\"rId") + encode_utf8(decimal(id as nat)) + lit(
            "\" Type=\"",
        ) + lit(REL_TYPE_FOOTNOTES) + lit("\" Target=\"footnotes.xml\"/>"));
        if let Some(out) = insert_before_last(data, "</Relationships>", &entry) {
            *data = out;
        }
    }
}

/// Adds the cited notes to the footnotes part, and makes that part known.
fn ensure_footnotes_part(pkg: &mut Package, notes: &BTreeMap<u32, &str>, cited: &Vec<u32>)
    ensures
        final(pkg)@ == with_notes(old(pkg)@, notes@, cited@),
        final(pkg).source_view() == old(pkg).source_view(),
{
    let entries = build_entries(notes, cited);
    let data = append_entries(pkg.get_part(PART_FOOTNOTES), &entries);
    pkg.set_part(PART_FOOTNOTES, data);
    if let Some(data) = pkg.get_part_mut(PART_CONTENT_TYPES) {
        add_notes_type(data);
    }
    if let Some(data) = pkg.get_part_mut(PART_DOCUMENT_RELS) {
        add_notes_relationship(data);
    }
}

/// `v` lists the members of `s` in ascending order.
pub open spec fn lists(v: Seq<u32>, s: Set<u32>) -> bool {
    &&& forall|i: int, j: int| 0 <= i < j < v.len() ==> v[i] < v[j]
    &&& forall|n: u32| v.contains(n) <==> s.contains(n)
}

proof fn lemma_increasing(keys: Seq<u32>, i: int, j: int)
    requires
        vstd::std_specs::btree::increasing_seq(keys),
        0 <= i < j < keys.len(),
    ensures
        keys[i] < keys[j],
{
    broadcast use vstd::std_specs::btree::group_btree_axioms;

    assert(keys[i].cmp_spec(&keys[j]) is Less);
}

/// The numbers with a body that are not cited, ascending.
fn unused(notes: &BTreeMap<u32, &str>, cited: &Vec<u32>) -> (r: Vec<u32>)
    ensures
        lists(r@, notes@.dom().filter(|n: u32| !cited@.contains(n))),
{
    broadcast use vstd::std_specs::btree::group_btree_axioms;

    let mut r: Vec<u32> = Vec::new();
    for kv in it: notes.iter()
        invariant
            vstd::std_specs::btree::increasing_seq(
                it.seq().map_values(|kv: (&u32, &&str)| *kv.0),
            ),
            forall|i: int, j: int| 0 <= i < j < r@.len() ==> r@[i] < r@[j],
            forall|i: int, k: int|
                0 <= i < r@.len() && it.index() <= k < it.seq().len() ==> r@[i] < *(
                #[trigger] it.seq()[k]).0 && (#[trigger] r@[i]) == r@[i],
            forall|n: u32|
                #[trigger] r@.contains(n) <==> !cited@.contains(n) && exists|k: int|
                    0 <= k < it.index() && *(#[trigger] it.seq()[k]).0 == n,
    {
        let ghost before = r@;
        let n: u32 = *kv.0;
        let ghost keys = it.seq().map_values(|kv: (&u32, &&str)| *kv.0);
        assert(keys[it.index() as int] == n);
        assert forall|k: int| it.index() < k < it.seq().len() implies n < *(
        #[trigger] it.seq()[k]).0 by {
            assert(keys[k] == *it.seq()[k].0);
            lemma_increasing(keys, it.index() as int, k);
        }
        if !contains_id(cited, n) {
            r.push(n);
            assert(r@[r@.len() - 1] == n);
            assert forall|m: u32| #[trigger] r@.contains(m) <==> before.contains(m) || m == n by {
                if before.contains(m) {
                    let k = choose|k: int| 0 <= k < before.len() && before[k] == m;
                    assert(r@[k] == m);
                }
            }
        }
    }
    r
}

/// What [`inject_footnotes`] does to the parts of a package, as `after` shows.
pub open spec fn notes_injected(
    before: Parts,
    bodies: Map<u32, &str>,
    after: Parts,
    res: Result<InjectionReport, Error>,
) -> bool {
    match part(before, PART_DOCUMENT@) {
        None => {
            &&& res is Ok
            &&& res->Ok_0.inserted == 0
            &&& res->Ok_0.unknown_ids@.len() == 0
            &&& lists(res->Ok_0.unused_ids@, bodies.dom())
            &&& after == before
        },
        Some(doc) => {
            let s = inject_state(xml_events(doc), bodies.dom());
            &&& is_read(doc)
            &&& if xml_readable(doc) {
                &&& res is Ok
                &&& res->Ok_0.inserted == capped(s.inserted as int)
                &&& res->Ok_0.unknown_ids@.len() == 0
                &&& lists(
                    res->Ok_0.unused_ids@,
                    bodies.dom().filter(|n: u32| !s.seen.contains(n)),
                )
                &&& after == (if s.inserted > 0 {
                    with_notes(with_part(before, PART_DOCUMENT@, s.out), bodies, s.seen)
                } else {
                    before
                })
            } else {
                res is Err && res->Err_0.is_xml_parse(PART_DOCUMENT@) && after == before
            }
        },
    }
}

/// Turns the markers of the main document that cite the given notes into references,
/// and adds the notes to the footnotes part. Other markers stay in the text.
pub fn inject_footnotes(pkg: &mut Package, notes: &BTreeMap<u32, &str>) -> (res: Result<
    InjectionReport,
    Error,
>)
    ensures
        final(pkg).source_view() == old(pkg).source_view(),
        notes_injected(old(pkg)@, notes@, final(pkg)@, res),
{
    let (out, seen, inserted) = match pkg.get_part(PART_DOCUMENT) {
        None => {
            let none: Vec<u32> = Vec::new();
            let all = unused(notes, &none);
            assert(notes@.dom().filter(|n: u32| !none@.contains(n)) =~= notes@.dom());
            return Ok(InjectionReport { inserted: 0, unknown_ids: Vec::new(), unused_ids: all });
        },
        Some(doc) => {
            let events = parse_events(doc, PART_DOCUMENT)?;
            rewrite_document(&events, notes)
        },
    };
    if inserted > 0 {
        pkg.set_part(PART_DOCUMENT, out);
        ensure_footnotes_part(pkg, notes, &seen);
    }
    let unused_ids = unused(notes, &seen);
    Ok(InjectionReport { inserted, unknown_ids: Vec::new(), unused_ids })
}

// ---------------------------------------------------------------------------
// Laws
// ---------------------------------------------------------------------------

/// Every marker stands in the text between brackets, cites a known note, and ends before
/// the next one starts.
pub proof fn law_markers_cite_known_notes(text: Seq<u8>, known: Set<u32>, from: int)
    requires
        0 <= from,
        text.len() <= usize::MAX,
    ensures
        ({
            let ms = markers(text, known, from);
            &&& forall|i: int|
                0 <= i < ms.len() ==> from <= (#[trigger] ms[i]).start < ms[i].end <= text.len()
                    && text[ms[i].start as int] == 0x5b && text[ms[i].end - 1] == 0x5d
                    && known.contains(ms[i].number)
            &&& in_order(ms, text.len() as int)
        }),
    decreases text.len() - from,
{
    if from < text.len() {
        match marker_at(text, known, from) {
            Some(n) => {
                let end = marker_end(text, from);
                law_markers_cite_known_notes(text, known, end);
                let rest = markers(text, known, end);
                let ms = markers(text, known, from);
                assert forall|i: int| 0 <= i < ms.len() implies from <= (#[trigger] ms[i]).start
                    < ms[i].end <= text.len() && text[ms[i].start as int] == 0x5b && text[ms[i].end
                    - 1] == 0x5d && known.contains(ms[i].number) by {
                    if i > 0 {
                        assert(ms[i] == rest[i - 1]);
                    }
                }
                assert forall|i: int, j: int| 0 <= i < j < ms.len() implies (#[trigger] ms[i]).end
                    <= (#[trigger] ms[j]).start by {
                    assert(ms[j] == rest[j - 1]);
                    if i > 0 {
                        assert(ms[i] == rest[i - 1]);
                    }
                }
            },
            None => {
                law_markers_cite_known_notes(text, known, from + 1);
            },
        }
    }
}

/// The pieces of text before the first `n` markers, each with its marker behind it.
pub open spec fn rejoined(text: Seq<u8>, ms: Seq<Marker>, n: int) -> Seq<u8>
    decreases n,
{
    if n <= 0 {
        Seq::empty()
    } else {
        rejoined(text, ms, n - 1) + text.subrange(
            after_markers(ms, n - 1),
            ms[n - 1].start as int,
        ) + text.subrange(ms[n - 1].start as int, ms[n - 1].end as int)
    }
}

/// Splitting a text at its markers loses nothing but the markers.
pub proof fn law_split_loses_only_markers(text: Seq<u8>, ms: Seq<Marker>, n: int)
    requires
        in_order(ms, text.len() as int),
        0 <= n <= ms.len(),
    ensures
        rejoined(text, ms, n) + text.skip(after_markers(ms, n)) == text,
        0 <= after_markers(ms, n) <= text.len(),
    decreases n,
{
    if n > 0 {
        law_split_loses_only_markers(text, ms, n - 1);
        let m = ms[n - 1];
        if n > 1 {
            assert(ms[n - 2].end <= ms[n - 1].start);
        }
        let a = after_markers(ms, n - 1);
        assert(text.skip(a) =~= text.subrange(a, m.start as int) + text.subrange(
            m.start as int,
            m.end as int,
        ) + text.skip(m.end as int));
        assert(rejoined(text, ms, n) + text.skip(m.end as int) =~= text);
    } else {
        assert(rejoined(text, ms, 0) + text.skip(0) =~= text);
    }
}

/// The events of a clone of a run with a piece of its text.
pub open spec fn clone_events(run: Ev, t: Ev, text: Seq<u8>) -> Seq<Ev> {
    seq![
        run,
        text_tag(t, text),
        Ev { kind: EventKind::Text, raw: text },
        tag(EventKind::End, "w:t"),
        tag(EventKind::End, "w:r"),
    ]
}

/// The events of a run that refers to a note.
pub open spec fn reference_events(number: u32) -> Seq<Ev> {
    seq![
        tag(EventKind::Start, "w:r"),
        tag(EventKind::Start, "w:rPr"),
        tag(EventKind::Empty, "w:rStyle w:val=\"FootnoteReference\""),
        tag(EventKind::End, "w:rPr"),
        Ev {
            kind: EventKind::Empty,
            raw: lit("w:footnoteReference w:id=\"") + encode_utf8(decimal(number as nat)) + lit(
                "\"",
            ),
        },
        tag(EventKind::End, "w:r"),
    ]
}

/// The events of the runs that stand for the text up to the end of the `n`-th marker.
pub open spec fn split_events_upto(
    run: Ev,
    t: Ev,
    text: Seq<u8>,
    ms: Seq<Marker>,
    n: int,
) -> Seq<Ev>
    decreases n,
{
    if n <= 0 {
        Seq::empty()
    } else {
        split_events_upto(run, t, text, ms, n - 1) + piece_events(
            run,
            t,
            text.subrange(after_markers(ms, n - 1), ms[n - 1].start as int),
        ) + reference_events(ms[n - 1].number)
    }
}

/// The events of a clone for a piece of text, if there is any.
pub open spec fn piece_events(run: Ev, t: Ev, text: Seq<u8>) -> Seq<Ev> {
    if text.len() == 0 {
        Seq::empty()
    } else {
        clone_events(run, t, text)
    }
}

/// The events of the runs that a run with markers is split into.
pub open spec fn split_events(run: Ev, t: Ev, text: Seq<u8>, ms: Seq<Marker>) -> Seq<Ev> {
    split_events_upto(run, t, text, ms, ms.len() as int) + piece_events(
        run,
        t,
        text.skip(after_markers(ms, ms.len() as int)),
    )
}

/// What a piece of text says.
pub open spec fn piece_text(text: Seq<u8>) -> Seq<char> {
    if text.len() == 0 {
        Seq::empty()
    } else {
        event_text(Ev { kind: EventKind::Text, raw: text })
    }
}

/// What the pieces of text before the first `n` markers say.
pub open spec fn pieces_upto(text: Seq<u8>, ms: Seq<Marker>, n: int) -> Seq<char>
    decreases n,
{
    if n <= 0 {
        Seq::empty()
    } else {
        pieces_upto(text, ms, n - 1) + piece_text(
            text.subrange(after_markers(ms, n - 1), ms[n - 1].start as int),
        )
    }
}

/// What the pieces of a text between its markers say.
pub open spec fn pieces_text(text: Seq<u8>, ms: Seq<Marker>) -> Seq<char> {
    pieces_upto(text, ms, ms.len() as int) + piece_text(
        text.skip(after_markers(ms, ms.len() as int)),
    )
}

/// The names that reading a split run tells apart.
pub proof fn lemma_reading_names()
    ensures
        lit("w:r") != lit("w:p"),
        lit("w:r") != lit("w:pPr"),
        lit("w:r") != lit("w:t"),
        lit("w:t") != lit("w:p"),
        lit("w:t") != lit("w:pPr"),
        lit("w:rPr") != lit("w:p"),
        lit("w:rPr") != lit("w:pPr"),
        lit("w:rPr") != lit("w:t"),
        tag_name(tag(EventKind::Start, "w:r")) == lit("w:r"),
        tag_name(tag(EventKind::Start, "w:rPr")) == lit("w:rPr"),
{
    reveal_strlit("w:p");
    reveal_strlit("w:r");
    reveal_strlit("w:t");
    reveal_strlit("w:pPr");
    reveal_strlit("w:rPr");
    is_ascii_chars_encode_utf8("w:p"@);
    is_ascii_chars_encode_utf8("w:r"@);
    is_ascii_chars_encode_utf8("w:t"@);
    is_ascii_chars_encode_utf8("w:pPr"@);
    is_ascii_chars_encode_utf8("w:rPr"@);
    assert(lit("w:r")[2] != lit("w:p")[2]);
    assert(lit("w:r")[2] != lit("w:t")[2]);
    assert(lit("w:t")[2] != lit("w:p")[2]);
    assert(lit("w:r").len() != lit("w:pPr").len());
    assert(lit("w:t").len() != lit("w:pPr").len());
    assert(lit("w:rPr")[2] != lit("w:pPr")[2]);
    assert(lit("w:rPr").len() != lit("w:p").len());
    reveal_with_fuel(name_end, 7);
    assert(lit("w:r").take(3) =~= lit("w:r"));
    assert(lit("w:rPr").take(5) =~= lit("w:rPr"));
}

proof fn lemma_style_and_reference(number: u32)
    ensures
        ({
            let style = reference_events(number)[2];
            let reference = reference_events(number)[4];
            &&& tag_name(style) != lit("w:tab") && tag_name(style) != lit("w:br")
            &&& tag_name(reference) != lit("w:tab") && tag_name(reference) != lit("w:br")
        }),
{
    let style = lit("w:rStyle w:val=\"FootnoteReference\"");
    let name = lit("w:footnoteReference w:id=\"");
    reveal_strlit("w:rStyle w:val=\"FootnoteReference\"");
    reveal_strlit("w:footnoteReference w:id=\"");
    reveal_strlit("w:tab");
    reveal_strlit("w:br");
    is_ascii_chars_encode_utf8("w:rStyle w:val=\"FootnoteReference\""@);
    is_ascii_chars_encode_utf8("w:footnoteReference w:id=\""@);
    is_ascii_chars_encode_utf8("w:tab"@);
    is_ascii_chars_encode_utf8("w:br"@);
    let reference = reference_events(number)[4];
    lemma_name_end(style, 0);
    lemma_name_end(reference.raw, 0);
    reveal_with_fuel(name_end, 5);
    assert(reference.raw[2] == name[2]);
    assert(reference.raw[0] == name[0] && reference.raw[1] == name[1] && reference.raw[3]
        == name[3]);
    assert(name_end(style, 0) == name_end(style, 4));
    assert(name_end(reference.raw, 0) == name_end(reference.raw, 4));
    lemma_name_end(style, 4);
    lemma_name_end(reference.raw, 4);
    assert(tag_name(reference_events(number)[2])[2] == style[2]);
    assert(tag_name(reference)[2] == name[2]);
}

proof fn lemma_text_name(raw: Seq<u8>, rest: Seq<u8>, from: int)
    requires
        0 <= from <= raw.len(),
        rest.len() > 0,
        is_xml_space(rest[0]),
    ensures
        name_end(raw + rest, from) == name_end(raw, from),
    decreases raw.len() - from,
{
    let all = raw + rest;
    if from < raw.len() {
        assert(all[from] == raw[from]);
        if !is_xml_space(raw[from]) {
            lemma_text_name(raw, rest, from + 1);
        }
    } else {
        assert(all[from] == rest[0]);
    }
}

/// The start tag of a piece is one of a text.
pub proof fn lemma_text_tag(t: Ev, text: Seq<u8>)
    requires
        is_start(t, "w:t"),
    ensures
        is_start(text_tag(t, text), "w:t"),
{
    reveal_strlit(" ");
    is_ascii_chars_encode_utf8(" "@);
    let more = attr_bytes(lit("xml:space"), lit("preserve"));
    assert(more[0] == 0x20);
    lemma_text_name(t.raw, more, 0);
    lemma_name_end(t.raw, 0);
    assert((t.raw + more).take(name_end(t.raw, 0)) =~= t.raw.take(name_end(t.raw, 0)));
}

proof fn lemma_reading_push(events: Seq<Ev>, e: Ev)
    ensures
        texts_state(events.push(e)) == texts_step(texts_state(events), e),
{
    assert(events.push(e).drop_last() =~= events);
}

/// A reading that stands in a paragraph, between its texts.
pub open spec fn is_between_texts(s: TextsView) -> bool {
    s.depth >= 1 && s.ppr_depth < 1 && s.runs >= 0 && !s.in_text
}

proof fn lemma_clone_read(before: Seq<Ev>, run: Ev, t: Ev, text: Seq<u8>)
    requires
        is_between_texts(texts_state(before)),
        is_start(run, "w:r"),
        is_start(t, "w:t"),
    ensures
        texts_state(before + piece_events(run, t, text)) == (TextsView {
            current: texts_state(before).current + piece_text(text),
            ..texts_state(before)
        }),
{
    let s = texts_state(before);
    if text.len() == 0 {
        assert(before + piece_events(run, t, text) =~= before);
        assert(s.current + Seq::<char>::empty() =~= s.current);
    } else {
        lemma_reading_names();
        lemma_text_tag(t, text);
        let es = clone_events(run, t, text);
        let a = before.push(es[0]);
        let b = a.push(es[1]);
        let c = b.push(es[2]);
        let d = c.push(es[3]);
        lemma_reading_push(before, es[0]);
        lemma_reading_push(a, es[1]);
        lemma_reading_push(b, es[2]);
        lemma_reading_push(c, es[3]);
        lemma_reading_push(d, es[4]);
        assert(before + es =~= d.push(es[4]));
    }
}

proof fn lemma_reference_read(before: Seq<Ev>, number: u32)
    requires
        is_between_texts(texts_state(before)),
    ensures
        texts_state(before + reference_events(number)) == texts_state(before),
{
    lemma_reading_names();
    lemma_style_and_reference(number);
    let es = reference_events(number);
    let a = before.push(es[0]);
    let b = a.push(es[1]);
    let c = b.push(es[2]);
    let d = c.push(es[3]);
    let f = d.push(es[4]);
    lemma_reading_push(before, es[0]);
    lemma_reading_push(a, es[1]);
    lemma_reading_push(b, es[2]);
    lemma_reading_push(c, es[3]);
    lemma_reading_push(d, es[4]);
    lemma_reading_push(f, es[5]);
    assert(before + es =~= f.push(es[5]));
}

proof fn lemma_split_read(
    before: Seq<Ev>,
    run: Ev,
    t: Ev,
    text: Seq<u8>,
    ms: Seq<Marker>,
    n: int,
)
    requires
        is_between_texts(texts_state(before)),
        is_start(run, "w:r"),
        is_start(t, "w:t"),
        0 <= n <= ms.len(),
    ensures
        texts_state(before + split_events_upto(run, t, text, ms, n)) == (TextsView {
            current: texts_state(before).current + pieces_upto(text, ms, n),
            ..texts_state(before)
        }),
    decreases n,
{
    let s = texts_state(before);
    if n == 0 {
        assert(before + Seq::<Ev>::empty() =~= before);
        assert(s.current + Seq::<char>::empty() =~= s.current);
    } else {
        lemma_split_read(before, run, t, text, ms, n - 1);
        let so_far = before + split_events_upto(run, t, text, ms, n - 1);
        let here = text.subrange(after_markers(ms, n - 1), ms[n - 1].start as int);
        lemma_clone_read(so_far, run, t, here);
        lemma_reference_read(so_far + piece_events(run, t, here), ms[n - 1].number);
        assert(before + split_events_upto(run, t, text, ms, n) =~= so_far + piece_events(
            run,
            t,
            here,
        ) + reference_events(ms[n - 1].number));
        assert(s.current + pieces_upto(text, ms, n) =~= s.current + pieces_upto(text, ms, n - 1)
            + piece_text(here));
    }
}

/// The runs that a run with markers is split into say what stands between the markers: an
/// extraction that comes to them in a paragraph takes up the pieces in their order, and
/// nothing for a reference.
pub proof fn law_split_run_says_its_pieces(
    before: Seq<Ev>,
    run: Ev,
    t: Ev,
    text: Seq<u8>,
    ms: Seq<Marker>,
)
    requires
        is_between_texts(texts_state(before)),
        is_start(run, "w:r"),
        is_start(t, "w:t"),
    ensures
        texts_state(before + split_events(run, t, text, ms)) == (TextsView {
            current: texts_state(before).current + pieces_text(text, ms),
            ..texts_state(before)
        }),
{
    let n = ms.len() as int;
    lemma_split_read(before, run, t, text, ms, n);
    let so_far = before + split_events_upto(run, t, text, ms, n);
    let rest = text.skip(after_markers(ms, n));
    lemma_clone_read(so_far, run, t, rest);
    assert(before + split_events(run, t, text, ms) =~= so_far + piece_events(run, t, rest));
    assert(texts_state(before).current + pieces_text(text, ms) =~= texts_state(before).current
        + pieces_upto(text, ms, n) + piece_text(rest));
}

proof fn lemma_reference_bytes(number: u32)
    ensures
        emitted_all(reference_events(number)) == reference_run(number),
{
    let es = reference_events(number);
    let id = encode_utf8(decimal(number as nat));
    reveal_strlit("<");
    reveal_strlit("</");
    reveal_strlit(">");
    reveal_strlit("/>");
    reveal_strlit("\"");
    reveal_strlit("w:r");
    reveal_strlit("w:rPr");
    reveal_strlit("w:rStyle w:val=\"FootnoteReference\"");
    reveal_strlit("w:footnoteReference w:id=\"");
    reveal_strlit(
        "<w:r><w:rPr><w:rStyle w:val=\"FootnoteReference\"/></w:rPr><w:footnoteReference w:id=\"",
    );
    reveal_strlit("\"/></w:r>");
    is_ascii_chars_encode_utf8("<"@);
    is_ascii_chars_encode_utf8("</"@);
    is_ascii_chars_encode_utf8(">"@);
    is_ascii_chars_encode_utf8("/>"@);
    is_ascii_chars_encode_utf8("\""@);
    is_ascii_chars_encode_utf8("w:r"@);
    is_ascii_chars_encode_utf8("w:rPr"@);
    is_ascii_chars_encode_utf8("w:rStyle w:val=\"FootnoteReference\""@);
    is_ascii_chars_encode_utf8("w:footnoteReference w:id=\""@);
    is_ascii_chars_encode_utf8(
        "<w:r><w:rPr><w:rStyle w:val=\"FootnoteReference\"/></w:rPr><w:footnoteReference w:id=\""@,
    );
    is_ascii_chars_encode_utf8("\"/></w:r>"@);
    lemma_six_events(es);
    let open = emitted(es[0]) + emitted(es[1]) + emitted(es[2]) + emitted(es[3]) + lit("<") + lit(
        "w:footnoteReference w:id=\"",
    );
    let close = lit("\"") + lit("/>") + emitted(es[5]);
    assert(open =~= lit(
        "<w:r><w:rPr><w:rStyle w:val=\"FootnoteReference\"/></w:rPr><w:footnoteReference w:id=\"",
    ));
    assert(close =~= lit("\"/></w:r>"));
    assert(emitted_all(es) =~= open + id + close);
}

proof fn lemma_six_events(es: Seq<Ev>)
    requires
        es.len() == 6,
    ensures
        emitted_all(es) == emitted(es[0]) + emitted(es[1]) + emitted(es[2]) + emitted(es[3])
            + emitted(es[4]) + emitted(es[5]),
{
    lemma_emitted_push(es.take(5), es[5]);
    assert(es.take(5).push(es[5]) =~= es);
    lemma_five_events(es.take(5));
}

proof fn lemma_five_events(es: Seq<Ev>)
    requires
        es.len() == 5,
    ensures
        emitted_all(es) == emitted(es[0]) + emitted(es[1]) + emitted(es[2]) + emitted(es[3])
            + emitted(es[4]),
{
    let none = Seq::<Ev>::empty();
    lemma_emitted_push(none, es[0]);
    assert(none.push(es[0]) =~= es.take(1));
    lemma_emitted_push(es.take(1), es[1]);
    assert(es.take(1).push(es[1]) =~= es.take(2));
    lemma_emitted_push(es.take(2), es[2]);
    assert(es.take(2).push(es[2]) =~= es.take(3));
    lemma_emitted_push(es.take(3), es[3]);
    assert(es.take(3).push(es[3]) =~= es.take(4));
    lemma_emitted_push(es.take(4), es[4]);
    assert(es.take(4).push(es[4]) =~= es);
    assert(emitted_all(none) + emitted(es[0]) =~= emitted(es[0]));
}

proof fn lemma_clone_bytes(run: Ev, t: Ev, text: Seq<u8>)
    requires
        run.kind == EventKind::Start,
        valid_utf8(text),
    ensures
        emitted_all(piece_events(run, t, text)) == piece(run, t, text),
{
    if text.len() > 0 {
        let es = clone_events(run, t, text);
        reveal_strlit("</");
        reveal_strlit(">");
        reveal_strlit("w:r");
        reveal_strlit("w:t");
        reveal_strlit("</w:t></w:r>");
        is_ascii_chars_encode_utf8("</"@);
        is_ascii_chars_encode_utf8(">"@);
        is_ascii_chars_encode_utf8("w:r"@);
        is_ascii_chars_encode_utf8("w:t"@);
        is_ascii_chars_encode_utf8("</w:t></w:r>"@);
        lemma_five_events(es);
        assert(emitted(es[3]) + emitted(es[4]) =~= lit("</w:t></w:r>"));
        assert(emitted_all(es) =~= clone_run(run, t, text));
    }
}

/// Every piece of a text between its markers is UTF-8.
pub open spec fn pieces_are_utf8(text: Seq<u8>, ms: Seq<Marker>) -> bool {
    &&& forall|k: int|
        0 <= k < ms.len() ==> valid_utf8(
            text.subrange(after_markers(ms, k), (#[trigger] ms[k]).start as int),
        )
    &&& valid_utf8(text.skip(after_markers(ms, ms.len() as int)))
}

proof fn lemma_split_bytes(run: Ev, t: Ev, text: Seq<u8>, ms: Seq<Marker>, n: int)
    requires
        run.kind == EventKind::Start,
        pieces_are_utf8(text, ms),
        0 <= n <= ms.len(),
    ensures
        emitted_all(split_events_upto(run, t, text, ms, n)) == split_upto(run, t, text, ms, n),
    decreases n,
{
    if n > 0 {
        lemma_split_bytes(run, t, text, ms, n - 1);
        let so_far = split_events_upto(run, t, text, ms, n - 1);
        let m = ms[n - 1];
        let here = text.subrange(after_markers(ms, n - 1), m.start as int);
        lemma_clone_bytes(run, t, here);
        lemma_reference_bytes(m.number);
        lemma_emitted_concat(so_far, piece_events(run, t, here));
        lemma_emitted_concat(so_far + piece_events(run, t, here), reference_events(m.number));
    }
}

/// What a run with markers is replaced by is written as these events, where its text is
/// UTF-8.
pub proof fn law_split_run_is_written(run: Ev, t: Ev, text: Seq<u8>, ms: Seq<Marker>)
    requires
        run.kind == EventKind::Start,
        pieces_are_utf8(text, ms),
    ensures
        emitted_all(split_events(run, t, text, ms)) == split_run(run, t, text, ms),
{
    let n = ms.len() as int;
    let rest = text.skip(after_markers(ms, n));
    lemma_split_bytes(run, t, text, ms, n);
    lemma_clone_bytes(run, t, rest);
    lemma_emitted_concat(split_events_upto(run, t, text, ms, n), piece_events(run, t, rest));
}

} // verus!
