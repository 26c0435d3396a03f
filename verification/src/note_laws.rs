//! What the notes of an injection say, and which markers cite them.

use vstd::prelude::*;
use vstd::utf8::{encode_utf8, is_ascii_chars_encode_utf8, valid_utf8};

use crate::bytes::{first_match, lemma_first_match, lit};
use crate::error::Error;
use crate::note_injection::{
    after_markers, inject_state, inject_step, marker_at, marker_end, markers, minimally_escaped,
    note_entries, note_entry, notes_injected, piece, reference_run, run_markers, split_run,
    split_upto, with_cited, with_entries, with_notes, with_notes_relationship, with_notes_type,
    InjectView, InjectionReport, Marker, NOTES_HEAD,
};
use crate::notes_kind::{lemma_part_names, lemma_with_mapped, with_mapped};
use crate::ns::{
    CT_FOOTNOTES, PART_CONTENT_TYPES, PART_DOCUMENT, PART_DOCUMENT_RELS, PART_FOOTNOTES,
    REL_TYPE_FOOTNOTES,
};
use crate::package::{lemma_with_part, part, with_part, Parts};
use crate::rels::{digits_at, inserted_before_last, last_match, lemma_last_match, occurs};
use crate::text::{all_digits, decimal, digits_value, is_digit, unsigned_digits};
use crate::xml::{emitted, emitted_all, is_end, is_start, xml_events, Ev};

verus! {

// ---------------------------------------------------------------------------
// Escaped text
// ---------------------------------------------------------------------------

/// `&lt;`, `&gt;` and `&amp;`.
pub open spec fn entity(c: u8) -> Seq<u8> {
    if c == 0x3c {
        seq![0x26u8, 0x6cu8, 0x74u8, 0x3bu8]
    } else if c == 0x3e {
        seq![0x26u8, 0x67u8, 0x74u8, 0x3bu8]
    } else {
        seq![0x26u8, 0x61u8, 0x6du8, 0x70u8, 0x3bu8]
    }
}

/// What a reader of XML makes of a text: each of the three entities stands for its character.
pub open spec fn entities_read(b: Seq<u8>) -> Seq<u8>
    decreases b.len(),
{
    if b.len() == 0 {
        Seq::empty()
    } else if entity(0x3c).is_prefix_of(b) {
        seq![0x3cu8] + entities_read(b.skip(4))
    } else if entity(0x3e).is_prefix_of(b) {
        seq![0x3eu8] + entities_read(b.skip(4))
    } else if entity(0x26).is_prefix_of(b) {
        seq![0x26u8] + entities_read(b.skip(5))
    } else {
        seq![b[0]] + entities_read(b.skip(1))
    }
}

/// A text that XML takes: no tag starts in it, and every ampersand starts an entity.
pub open spec fn is_clean(b: Seq<u8>) -> bool {
    forall|i: int|
        #![trigger b[i]]
        0 <= i < b.len() ==> b[i] != 0x3c && (b[i] == 0x26 ==> entity(0x3c).is_prefix_of(b.skip(i))
            || entity(0x3e).is_prefix_of(b.skip(i)) || entity(0x26).is_prefix_of(b.skip(i)))
}

proof fn lemma_entities()
    ensures
        lit("&lt;") == entity(0x3c),
        lit("&gt;") == entity(0x3e),
        lit("&amp;") == entity(0x26),
{
    reveal_strlit("&lt;");
    reveal_strlit("&gt;");
    reveal_strlit("&amp;");
    is_ascii_chars_encode_utf8("&lt;"@);
    is_ascii_chars_encode_utf8("&gt;"@);
    is_ascii_chars_encode_utf8("&amp;"@);
    assert(lit("&lt;") =~= entity(0x3c));
    assert(lit("&gt;") =~= entity(0x3e));
    assert(lit("&amp;") =~= entity(0x26));
}

proof fn lemma_escaped_front(c: u8, b: Seq<u8>)
    ensures
        minimally_escaped(seq![c] + b) == minimally_escaped(seq![c]) + minimally_escaped(b),
    decreases b.len(),
{
    let all = seq![c] + b;
    if b.len() == 0 {
        assert(all =~= seq![c]);
    } else {
        lemma_escaped_front(c, b.drop_last());
        assert(all.drop_last() =~= seq![c] + b.drop_last());
        assert(all.last() == b.last());
    }
}

proof fn lemma_escaped_byte(c: u8)
    ensures
        minimally_escaped(seq![c]) == if c == 0x3c || c == 0x3e || c == 0x26 {
            entity(c)
        } else {
            seq![c]
        },
{
    lemma_entities();
    assert(seq![c].drop_last() =~= Seq::empty());
    assert(seq![c].last() == c);
    reveal_with_fuel(minimally_escaped, 2);
    let r = if c == 0x3c || c == 0x3e || c == 0x26 {
        entity(c)
    } else {
        seq![c]
    };
    assert(Seq::<u8>::empty() + r =~= r);
}

proof fn lemma_prefix_of_sum(p: Seq<u8>, a: Seq<u8>, b: Seq<u8>)
    requires
        p.is_prefix_of(a),
    ensures
        p.is_prefix_of(a + b),
{
    assert((a + b).take(p.len() as int) =~= a.take(p.len() as int));
}

/// A byte as it stands in escaped text.
spec fn written_byte(c: u8) -> Seq<u8> {
    if c == 0x3c || c == 0x3e || c == 0x26 {
        entity(c)
    } else {
        seq![c]
    }
}

proof fn lemma_read_entity(c: u8, y: Seq<u8>)
    requires
        c == 0x3c || c == 0x3e || c == 0x26,
    ensures
        entities_read(entity(c) + y) == seq![c] + entities_read(y),
{
    let all = entity(c) + y;
    assert(all.take(entity(c).len() as int) =~= entity(c));
    assert(entity(c).is_prefix_of(all));
    assert(all.skip(entity(c).len() as int) =~= y);
    assert(all[1] == entity(c)[1]);
    if entity(0x3c).is_prefix_of(all) {
        assert(all.take(4)[1] == all[1]);
    }
    if entity(0x3e).is_prefix_of(all) {
        assert(all.take(4)[1] == all[1]);
    }
}

proof fn lemma_read_byte(c: u8, y: Seq<u8>)
    requires
        c != 0x26,
    ensures
        entities_read(seq![c] + y) == seq![c] + entities_read(y),
{
    let all = seq![c] + y;
    assert(all[0] == c);
    assert(all.skip(1) =~= y);
    if entity(0x3c).is_prefix_of(all) {
        assert(all.take(4)[0] == all[0]);
    }
    if entity(0x3e).is_prefix_of(all) {
        assert(all.take(4)[0] == all[0]);
    }
    if entity(0x26).is_prefix_of(all) {
        assert(all.take(5)[0] == all[0]);
    }
}

proof fn lemma_clean_step(c: u8, y: Seq<u8>)
    requires
        is_clean(y),
    ensures
        is_clean(written_byte(c) + y),
{
    let x = written_byte(c);
    let all = x + y;
    assert forall|i: int| #![trigger all[i]] 0 <= i < all.len() implies all[i] != 0x3c && (all[i]
        == 0x26 ==> entity(0x3c).is_prefix_of(all.skip(i)) || entity(0x3e).is_prefix_of(all.skip(i))
        || entity(0x26).is_prefix_of(all.skip(i))) by {
        if i >= x.len() {
            assert(all[i] == y[i - x.len()]);
            assert(all.skip(i) =~= y.skip(i - x.len()));
        } else {
            assert(all[i] == x[i]);
            if i == 0 {
                assert(all.skip(0) =~= all);
                assert(all.take(x.len() as int) =~= x);
            }
        }
    }
}

/// A reader of an escaped text reads the text, and the escaped text holds nothing that XML
/// does not take.
pub proof fn law_escaped_text_is_read_back(b: Seq<u8>)
    ensures
        entities_read(minimally_escaped(b)) == b,
        is_clean(minimally_escaped(b)),
    decreases b.len(),
{
    if b.len() > 0 {
        let c = b[0];
        let rest = b.skip(1);
        assert(seq![c] + rest =~= b);
        law_escaped_text_is_read_back(rest);
        lemma_escaped_front(c, rest);
        lemma_escaped_byte(c);
        let y = minimally_escaped(rest);
        lemma_clean_step(c, y);
        if c == 0x3c || c == 0x3e || c == 0x26 {
            lemma_read_entity(c, y);
        } else {
            lemma_read_byte(c, y);
        }
    } else {
        assert(b =~= Seq::empty());
    }
}

// ---------------------------------------------------------------------------
// Written notes
// ---------------------------------------------------------------------------

/// `piece` stands somewhere in `data`.
pub open spec fn stands_in(piece: Seq<u8>, data: Seq<u8>) -> bool {
    exists|a: int| 0 <= a <= data.len() && piece.is_prefix_of(#[trigger] data.skip(a))
}

/// A note with its number, the mark of its number, and its text at the end.
pub open spec fn note_bytes(number: u32, mark: Seq<u8>, gap: Seq<u8>, text: Seq<u8>) -> Seq<u8> {
    lit("<w:footnote w:id=\"") + encode_utf8(decimal(number as nat)) + lit("\">") + mark + lit(
        "<w:footnoteRef/>",
    ) + gap + lit("<w:t xml:space=\"preserve\">") + text + lit("</w:t></w:r></w:p></w:footnote>")
}

/// The bytes are a note that says a body: what a reader makes of its text is the body.
pub open spec fn says_note(entry: Seq<u8>, number: u32, body: Seq<char>) -> bool {
    exists|mark: Seq<u8>, gap: Seq<u8>, text: Seq<u8>|
        #![trigger note_bytes(number, mark, gap, text)]
        entry == note_bytes(number, mark, gap, text) && is_clean(text) && entities_read(text)
            == encode_utf8(body)
}

pub proof fn lemma_stands_in(a: Seq<u8>, piece: Seq<u8>, b: Seq<u8>)
    ensures
        stands_in(piece, a + piece + b),
{
    let all = a + piece + b;
    assert(all.skip(a.len() as int) =~= piece + b);
    assert((piece + b).take(piece.len() as int) =~= piece);
    assert(piece.is_prefix_of(all.skip(a.len() as int)));
}

pub proof fn lemma_still_stands_in(piece: Seq<u8>, a: Seq<u8>, data: Seq<u8>, b: Seq<u8>)
    requires
        stands_in(piece, data),
    ensures
        stands_in(piece, a + data + b),
{
    let at = choose|at: int| 0 <= at <= data.len() && piece.is_prefix_of(#[trigger] data.skip(at));
    let all = a + data + b;
    assert(all.skip(a.len() + at) =~= data.skip(at) + b);
    lemma_prefix_of_sum(piece, data.skip(at), b);
    assert(piece.is_prefix_of(all.skip(a.len() + at)));
}

/// An entry is a note that says its body.
pub proof fn law_entry_says_its_body(number: u32, body: Seq<char>)
    ensures
        says_note(note_entry(number, body), number, body),
{
    let text = minimally_escaped(encode_utf8(body));
    law_escaped_text_is_read_back(encode_utf8(body));
    let mark = lit("<w:p><w:r><w:rPr><w:rStyle w:val=\"FootnoteReference\"/></w:rPr>");
    let gap = lit("</w:r><w:r><w:t xml:space=\"preserve\"> </w:t></w:r><w:r>");
    assert(lit(
        "<w:p><w:r><w:rPr><w:rStyle w:val=\"FootnoteReference\"/></w:rPr><w:footnoteRef/></w:r><w:r><w:t xml:space=\"preserve\"> </w:t></w:r><w:r><w:t xml:space=\"preserve\">",
    ) =~= mark + lit("<w:footnoteRef/>") + gap + lit("<w:t xml:space=\"preserve\">")) by {
        reveal_strlit(
            "<w:p><w:r><w:rPr><w:rStyle w:val=\"FootnoteReference\"/></w:rPr><w:footnoteRef/></w:r><w:r><w:t xml:space=\"preserve\"> </w:t></w:r><w:r><w:t xml:space=\"preserve\">",
        );
        reveal_strlit("<w:p><w:r><w:rPr><w:rStyle w:val=\"FootnoteReference\"/></w:rPr>");
        reveal_strlit("<w:footnoteRef/>");
        reveal_strlit("</w:r><w:r><w:t xml:space=\"preserve\"> </w:t></w:r><w:r>");
        reveal_strlit("<w:t xml:space=\"preserve\">");
        is_ascii_chars_encode_utf8(
            "<w:p><w:r><w:rPr><w:rStyle w:val=\"FootnoteReference\"/></w:rPr><w:footnoteRef/></w:r><w:r><w:t xml:space=\"preserve\"> </w:t></w:r><w:r><w:t xml:space=\"preserve\">"@,
        );
        is_ascii_chars_encode_utf8(
            "<w:p><w:r><w:rPr><w:rStyle w:val=\"FootnoteReference\"/></w:rPr>"@,
        );
        is_ascii_chars_encode_utf8("<w:footnoteRef/>"@);
        is_ascii_chars_encode_utf8("</w:r><w:r><w:t xml:space=\"preserve\"> </w:t></w:r><w:r>"@);
        is_ascii_chars_encode_utf8("<w:t xml:space=\"preserve\">"@);
    }
    assert(note_entry(number, body) =~= note_bytes(number, mark, gap, text));
}

proof fn lemma_entries_hold(bodies: Map<u32, &str>, cited: Seq<u32>, number: u32)
    requires
        cited.contains(number),
        bodies.contains_key(number),
    ensures
        stands_in(note_entry(number, bodies[number]@), note_entries(bodies, cited)),
    decreases cited.len(),
{
    let init = cited.drop_last();
    let before = note_entries(bodies, init);
    let entry = note_entry(number, bodies[number]@);
    let none = Seq::<u8>::empty();
    if cited.last() == number {
        lemma_stands_in(before, entry, none);
        assert(before + entry + none =~= note_entries(bodies, cited));
    } else {
        let k = choose|k: int| 0 <= k < cited.len() && cited[k] == number;
        assert(init[k] == number);
        lemma_entries_hold(bodies, init, number);
        let more = if bodies.contains_key(cited.last()) {
            note_entry(cited.last(), bodies[cited.last()]@)
        } else {
            none
        };
        lemma_still_stands_in(entry, none, before, more);
        assert(none + before + more =~= note_entries(bodies, cited));
    }
}

/// Every note that the report does not call unused stands in the footnotes part, and says its
/// body there.
pub proof fn law_cited_notes_say_their_bodies(
    before: Parts,
    bodies: Map<u32, &str>,
    after: Parts,
    report: Result<InjectionReport, Error>,
    number: u32,
)
    requires
        notes_injected(before, bodies, after, report),
        report is Ok,
        report->Ok_0.inserted > 0,
        bodies.contains_key(number),
        !report->Ok_0.unused_ids@.contains(number),
    ensures
        part(after, PART_FOOTNOTES@) is Some,
        exists|entry: Seq<u8>| #[trigger]
            says_note(entry, number, bodies[number]@) && stands_in(
                entry,
                part(after, PART_FOOTNOTES@)->0,
            ),
{
    let doc = part(before, PART_DOCUMENT@)->0;
    let s = inject_state(xml_events(doc), bodies.dom());
    let rest = bodies.dom().filter(|n: u32| !s.seen.contains(n));
    assert(!rest.contains(number));
    assert(s.seen.contains(number));
    let entries = note_entries(bodies, s.seen);
    let entry = note_entry(number, bodies[number]@);
    lemma_entries_hold(bodies, s.seen, number);
    law_entry_says_its_body(number, bodies[number]@);
    let p0 = with_part(before, PART_DOCUMENT@, s.out);
    let data = with_entries(part(p0, PART_FOOTNOTES@), entries);
    match part(p0, PART_FOOTNOTES@) {
        Some(old) if inserted_before_last(old, lit("</w:footnotes>"), entries) is Some => {
            lemma_last_match(old, lit("</w:footnotes>"), old.len() as int);
            let p = last_match(old, lit("</w:footnotes>"), old.len() as int)->0;
            lemma_still_stands_in(entry, old.take(p), entries, old.skip(p));
        },
        _ => {
            lemma_still_stands_in(entry, lit(NOTES_HEAD), entries, lit("</w:footnotes>"));
        },
    }
    lemma_part_names();
    lemma_notes_part(p0, bodies, s.seen);
}

/// What an injection makes of the four parts that it touches.
proof fn lemma_notes_part(parts: Parts, bodies: Map<u32, &str>, cited: Seq<u32>)
    ensures
        ({
            let after = with_notes(parts, bodies, cited);
            &&& part(after, PART_FOOTNOTES@) == Some(
                with_entries(part(parts, PART_FOOTNOTES@), note_entries(bodies, cited)),
            )
            &&& part(after, PART_CONTENT_TYPES@) == match part(parts, PART_CONTENT_TYPES@) {
                Some(d) => Some(with_notes_type(d)),
                None => None,
            }
            &&& part(after, PART_DOCUMENT_RELS@) == match part(parts, PART_DOCUMENT_RELS@) {
                Some(d) => Some(with_notes_relationship(d)),
                None => None,
            }
            &&& forall|other: Seq<char>|
                other != PART_FOOTNOTES@ && other != PART_CONTENT_TYPES@ && other
                    != PART_DOCUMENT_RELS@ ==> #[trigger] part(after, other) == part(parts, other)
        }),
{
    lemma_part_names();
    let types = |d: Seq<u8>| with_notes_type(d);
    let rels = |d: Seq<u8>| with_notes_relationship(d);
    let data = with_entries(part(parts, PART_FOOTNOTES@), note_entries(bodies, cited));
    let p1 = with_part(parts, PART_FOOTNOTES@, data);
    let p2 = with_mapped(p1, PART_CONTENT_TYPES@, types);
    lemma_with_part(parts, PART_FOOTNOTES@, data);
    lemma_with_mapped(p1, PART_CONTENT_TYPES@, types);
    lemma_with_mapped(p2, PART_DOCUMENT_RELS@, rels);
    assert(PART_CONTENT_TYPES@ != PART_DOCUMENT_RELS@) by {
        reveal_strlit("word/_rels/document.xml.rels");
        reveal_strlit("[Content_Types].xml");
        assert(PART_CONTENT_TYPES@[0] != PART_DOCUMENT_RELS@[0]);
    }
}

/// The footnotes that were there stay, all of them and in order: the new ones are put before
/// the last end tag of the part.
pub proof fn law_earlier_notes_stay(
    before: Parts,
    bodies: Map<u32, &str>,
    after: Parts,
    report: Result<InjectionReport, Error>,
    head: Seq<u8>,
    tail: Seq<u8>,
)
    requires
        notes_injected(before, bodies, after, report),
        report is Ok,
        part(before, PART_FOOTNOTES@) == Some(head + tail),
        lit("</w:footnotes>").is_prefix_of(tail),
        forall|q: int|
            head.len() < q <= (head + tail).len() ==> !lit("</w:footnotes>").is_prefix_of(
                #[trigger] (head + tail).skip(q),
            ),
    ensures
        exists|entries: Seq<u8>|
            part(after, PART_FOOTNOTES@) == Some(#[trigger] (head + entries) + tail),
{
    let none = Seq::<u8>::empty();
    assert((head + none) + tail =~= head + tail);
    assert(lit("</w:footnotes>").len() > 0) by {
        reveal_strlit("</w:footnotes>");
        is_ascii_chars_encode_utf8("</w:footnotes>"@);
    }
    if report->Ok_0.inserted > 0 {
        let entries = lemma_injected(before, bodies, after, report);
        lemma_put_before_last(head, lit("</w:footnotes>"), tail, entries);
        assert(part(after, PART_FOOTNOTES@) == Some((head + entries) + tail));
    } else {
        lemma_not_injected(before, bodies, after, report);
    }
}

/// What an injection that turned a marker into a reference makes of the parts.
proof fn lemma_injected(
    before: Parts,
    bodies: Map<u32, &str>,
    after: Parts,
    report: Result<InjectionReport, Error>,
) -> (entries: Seq<u8>)
    requires
        notes_injected(before, bodies, after, report),
        report is Ok,
        report->Ok_0.inserted > 0,
    ensures
        part(after, PART_FOOTNOTES@) == Some(with_entries(part(before, PART_FOOTNOTES@), entries)),
        part(after, PART_CONTENT_TYPES@) == match part(before, PART_CONTENT_TYPES@) {
            Some(d) => Some(with_notes_type(d)),
            None => None,
        },
        part(after, PART_DOCUMENT_RELS@) == match part(before, PART_DOCUMENT_RELS@) {
            Some(d) => Some(with_notes_relationship(d)),
            None => None,
        },
{
    let s = inject_state(xml_events(part(before, PART_DOCUMENT@)->0), bodies.dom());
    let p0 = with_part(before, PART_DOCUMENT@, s.out);
    lemma_part_names();
    lemma_with_part(before, PART_DOCUMENT@, s.out);
    lemma_notes_part(p0, bodies, s.seen);
    note_entries(bodies, s.seen)
}

proof fn lemma_not_injected(
    before: Parts,
    bodies: Map<u32, &str>,
    after: Parts,
    report: Result<InjectionReport, Error>,
)
    requires
        notes_injected(before, bodies, after, report),
        report is Ok,
        report->Ok_0.inserted == 0,
    ensures
        after == before,
{
}

proof fn lemma_put_before_last(head: Seq<u8>, closing: Seq<u8>, tail: Seq<u8>, more: Seq<u8>)
    requires
        closing.len() > 0,
        closing.is_prefix_of(tail),
        forall|q: int|
            head.len() < q <= (head + tail).len() ==> !closing.is_prefix_of(
                #[trigger] (head + tail).skip(q),
            ),
    ensures
        inserted_before_last(head + tail, closing, more) == Some((head + more) + tail),
{
    let old = head + tail;
    let p = head.len() as int;
    lemma_last_match(old, closing, old.len() as int);
    assert(old.subrange(p, p + closing.len()) =~= tail.take(closing.len() as int));
    assert(crate::bytes::matches_at(old, p, closing));
    if let Some(q) = last_match(old, closing, old.len() as int) {
        assert(old.skip(q).take(closing.len() as int) =~= old.subrange(q, q + closing.len()));
        assert(closing.is_prefix_of(old.skip(q)));
        assert(q == p);
    }
    assert(old.take(p) =~= head);
    assert(old.skip(p) =~= tail);
}

/// Parts other than the document, the footnotes and what makes them known stay as they were.
pub proof fn law_injection_leaves_other_parts(
    before: Parts,
    bodies: Map<u32, &str>,
    after: Parts,
    report: Result<InjectionReport, Error>,
    other: Seq<char>,
)
    requires
        notes_injected(before, bodies, after, report),
        other != PART_DOCUMENT@,
        other != PART_FOOTNOTES@,
        other != PART_CONTENT_TYPES@,
        other != PART_DOCUMENT_RELS@,
    ensures
        part(after, other) == part(before, other),
{
    if let Some(doc) = part(before, PART_DOCUMENT@) {
        let s = inject_state(xml_events(doc), bodies.dom());
        lemma_with_part(before, PART_DOCUMENT@, s.out);
        lemma_notes_part(with_part(before, PART_DOCUMENT@, s.out), bodies, s.seen);
    }
}

pub proof fn lemma_occurs(data: Seq<u8>, needle: Seq<u8>)
    requires
        occurs(data, needle),
    ensures
        stands_in(needle, data),
{
    lemma_first_match(data, needle, 0);
    let q = first_match(data, needle, 0)->0;
    assert(data.skip(q).take(needle.len() as int) =~= data.subrange(q, q + needle.len()));
    assert(needle.is_prefix_of(data.skip(q)));
}

/// The footnotes part is made known: where the content types and the relationships are text
/// and have an end to add before, they name it.
pub proof fn law_notes_are_known(
    before: Parts,
    bodies: Map<u32, &str>,
    after: Parts,
    report: Result<InjectionReport, Error>,
)
    requires
        notes_injected(before, bodies, after, report),
        report is Ok,
        report->Ok_0.inserted > 0,
    ensures
        ({
            let types = part(before, PART_CONTENT_TYPES@);
            let rels = part(before, PART_DOCUMENT_RELS@);
            &&& types is Some && valid_utf8(types->0) && occurs(types->0, lit("</Types>")) ==> {
                &&& part(after, PART_CONTENT_TYPES@) is Some
                &&& stands_in(lit("/word/footnotes.xml"), part(after, PART_CONTENT_TYPES@)->0)
            }
            &&& rels is Some && valid_utf8(rels->0) && occurs(rels->0, lit("</Relationships>"))
                ==> {
                &&& part(after, PART_DOCUMENT_RELS@) is Some
                &&& stands_in(lit("relationships/footnotes"), part(after, PART_DOCUMENT_RELS@)->0)
            }
        }),
{
    let entries = lemma_injected(before, bodies, after, report);
    if let Some(d) = part(before, PART_CONTENT_TYPES@) {
        if valid_utf8(d) && occurs(d, lit("</Types>")) {
            lemma_type_named(d);
        }
    }
    if let Some(d) = part(before, PART_DOCUMENT_RELS@) {
        if valid_utf8(d) && occurs(d, lit("</Relationships>")) {
            lemma_relationship_named(d);
        }
    }
}

proof fn lemma_type_named(d: Seq<u8>)
    requires
        valid_utf8(d),
        occurs(d, lit("</Types>")),
    ensures
        stands_in(lit("/word/footnotes.xml"), with_notes_type(d)),
{
    let name = lit("/word/footnotes.xml");
    if occurs(d, name) {
        lemma_occurs(d, name);
    } else {
        let head = lit("<Override PartName=\"/word/footnotes.xml\" ContentType=\"");
        assert(stands_in(name, head)) by {
            reveal_strlit("/word/footnotes.xml");
            reveal_strlit("<Override PartName=\"/word/footnotes.xml\" ContentType=\"");
            is_ascii_chars_encode_utf8("/word/footnotes.xml"@);
            is_ascii_chars_encode_utf8(
                "<Override PartName=\"/word/footnotes.xml\" ContentType=\""@,
            );
            assert(head.skip(20).take(19) =~= name);
            assert(name.is_prefix_of(head.skip(20)));
        }
        let entry = head + lit(CT_FOOTNOTES) + lit("\"/>");
        let none = Seq::<u8>::empty();
        lemma_still_stands_in(name, none, head, lit(CT_FOOTNOTES) + lit("\"/>"));
        assert(none + head + (lit(CT_FOOTNOTES) + lit("\"/>")) =~= entry);
        lemma_first_match(d, lit("</Types>"), 0);
        lemma_last_match(d, lit("</Types>"), d.len() as int);
        let p = last_match(d, lit("</Types>"), d.len() as int)->0;
        lemma_still_stands_in(name, d.take(p), entry, d.skip(p));
    }
}

proof fn lemma_relationship_named(d: Seq<u8>)
    requires
        valid_utf8(d),
        occurs(d, lit("</Relationships>")),
    ensures
        stands_in(lit("relationships/footnotes"), with_notes_relationship(d)),
{
    let name = lit("relationships/footnotes");
    if occurs(d, name) {
        lemma_occurs(d, name);
    } else {
        let kind = lit(REL_TYPE_FOOTNOTES);
        assert(stands_in(name, kind)) by {
            reveal_strlit("relationships/footnotes");
            reveal_strlit(
                "http://schemas.openxmlformats.org/officeDocument/2006/relationships/footnotes",
            );
            is_ascii_chars_encode_utf8("relationships/footnotes"@);
            is_ascii_chars_encode_utf8(
                "http://schemas.openxmlformats.org/officeDocument/2006/relationships/footnotes"@,
            );
            assert(kind.skip(54).take(23) =~= name);
            assert(name.is_prefix_of(kind.skip(54)));
        }
        let head = lit("<Relationship Id=\"rId") + encode_utf8(
            decimal(crate::rels::free_rid(d) as nat),
        ) + lit("\" Type=\"");
        let tail = lit("\" Target=\"footnotes.xml\"/>");
        lemma_still_stands_in(name, head, kind, tail);
        lemma_first_match(d, lit("</Relationships>"), 0);
        lemma_last_match(d, lit("</Relationships>"), d.len() as int);
        let p = last_match(d, lit("</Relationships>"), d.len() as int)->0;
        lemma_still_stands_in(name, d.take(p), head + kind + tail, d.skip(p));
    }
}

// ---------------------------------------------------------------------------
// Markers
// ---------------------------------------------------------------------------

/// Decimal digits.
pub open spec fn are_digits(b: Seq<u8>) -> bool {
    forall|i: int| 0 <= i < b.len() ==> 0x30 <= #[trigger] b[i] <= 0x39
}

/// The number that decimal digits denote.
pub open spec fn number_of(b: Seq<u8>) -> nat
    decreases b.len(),
{
    if b.len() == 0 {
        0
    } else {
        number_of(b.drop_last()) * 10 + (b.last() - 0x30) as nat
    }
}

/// A number in brackets stands in the text from `i` to `end`.
pub open spec fn is_bracketed(text: Seq<u8>, i: int, end: int, number: int) -> bool {
    &&& 0 <= i && i + 3 <= end <= text.len()
    &&& text[i] == 0x5b
    &&& text[end - 1] == 0x5d
    &&& are_digits(text.subrange(i + 1, end - 1))
    &&& number_of(text.subrange(i + 1, end - 1)) == number
}

proof fn lemma_digits(text: Seq<u8>, i: int)
    requires
        0 <= i <= text.len(),
    ensures
        ({
            let d = digits_at(text, i);
            &&& i + d.len() <= text.len()
            &&& are_digits(text.subrange(i, i + d.len()))
            &&& all_digits(d)
            &&& i + d.len() < text.len() ==> !(0x30 <= text[i + d.len()] <= 0x39)
            &&& forall|k: int| 0 <= k < d.len() ==> #[trigger] d[k] as u8 == text[i + k]
        }),
    decreases text.len() - i,
{
    let d = digits_at(text, i);
    if i < text.len() && 0x30 <= text[i] <= 0x39 {
        lemma_digits(text, i + 1);
        let rest = digits_at(text, i + 1);
        assert(d =~= seq![text[i] as char] + rest);
        assert forall|k: int| 0 <= k < d.len() implies #[trigger] d[k] as u8 == text[i + k]
            && is_digit(d[k]) by {
            if k > 0 {
                assert(d[k] == rest[k - 1]);
                assert(is_digit(rest[k - 1]));
            }
        }
        let all = text.subrange(i, i + d.len());
        let part = text.subrange(i + 1, i + 1 + rest.len());
        assert forall|k: int| 0 <= k < all.len() implies 0x30 <= #[trigger] all[k] <= 0x39 by {
            if k > 0 {
                assert(all[k] == part[k - 1]);
            }
        }
    }
}

proof fn lemma_value(d: Seq<char>, b: Seq<u8>)
    requires
        d.len() == b.len(),
        all_digits(d),
        forall|k: int| 0 <= k < d.len() ==> #[trigger] d[k] as u8 == b[k],
    ensures
        digits_value(d) == number_of(b),
    decreases d.len(),
{
    if d.len() > 0 {
        assert(is_digit(d[d.len() - 1]));
        assert(d[d.len() - 1] as u8 == b[d.len() - 1]);
        assert forall|k: int| 0 <= k < d.len() - 1 implies is_digit(#[trigger] d.drop_last()[k])
            && d.drop_last()[k] as u8 == b.drop_last()[k] by {
            assert(is_digit(d[k]));
            assert(d[k] as u8 == b[k]);
        }
        lemma_value(d.drop_last(), b.drop_last());
    }
}

/// A marker is what stands at `i` exactly where a number in brackets does that is the number
/// of a known note.
proof fn lemma_marker_at(text: Seq<u8>, known: Set<u32>, i: int)
    requires
        0 <= i < text.len(),
    ensures
        marker_at(text, known, i) matches Some(n) ==> is_bracketed(
            text,
            i,
            marker_end(text, i),
            n as int,
        ) && known.contains(n),
        forall|end: int, n: u32| #[trigger]
            is_bracketed(text, i, end, n as int) && known.contains(n) ==> marker_at(text, known, i)
                == Some(n) && marker_end(text, i) == end,
{
    let d = digits_at(text, i + 1);
    let j = i + 1 + d.len();
    lemma_digits(text, i + 1);
    let b = text.subrange(i + 1, j);
    lemma_value(d, b);
    if d.len() > 0 {
        assert(is_digit(d[0]));
        assert(unsigned_digits(d) == d);
    }
    assert forall|end: int, n: u32| #[trigger]
        is_bracketed(text, i, end, n as int) && known.contains(n) implies marker_at(text, known, i)
        == Some(n) && marker_end(text, i) == end by {
        let inner = text.subrange(i + 1, end - 1);
        if j < end - 1 {
            assert(inner[d.len() as int] == text[j]);
        }
        if j > end - 1 {
            assert(b[end - 1 - (i + 1)] == text[end - 1]);
        }
        assert(inner =~= b);
    }
}

/// The marker is the number of a known note in brackets.
pub open spec fn cites(text: Seq<u8>, known: Set<u32>, m: Marker) -> bool {
    is_bracketed(text, m.start as int, m.end as int, m.number as int) && known.contains(m.number)
}

/// Every marker is the number of a known note in brackets.
pub proof fn law_markers_are_numbers_in_brackets(text: Seq<u8>, known: Set<u32>, from: int)
    requires
        0 <= from,
        text.len() <= usize::MAX,
    ensures
        forall|k: int|
            0 <= k < markers(text, known, from).len() ==> cites(
                text,
                known,
                #[trigger] markers(text, known, from)[k],
            ),
    decreases text.len() - from,
{
    if from < text.len() {
        lemma_marker_at(text, known, from);
        let ms = markers(text, known, from);
        if let Some(n) = marker_at(text, known, from) {
            let end = marker_end(text, from);
            law_markers_are_numbers_in_brackets(text, known, end);
            let rest = markers(text, known, end);
            assert forall|k: int| 0 <= k < ms.len() implies cites(text, known, #[trigger] ms[k]) by {
                if k > 0 {
                    assert(ms[k] == rest[k - 1]);
                }
            }
        } else {
            law_markers_are_numbers_in_brackets(text, known, from + 1);
            let rest = markers(text, known, from + 1);
            assert(ms == rest);
            assert forall|k: int| 0 <= k < ms.len() implies cites(text, known, #[trigger] ms[k]) by {
                assert(cites(text, known, rest[k]));
            }
        }
    }
}

/// Every number in brackets that is the number of a known note is a marker.
pub proof fn law_every_marker_is_found(
    text: Seq<u8>,
    known: Set<u32>,
    from: int,
    i: int,
    end: int,
    number: u32,
)
    requires
        text.len() <= usize::MAX,
        0 <= from <= i,
        is_bracketed(text, i, end, number as int),
        known.contains(number),
    ensures
        markers(text, known, from).contains(
            Marker { start: i as usize, end: end as usize, number },
        ),
    decreases text.len() - from,
{
    let m = Marker { start: i as usize, end: end as usize, number };
    let ms = markers(text, known, from);
    lemma_marker_at(text, known, from);
    if from == i {
        assert(ms[0] == m);
    } else {
        let next = if marker_at(text, known, from) is Some {
            marker_end(text, from)
        } else {
            from + 1
        };
        if next > i {
            let inner = text.subrange(from + 1, next - 1);
            if i < next - 1 {
                assert(inner[i - from - 1] == text[i]);
            }
        }
        law_every_marker_is_found(text, known, next, i, end, number);
        let rest = markers(text, known, next);
        let k = choose|k: int| 0 <= k < rest.len() && rest[k] == m;
        if marker_at(text, known, from) is Some {
            assert(ms[k + 1] == m);
        } else {
            assert(ms[k] == m);
        }
    }
}

// ---------------------------------------------------------------------------
// References
// ---------------------------------------------------------------------------

/// A reference to a note.
pub open spec fn reference_to(number: u32) -> Seq<u8> {
    lit("<w:footnoteReference w:id=\"") + encode_utf8(decimal(number as nat)) + lit("\"/>")
}

proof fn lemma_reference_stands(number: u32)
    ensures
        stands_in(reference_to(number), reference_run(number)),
{
    let n = encode_utf8(decimal(number as nat));
    let whole = lit(
        "<w:r><w:rPr><w:rStyle w:val=\"FootnoteReference\"/></w:rPr><w:footnoteReference w:id=\"",
    );
    let head = lit("<w:r><w:rPr><w:rStyle w:val=\"FootnoteReference\"/></w:rPr>");
    let open = lit("<w:footnoteReference w:id=\"");
    let end = lit("\"/></w:r>");
    assert(whole =~= head + open && end =~= lit("\"/>") + lit("</w:r>")) by {
        reveal_strlit(
            "<w:r><w:rPr><w:rStyle w:val=\"FootnoteReference\"/></w:rPr><w:footnoteReference w:id=\"",
        );
        reveal_strlit("<w:r><w:rPr><w:rStyle w:val=\"FootnoteReference\"/></w:rPr>");
        reveal_strlit("<w:footnoteReference w:id=\"");
        reveal_strlit("\"/></w:r>");
        reveal_strlit("\"/>");
        reveal_strlit("</w:r>");
        is_ascii_chars_encode_utf8(
            "<w:r><w:rPr><w:rStyle w:val=\"FootnoteReference\"/></w:rPr><w:footnoteReference w:id=\""@,
        );
        is_ascii_chars_encode_utf8(
            "<w:r><w:rPr><w:rStyle w:val=\"FootnoteReference\"/></w:rPr>"@,
        );
        is_ascii_chars_encode_utf8("<w:footnoteReference w:id=\""@);
        is_ascii_chars_encode_utf8("\"/></w:r>"@);
        is_ascii_chars_encode_utf8("\"/>"@);
        is_ascii_chars_encode_utf8("</w:r>"@);
    }
    lemma_stands_in(head, reference_to(number), lit("</w:r>"));
    assert(reference_run(number) =~= head + reference_to(number) + lit("</w:r>"));
}

proof fn lemma_split_stands(run: Ev, t: Ev, text: Seq<u8>, ms: Seq<Marker>, n: int, k: int)
    requires
        0 <= k < n <= ms.len(),
    ensures
        stands_in(reference_to(ms[k].number), split_upto(run, t, text, ms, n)),
    decreases n,
{
    let r = reference_to(ms[k].number);
    let before = split_upto(run, t, text, ms, n - 1);
    let p = piece(run, t, text.subrange(after_markers(ms, n - 1), ms[n - 1].start as int));
    let last = reference_run(ms[n - 1].number);
    let none = Seq::<u8>::empty();
    if k == n - 1 {
        lemma_reference_stands(ms[k].number);
        lemma_still_stands_in(r, before + p, last, none);
        assert(before + p + last + none =~= split_upto(run, t, text, ms, n));
    } else {
        lemma_split_stands(run, t, text, ms, n - 1, k);
        lemma_still_stands_in(r, none, before, p + last);
        assert(none + before + (p + last) =~= split_upto(run, t, text, ms, n));
    }
}

/// Each marker of a run becomes a reference to the note that it cites.
pub proof fn law_markers_become_references(run: Ev, t: Ev, text: Seq<u8>, ms: Seq<Marker>, k: int)
    requires
        0 <= k < ms.len(),
    ensures
        stands_in(reference_to(ms[k].number), split_run(run, t, text, ms)),
{
    let n = ms.len() as int;
    let none = Seq::<u8>::empty();
    let last = piece(run, t, text.skip(after_markers(ms, n)));
    lemma_split_stands(run, t, text, ms, n, k);
    lemma_still_stands_in(
        reference_to(ms[k].number),
        none,
        split_upto(run, t, text, ms, n),
        last,
    );
    assert(none + split_upto(run, t, text, ms, n) + last =~= split_run(run, t, text, ms));
}

proof fn lemma_cited(seen: Seq<u32>, ms: Seq<Marker>, n: int, number: u32)
    requires
        0 <= n <= ms.len(),
        with_cited(seen, ms, n).contains(number),
    ensures
        seen.contains(number) || exists|k: int| 0 <= k < n && (#[trigger] ms[k]).number == number,
    decreases n,
{
    if n > 0 {
        let before = with_cited(seen, ms, n - 1);
        if before.contains(number) {
            lemma_cited(seen, ms, n - 1, number);
        } else {
            assert(ms[n - 1].number == number);
        }
    }
}

proof fn lemma_out_grows(s: InjectView, known: Set<u32>, e: Ev) -> (more: Seq<u8>)
    ensures
        inject_step(s, known, e).out == s.out + more,
        inject_step(s, known, e).seen != s.seen ==> {
            &&& s.text is Some
            &&& more == split_run(s.open, s.t, s.text->0, run_markers(s, known))
            &&& inject_step(s, known, e).seen == with_cited(
                s.seen,
                run_markers(s, known),
                run_markers(s, known).len() as int,
            )
        },
{
    let ms = run_markers(s, known);
    let none = Seq::<u8>::empty();
    assert(s.out + none =~= s.out);
    if is_start(e, "w:r") && s.depth == 0 {
        none
    } else if is_end(e, "w:r") && s.depth == 1 {
        if ms.len() > 0 {
            split_run(s.open, s.t, s.text->0, ms)
        } else {
            let more = emitted(s.open) + emitted_all(s.payload) + emitted(e);
            assert(s.out + more =~= s.out + emitted(s.open) + emitted_all(s.payload) + emitted(e));
            more
        }
    } else if s.depth > 0 {
        none
    } else {
        emitted(e)
    }
}

proof fn lemma_references_stand(events: Seq<Ev>, known: Set<u32>, number: u32)
    requires
        inject_state(events, known).seen.contains(number),
    ensures
        stands_in(reference_to(number), inject_state(events, known).out),
    decreases events.len(),
{
    if events.len() > 0 {
        let s = inject_state(events.drop_last(), known);
        let e = events.last();
        let more = lemma_out_grows(s, known, e);
        let none = Seq::<u8>::empty();
        let r = reference_to(number);
        if s.seen.contains(number) {
            lemma_references_stand(events.drop_last(), known, number);
            lemma_still_stands_in(r, none, s.out, more);
            assert(none + s.out + more =~= s.out + more);
        } else {
            let ms = run_markers(s, known);
            lemma_cited(s.seen, ms, ms.len() as int, number);
            let k = choose|k: int| 0 <= k < ms.len() && (#[trigger] ms[k]).number == number;
            law_markers_become_references(s.open, s.t, s.text->0, ms, k);
            lemma_still_stands_in(r, s.out, more, none);
            assert(s.out + more + none =~= s.out + more);
        }
    }
}

/// The document refers to every note that the report does not call unused.
pub proof fn law_cited_notes_are_referred_to(
    before: Parts,
    bodies: Map<u32, &str>,
    after: Parts,
    report: Result<InjectionReport, Error>,
    number: u32,
)
    requires
        notes_injected(before, bodies, after, report),
        report is Ok,
        report->Ok_0.inserted > 0,
        bodies.contains_key(number),
        !report->Ok_0.unused_ids@.contains(number),
    ensures
        part(after, PART_DOCUMENT@) is Some,
        stands_in(reference_to(number), part(after, PART_DOCUMENT@)->0),
{
    let events = xml_events(part(before, PART_DOCUMENT@)->0);
    let s = inject_state(events, bodies.dom());
    let rest = bodies.dom().filter(|n: u32| !s.seen.contains(n));
    assert(!rest.contains(number));
    lemma_references_stand(events, bodies.dom(), number);
    lemma_part_names();
    lemma_with_part(before, PART_DOCUMENT@, s.out);
    lemma_notes_part(with_part(before, PART_DOCUMENT@, s.out), bodies, s.seen);
}

/// Every note is cited in the document or reported as unused, in ascending order; and without a
/// document none is cited, and nothing changes.
pub proof fn law_notes_are_cited_or_unused(
    before: Parts,
    bodies: Map<u32, &str>,
    after: Parts,
    report: Result<InjectionReport, Error>,
    number: u32,
)
    requires
        notes_injected(before, bodies, after, report),
        report is Ok,
    ensures
        ({
            let doc = part(before, PART_DOCUMENT@);
            let unused = report->Ok_0.unused_ids@;
            &&& unused.contains(number) ==> bodies.contains_key(number)
            &&& doc is Some && bodies.contains_key(number) ==> (unused.contains(number) <==> !(
            inject_state(xml_events(doc->0), bodies.dom()).seen.contains(number)))
            &&& doc is None && bodies.contains_key(number) ==> unused.contains(number)
            &&& doc is None ==> after == before && report->Ok_0.inserted == 0
            &&& forall|i: int, j: int| 0 <= i < j < unused.len() ==> unused[i] < unused[j]
            &&& report->Ok_0.unknown_ids@.len() == 0
        }),
{
    if let Some(doc) = part(before, PART_DOCUMENT@) {
        let s = inject_state(xml_events(doc), bodies.dom());
        let left = bodies.dom().filter(|n: u32| !s.seen.contains(n));
        assert(left.contains(number) <==> bodies.dom().contains(number) && !s.seen.contains(
            number,
        ));
    }
}

} // verus!
