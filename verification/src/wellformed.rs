//! Well-formed event sequences: what a reader hands out, and what it reads back once
//! it has been written.

use vstd::prelude::*;
use vstd::utf8::*;

use crate::bytes::lit;
use crate::xml::{
    emitted, emitted_all, escaped, escaped_char, is_empty_tag, is_end, is_start, name_end,
    tag_name, xml_reads, Ev, EventKind,
};

verus! {

// ---------------------------------------------------------------------------
// Events
// ---------------------------------------------------------------------------

/// Where a scan for the end of a tag stands.
pub enum Scan {
    /// Outside quotation marks.
    Outside,
    /// Behind an opening quotation mark.
    Quoted(u8),
    /// Behind a `>` outside quotation marks.
    Over,
}

/// Where the scan stands after the bytes of a tag.
pub open spec fn tag_scan(s: Seq<u8>) -> Scan
    decreases s.len(),
{
    if s.len() == 0 {
        Scan::Outside
    } else {
        let b = s.last();
        match tag_scan(s.drop_last()) {
            Scan::Over => Scan::Over,
            Scan::Quoted(q) => if b == q {
                Scan::Outside
            } else {
                Scan::Quoted(q)
            },
            Scan::Outside => if b == 0x3e {
                Scan::Over
            } else if b == 0x22 || b == 0x27 {
                Scan::Quoted(b)
            } else {
                Scan::Outside
            },
        }
    }
}

/// A byte that tells other markup from a start tag: `!`, `/` or `?`.
pub open spec fn is_markup_sign(b: u8) -> bool {
    b == 0x21 || b == 0x2f || b == 0x3f
}

/// What reading hands out where no read fails.
pub open spec fn reads_of(events: Seq<Ev>) -> Seq<Result<Ev, Seq<char>>> {
    events.map_values(|e: Ev| Ok::<Ev, Seq<char>>(e))
}

/// The event, written among others, is read as one event.
pub open spec fn is_token(e: Ev) -> bool {
    match e.kind {
        EventKind::Start => tag_scan(e.raw) is Outside && (e.raw.len() > 0 ==> !is_markup_sign(
            e.raw[0],
        ) && e.raw.last() != 0x2f),
        EventKind::Empty => tag_scan(e.raw) is Outside && e.raw.len() > 0 && !is_markup_sign(
            e.raw[0],
        ),
        EventKind::End => tag_scan(e.raw) is Outside,
        EventKind::Text => e.raw.len() > 0 && !e.raw.contains(0x3c),
        EventKind::Eof => false,
        _ => xml_reads(emitted(e)) == reads_of(seq![e]),
    }
}

// ---------------------------------------------------------------------------
// Sequences
// ---------------------------------------------------------------------------

/// The names of the elements that are open after `events`, outermost first. `None`
/// where an end tag does not close the innermost of them.
pub open spec fn open_names(events: Seq<Ev>) -> Option<Seq<Seq<u8>>>
    decreases events.len(),
{
    if events.len() == 0 {
        Some(Seq::empty())
    } else {
        let e = events.last();
        match open_names(events.drop_last()) {
            None => None,
            Some(names) => match e.kind {
                EventKind::Start => Some(names.push(tag_name(e))),
                EventKind::End => if names.len() > 0 && names.last() == e.raw {
                    Some(names.drop_last())
                } else {
                    None
                },
                _ => Some(names),
            },
        }
    }
}

/// No two text events stand side by side.
pub open spec fn texts_apart(events: Seq<Ev>) -> bool {
    forall|i: int, j: int|
        0 <= i && j == i + 1 && j < events.len() && (#[trigger] events[i]).kind == EventKind::Text
            ==> (#[trigger] events[j]).kind != EventKind::Text
}

/// Every event is read as one.
pub open spec fn all_tokens(events: Seq<Ev>) -> bool {
    forall|i: int| 0 <= i < events.len() ==> is_token(#[trigger] events[i])
}

/// Events such as a reader hands out: each is read as one, no two texts stand side by
/// side, and every end tag closes the innermost open element.
#[verifier::opaque]
pub open spec fn well_formed(events: Seq<Ev>) -> bool {
    &&& all_tokens(events)
    &&& texts_apart(events)
    &&& open_names(events) is Some
}

/// The first event is a text that starts with a byte order mark, which a reader drops.
pub open spec fn starts_with_mark(events: Seq<Ev>) -> bool {
    &&& events.len() > 0
    &&& events[0].kind == EventKind::Text
    &&& events[0].raw.len() >= 3
    &&& events[0].raw.take(3) == seq![0xefu8, 0xbbu8, 0xbfu8]
}

/// The last event is a text.
pub open spec fn ends_in_text(events: Seq<Ev>) -> bool {
    events.len() > 0 && events.last().kind == EventKind::Text
}

/// Whole elements and what stands between them, with no text at either end.
pub open spec fn is_block(events: Seq<Ev>) -> bool {
    &&& well_formed(events)
    &&& open_names(events) == Some(Seq::<Seq<u8>>::empty())
    &&& !ends_in_text(events)
    &&& events.len() > 0 ==> events[0].kind != EventKind::Text
}

/// One element with the given name.
pub open spec fn is_element(events: Seq<Ev>, name: &str) -> bool {
    &&& is_block(events)
    &&& events.len() > 1
    &&& events[0].kind == EventKind::Start
    &&& tag_name(events[0]) == lit(name)
    &&& forall|i: int| 0 < i < events.len() ==> (#[trigger] open_names(events.take(i)))->0.len() > 0
}

/// A well-formed sequence with one more event.
pub proof fn lemma_push(events: Seq<Ev>, e: Ev)
    requires
        well_formed(events),
        is_token(e),
        e.kind == EventKind::Text ==> !ends_in_text(events),
        e.kind == EventKind::End ==> open_names(events)->0.len() > 0 && open_names(events)->0.last()
            == e.raw,
    ensures
        well_formed(events.push(e)),
        open_names(events.push(e)) == (match e.kind {
            EventKind::Start => Some(open_names(events)->0.push(tag_name(e))),
            EventKind::End => Some(open_names(events)->0.drop_last()),
            _ => open_names(events),
        }),
{
    reveal(well_formed);
    let after = events.push(e);
    assert(after.drop_last() =~= events);
    assert(after.last() == e);
    assert forall|i: int| 0 <= i < after.len() implies is_token(#[trigger] after[i]) by {
        if i < events.len() {
            assert(after[i] == events[i]);
        }
    }
    assert forall|i: int, j: int|
        0 <= i && j == i + 1 && j < after.len() && (#[trigger] after[i]).kind
            == EventKind::Text implies (#[trigger] after[j]).kind != EventKind::Text by {
        assert(after[i] == events[i]);
        if j < events.len() {
            assert(after[j] == events[j]);
        } else {
            assert(events.last() == events[i]);
        }
    }
}

/// A part of a well-formed sequence up to some event is well-formed, and the event
/// continues it.
pub proof fn lemma_prefix(events: Seq<Ev>, n: int)
    requires
        well_formed(events),
        0 <= n <= events.len(),
    ensures
        well_formed(events.take(n)),
    decreases events.len() - n,
{
    reveal(well_formed);
    if n < events.len() {
        lemma_prefix(events, n + 1);
        let longer = events.take(n + 1);
        let shorter = events.take(n);
        assert(longer.drop_last() =~= shorter);
        assert forall|i: int| 0 <= i < shorter.len() implies is_token(#[trigger] shorter[i]) by {
            assert(shorter[i] == longer[i]);
        }
        assert forall|i: int, j: int|
            0 <= i && j == i + 1 && j < shorter.len() && (#[trigger] shorter[i]).kind
                == EventKind::Text implies (#[trigger] shorter[j]).kind != EventKind::Text by {
            assert(shorter[i] == longer[i]);
            assert(shorter[j] == longer[j]);
        }
    } else {
        assert(events.take(n) =~= events);
    }
}

/// What the next event of a well-formed sequence is like.
pub proof fn lemma_next(events: Seq<Ev>, n: int)
    requires
        well_formed(events),
        0 <= n < events.len(),
    ensures
        well_formed(events.take(n)),
        well_formed(events.take(n + 1)),
        events.take(n + 1) == events.take(n).push(events[n]),
        is_token(events[n]),
        events[n].kind == EventKind::Text ==> !ends_in_text(events.take(n)),
        events[n].kind == EventKind::End ==> open_names(events.take(n))->0.len() > 0 && open_names(
            events.take(n),
        )->0.last() == events[n].raw,
        open_names(events.take(n + 1)) == (match events[n].kind {
            EventKind::Start => Some(open_names(events.take(n))->0.push(tag_name(events[n]))),
            EventKind::End => Some(open_names(events.take(n))->0.drop_last()),
            _ => open_names(events.take(n)),
        }),
{
    reveal(well_formed);
    lemma_prefix(events, n);
    lemma_prefix(events, n + 1);
    let longer = events.take(n + 1);
    assert(longer =~= events.take(n).push(events[n]));
    assert(longer.drop_last() =~= events.take(n));
    assert(longer.last() == events[n]);
    if events[n].kind == EventKind::Text && n > 0 {
        assert(events[n - 1] == events.take(n).last());
    }
}

/// A block behind a well-formed sequence.
pub proof fn lemma_append_block(events: Seq<Ev>, block: Seq<Ev>)
    requires
        well_formed(events),
        is_block(block),
    ensures
        well_formed(events + block),
        open_names(events + block) == open_names(events),
        block.len() > 0 ==> !ends_in_text(events + block),
        block.len() == 0 ==> events + block == events,
{
    reveal(well_formed);
    lemma_append(events, block, block.len() as int);
    assert(block.take(block.len() as int) =~= block);
    assert(open_names(events)->0 + Seq::<Seq<u8>>::empty() =~= open_names(events)->0);
    if block.len() > 0 {
        assert((events + block).last() == block.last());
    } else {
        assert(events + block =~= events);
    }
}

/// The first events of a well-formed sequence behind another, where no two texts meet.
pub proof fn lemma_append(events: Seq<Ev>, block: Seq<Ev>, n: int)
    requires
        well_formed(events),
        well_formed(block),
        ends_in_text(events) && block.len() > 0 ==> block[0].kind != EventKind::Text,
        0 <= n <= block.len(),
    ensures
        well_formed(events + block.take(n)),
        open_names(events + block.take(n)) == Some(
            open_names(events)->0 + open_names(block.take(n))->0,
        ),
    decreases n,
{
    reveal(well_formed);
    if n == 0 {
        assert(events + block.take(0) =~= events);
        assert(block.take(0) =~= Seq::empty());
        assert(open_names(events)->0 + Seq::<Seq<u8>>::empty() =~= open_names(events)->0);
    } else {
        lemma_append(events, block, n - 1);
        lemma_next(block, n - 1);
        let e = block[n - 1];
        let before = events + block.take(n - 1);
        let outer = open_names(events)->0;
        let inner = open_names(block.take(n - 1))->0;
        assert(events + block.take(n) =~= before.push(e));
        if e.kind == EventKind::Text {
            if n > 1 {
                assert(before.last() == block.take(n - 1).last());
            } else {
                assert(before =~= events);
            }
        }
        if e.kind == EventKind::End {
            assert((outer + inner).last() == inner.last());
            assert((outer + inner).drop_last() =~= outer + inner.drop_last());
        }
        if e.kind == EventKind::Start {
            assert((outer + inner).push(tag_name(e)) =~= outer + inner.push(tag_name(e)));
        }
        lemma_push(before, e);
    }
}

/// Nothing is a block.
pub proof fn lemma_no_block()
    ensures
        is_block(Seq::<Ev>::empty()),
{
    reveal(well_formed);
}

/// Two blocks, one behind the other, are a block.
pub proof fn lemma_blocks(a: Seq<Ev>, b: Seq<Ev>)
    requires
        is_block(a),
        is_block(b),
    ensures
        is_block(a + b),
{
    lemma_append_block(a, b);
    if a.len() == 0 {
        assert(a + b =~= b);
    } else {
        assert((a + b)[0] == a[0]);
        if b.len() == 0 {
            assert(a + b =~= a);
        }
    }
}

/// A single empty tag is a block.
pub proof fn lemma_empty_block(e: Ev)
    requires
        e.kind == EventKind::Empty,
        is_token(e),
    ensures
        is_block(seq![e]),
{
    lemma_no_block();
    assert(Seq::<Ev>::empty().push(e) =~= seq![e]);
    lemma_push(Seq::empty(), e);
}

/// A block with an empty tag behind it is a block.
pub proof fn lemma_push_block(block: Seq<Ev>, e: Ev)
    requires
        is_block(block),
        e.kind == EventKind::Empty,
        is_token(e),
    ensures
        is_block(block.push(e)),
{
    lemma_empty_block(e);
    lemma_blocks(block, seq![e]);
    assert(block + seq![e] =~= block.push(e));
}

/// A block or a text in an element is a block.
pub proof fn lemma_enclose(start: Ev, inner: Seq<Ev>, end: Ev)
    requires
        start.kind == EventKind::Start,
        is_token(start),
        end.kind == EventKind::End,
        is_token(end),
        end.raw == tag_name(start),
        is_block(inner) || (inner.len() == 1 && inner[0].kind == EventKind::Text && is_token(
            inner[0],
        )),
    ensures
        is_block(seq![start] + inner + seq![end]),
{
    let opened = Seq::<Ev>::empty().push(start);
    lemma_no_block();
    lemma_push(Seq::empty(), start);
    assert(open_names(opened)->0 =~= seq![tag_name(start)]);
    let filled = opened + inner;
    if is_block(inner) {
        lemma_append_block(opened, inner);
    } else {
        lemma_push(opened, inner[0]);
        assert(filled =~= opened.push(inner[0]));
    }
    lemma_push(filled, end);
    assert(seq![start] + inner + seq![end] =~= filled.push(end));
    assert(open_names(filled.push(end))->0 =~= Seq::<Seq<u8>>::empty());
}

/// The bytes of two sequences, one behind the other.
pub proof fn lemma_emitted_concat(a: Seq<Ev>, b: Seq<Ev>)
    ensures
        emitted_all(a + b) == emitted_all(a) + emitted_all(b),
    decreases b.len(),
{
    if b.len() == 0 {
        assert(a + b =~= a);
        assert(emitted_all(a) + emitted_all(b) =~= emitted_all(a));
    } else {
        lemma_emitted_concat(a, b.drop_last());
        assert((a + b).drop_last() =~= a + b.drop_last());
        assert((a + b).last() == b.last());
        assert(emitted_all(a + b) =~= emitted_all(a) + emitted_all(b));
    }
}

/// The bytes of a sequence with one more event.
pub proof fn lemma_emitted_push(a: Seq<Ev>, e: Ev)
    ensures
        emitted_all(a.push(e)) == emitted_all(a) + emitted(e),
{
    assert(a.push(e).drop_last() =~= a);
}

/// The bytes of a single event.
pub proof fn lemma_emitted_one(e: Ev)
    ensures
        emitted_all(seq![e]) == emitted(e),
{
    let none = Seq::<Ev>::empty();
    assert(seq![e] =~= none.push(e));
    lemma_emitted_push(none, e);
    assert(emitted_all(none) + emitted(e) =~= emitted(e));
}

// ---------------------------------------------------------------------------
// Escaped text
// ---------------------------------------------------------------------------

proof fn lemma_scalar_without_less(v: u32)
    requires
        is_scalar(v),
        v != 0x3c,
    ensures
        !encode_scalar(v).contains(0x3c),
        encode_scalar(v).len() > 0,
{
    if has_width_1_encoding(v) {
        assert((v & 0x7f) as u8 != 0x3c) by (bit_vector)
            requires
                v <= 0x7f,
                v != 0x3c,
        ;
    } else {
        assert(forall|b: u8| #[trigger] (0x80u8 | b) != 0x3c) by (bit_vector);
        assert(forall|b: u8| #[trigger] (0xc0u8 | b) != 0x3c) by (bit_vector);
        assert(forall|b: u8| #[trigger] (0xe0u8 | b) != 0x3c) by (bit_vector);
        assert(forall|b: u8| #[trigger] (0xf0u8 | b) != 0x3c) by (bit_vector);
    }
}

/// The bytes of a text hold a `<` only where the text does.
pub proof fn lemma_encoded_without_less(s: Seq<char>)
    requires
        !s.contains('<'),
    ensures
        !encode_utf8(s).contains(0x3c),
        s.len() > 0 ==> encode_utf8(s).len() > 0,
    decreases s.len(),
{
    if s.len() > 0 {
        let rest = s.drop_first();
        assert(s[0] != '<');
        assert forall|i: int| 0 <= i < rest.len() implies rest[i] != '<' by {
            assert(rest[i] == s[i + 1]);
        }
        lemma_encoded_without_less(rest);
        char_is_scalar(s[0]);
        let c = s[0];
        assert(c as u32 != 0x3c) by {
            if c as u32 == 0x3c {
                char_u32_cast(c, 0x3c);
                char_u32_cast('<', 0x3c);
            }
        }
        lemma_scalar_without_less(s[0] as u32);
        let a = encode_scalar(s[0] as u32);
        let b = encode_utf8(rest);
        assert forall|i: int| 0 <= i < (a + b).len() implies (a + b)[i] != 0x3c by {
            if i < a.len() {
                assert(a.contains(a[i]));
            } else {
                assert(b.contains(b[i - a.len()]));
            }
        }
    }
}

proof fn lemma_escaped_char(c: char)
    ensures
        !escaped_char(c).contains('<'),
        escaped_char(c).len() > 0,
{
    reveal_strlit("&lt;");
    reveal_strlit("&gt;");
    reveal_strlit("&amp;");
    reveal_strlit("&apos;");
    reveal_strlit("&quot;");
}

/// Escaped text holds no `<`, and is empty only where the text is.
pub proof fn lemma_escaped(s: Seq<char>)
    ensures
        !escaped(s).contains('<'),
        s.len() > 0 ==> escaped(s).len() > 0,
    decreases s.len(),
{
    if s.len() > 0 {
        lemma_escaped(s.drop_last());
        lemma_escaped_char(s.last());
        let a = escaped(s.drop_last());
        let b = escaped_char(s.last());
        assert forall|i: int| 0 <= i < (a + b).len() implies (a + b)[i] != '<' by {
            if i < a.len() {
                assert(a.contains(a[i]));
            } else {
                assert(b.contains(b[i - a.len()]));
            }
        }
    }
}

/// Escaped text is read as one event.
pub proof fn lemma_text_token(s: Seq<char>)
    requires
        s.len() > 0,
    ensures
        is_token(Ev { kind: EventKind::Text, raw: encode_utf8(escaped(s)) }),
{
    lemma_escaped(s);
    lemma_encoded_without_less(escaped(s));
}

/// A byte that leaves a scan for the end of a tag outside quotation marks.
pub open spec fn is_plain_byte(b: u8) -> bool {
    b != 0x3e && b != 0x22 && b != 0x27
}

/// Bytes without `>` and quotation marks do not end a tag.
pub proof fn lemma_plain_scan(before: Seq<u8>, s: Seq<u8>)
    requires
        tag_scan(before) is Outside,
        forall|i: int| 0 <= i < s.len() ==> is_plain_byte(#[trigger] s[i]),
    ensures
        tag_scan(before + s) is Outside,
    decreases s.len(),
{
    if s.len() == 0 {
        assert(before + s =~= before);
    } else {
        let init = s.drop_last();
        assert forall|i: int| 0 <= i < init.len() implies is_plain_byte(#[trigger] init[i]) by {
            assert(init[i] == s[i]);
        }
        lemma_plain_scan(before, init);
        assert((before + s).drop_last() =~= before + init);
        assert((before + s).last() == s[s.len() - 1]);
        assert(is_plain_byte(s[s.len() - 1]));
    }
}

/// A quoted value does not end a tag.
pub proof fn lemma_quoted_scan(before: Seq<u8>, quote: u8, value: Seq<u8>)
    requires
        tag_scan(before) is Outside,
        quote == 0x22 || quote == 0x27,
        !value.contains(quote),
    ensures
        tag_scan(before.push(quote) + value) == Scan::Quoted(quote),
        tag_scan((before.push(quote) + value).push(quote)) is Outside,
    decreases value.len(),
{
    let all = before.push(quote) + value;
    if value.len() == 0 {
        assert(all.drop_last() =~= before);
    } else {
        let init = value.drop_last();
        assert forall|i: int| 0 <= i < init.len() implies init[i] != quote by {
            assert(init[i] == value[i]);
        }
        lemma_quoted_scan(before, quote, init);
        assert(all.drop_last() =~= before.push(quote) + init);
        assert(value[value.len() - 1] == value.last());
    }
    assert(all.push(quote).drop_last() =~= all);
}

/// How many of the names are `name`.
pub open spec fn count_name(names: Seq<Seq<u8>>, name: Seq<u8>) -> int
    decreases names.len(),
{
    if names.len() == 0 {
        0
    } else {
        count_name(names.drop_last(), name) + (if names.last() == name {
            1int
        } else {
            0int
        })
    }
}

/// No name occurs less than no times.
pub proof fn lemma_count_name(names: Seq<Seq<u8>>, name: Seq<u8>)
    ensures
        count_name(names, name) >= 0,
    decreases names.len(),
{
    if names.len() > 0 {
        lemma_count_name(names.drop_last(), name);
    }
}

/// A name that comes first counts, and so does the same name at the end.
pub proof fn lemma_first_counts(names: Seq<Seq<u8>>, name: Seq<u8>)
    requires
        names.len() > 0,
        names[0] == name,
    ensures
        count_name(names, name) >= 1,
        names.len() > 1 && names.last() == name ==> count_name(names, name) >= 2,
    decreases names.len(),
{
    if names.len() > 1 {
        assert(names.drop_last()[0] == name);
        lemma_first_counts(names.drop_last(), name);
    } else {
        lemma_count_name(names.drop_last(), name);
    }
}

/// How many paragraphs are open after an event.
pub open spec fn paragraphs_open(depth: int, e: Ev) -> int {
    if is_start(e, "w:p") {
        depth + 1
    } else if is_end(e, "w:p") {
        depth - 1
    } else {
        depth
    }
}

/// The open elements of a document, while a paragraph of it is being rewritten: those
/// of what has been written, the last of them the paragraph, and others inside it.
pub open spec fn spans(names: Seq<Seq<u8>>, outer: Seq<Seq<u8>>, depth: int) -> bool {
    &&& 0 < outer.len() <= names.len()
    &&& outer.last() == lit("w:p")
    &&& names.take(outer.len() as int) == outer
    &&& count_name(names.skip(outer.len() as int), lit("w:p")) == depth - 1
}

/// The open elements after one more event inside a paragraph under rewriting.
pub proof fn lemma_spans(before: Seq<Ev>, e: Ev, outer: Seq<Seq<u8>>, depth: int)
    requires
        well_formed(before),
        well_formed(before.push(e)),
        spans(open_names(before)->0, outer, depth),
        !(is_end(e, "w:p") && depth == 1),
    ensures
        spans(open_names(before.push(e))->0, outer, paragraphs_open(depth, e)),
        e.kind == EventKind::End ==> open_names(before)->0.len() > outer.len(),
        paragraphs_open(depth, e) >= 1,
{
    reveal(well_formed);
    let names = open_names(before)->0;
    let k = outer.len() as int;
    let rest = names.skip(k);
    assert(before.push(e).drop_last() =~= before);
    let after = open_names(before.push(e))->0;
    match e.kind {
        EventKind::Start => {
            assert(after.skip(k) =~= rest.push(tag_name(e)));
            assert(rest.push(tag_name(e)).drop_last() =~= rest);
            assert(after.take(k) =~= outer);
        },
        EventKind::End => {
            if rest.len() == 0 {
                assert(names =~= outer);
            }
            assert(names.last() == rest.last());
            assert(after.skip(k) =~= rest.drop_last());
            assert(after.take(k) =~= outer);
        },
        _ => {},
    }
    lemma_count_name(after.skip(k), lit("w:p"));
}

// ---------------------------------------------------------------------------
// Elements
// ---------------------------------------------------------------------------

/// How many elements are open after an event, counted inside an element.
pub open spec fn depth_after(depth: int, e: Ev) -> int {
    match e.kind {
        EventKind::Start => depth + 1,
        EventKind::End => depth - 1,
        _ => depth,
    }
}

/// The open elements of an element, as far as it has been read, and how many of them
/// are paragraphs.
pub proof fn lemma_inner_names(element: Seq<Ev>, name: &str, i: int)
    requires
        is_element(element, name),
        0 < i < element.len(),
    ensures
        ({
            let names = open_names(element.take(i))->0;
            let after = open_names(element.take(i + 1))->0;
            let e = element[i];
            &&& names.len() > 0
            &&& after.len() == depth_after(names.len() as int, e)
            &&& (after.len() == 0) == (i + 1 == element.len())
            &&& count_name(after, lit("w:p")) == paragraphs_open(count_name(names, lit("w:p")), e)
            &&& is_end(e, "w:p") ==> count_name(names, lit("w:p")) > 0
        }),
{
    lemma_next(element, i);
    let names = open_names(element.take(i))->0;
    let e = element[i];
    assert(names.len() > 0);
    if i + 1 == element.len() {
        assert(element.take(i + 1) =~= element);
    }
    match e.kind {
        EventKind::Start => {
            assert(names.push(tag_name(e)).drop_last() =~= names);
        },
        EventKind::End => {
            lemma_count_name(names.drop_last(), lit("w:p"));
        },
        _ => {},
    }
}

/// Part of an element with the given name, read at the end of `before`.
pub open spec fn part_of_element(events: Seq<Ev>, depth: int, name: &str, before: Seq<Ev>) -> bool {
    let names = open_names(before)->0;
    let inner = open_names(events)->0;
    &&& well_formed(events)
    &&& events.len() > 0
    &&& events[0].kind == EventKind::Start
    &&& tag_name(events[0]) == lit(name)
    &&& inner.len() == depth
    &&& depth >= 1
    &&& depth <= names.len()
    &&& names.skip(names.len() - depth) == inner
    &&& ends_in_text(events) ==> ends_in_text(before)
    &&& forall|i: int| 0 < i < events.len() ==> (#[trigger] open_names(events.take(i)))->0.len() > 0
}

/// The start tag of an element.
pub proof fn lemma_part_start(name: &str, before: Seq<Ev>, e: Ev)
    requires
        well_formed(before),
        well_formed(before.push(e)),
        is_token(e),
        is_start(e, name),
    ensures
        part_of_element(seq![e], 1, name, before.push(e)),
{
    let none = Seq::<Ev>::empty();
    lemma_no_block();
    lemma_push(none, e);
    assert(none.push(e) =~= seq![e]);
    reveal(well_formed);
    assert(before.push(e).drop_last() =~= before);
    let names = open_names(before.push(e))->0;
    assert(open_names(seq![e])->0 =~= seq![tag_name(e)]);
    assert(names.skip(names.len() - 1) =~= seq![tag_name(e)]);
}

/// One more event of an element.
pub proof fn lemma_part_next(events: Seq<Ev>, depth: int, name: &str, before: Seq<Ev>, e: Ev)
    requires
        well_formed(before),
        well_formed(before.push(e)),
        is_token(e),
        e.kind == EventKind::Text ==> !ends_in_text(before),
        part_of_element(events, depth, name, before),
    ensures
        depth_after(depth, e) >= 0,
        depth_after(depth, e) >= 1 ==> part_of_element(
            events.push(e),
            depth_after(depth, e),
            name,
            before.push(e),
        ),
        depth_after(depth, e) == 0 ==> is_element(events.push(e), name),
{
    let names = open_names(before)->0;
    let inner = open_names(events)->0;
    reveal(well_formed);
    assert(before.push(e).drop_last() =~= before);
    let after = open_names(before.push(e))->0;
    if e.kind == EventKind::End {
        assert(names.skip(names.len() - depth).last() == names.last());
    }
    lemma_push(events, e);
    let longer = events.push(e);
    let now = open_names(longer)->0;
    assert forall|i: int| 0 < i < longer.len() implies (#[trigger] open_names(
        longer.take(i),
    ))->0.len() > 0 by {
        assert(longer.take(i) =~= events.take(i));
        if i == events.len() {
            assert(events.take(i) =~= events);
        }
    }
    assert(longer[0] == events[0]);
    match e.kind {
        EventKind::Start => {
            assert(after.skip(after.len() - (depth + 1)) =~= now);
        },
        EventKind::End => {
            assert(after.skip(after.len() - (depth - 1)) =~= now);
            if depth == 1 {
                assert(now =~= Seq::empty());
            }
        },
        _ => {},
    }
}

/// One element with the given name, or an empty tag.
pub open spec fn is_whole(events: Seq<Ev>, name: &str) -> bool {
    is_element(events, name) || (events.len() == 1 && is_empty_tag(events[0], name) && is_token(
        events[0],
    ))
}

/// A whole element is a block.
pub proof fn lemma_whole_block(events: Seq<Ev>, name: &str)
    requires
        is_whole(events, name),
    ensures
        is_block(events),
{
    if !is_element(events, name) {
        lemma_empty_block(events[0]);
        assert(events =~= seq![events[0]]);
    }
}

// ---------------------------------------------------------------------------
// Empty paragraphs
// ---------------------------------------------------------------------------

/// The start tag that an empty tag becomes once there is something to put into it.
pub open spec fn opened(e: Ev) -> Ev {
    Ev {
        kind: EventKind::Start,
        raw: if e.raw.len() > 0 && e.raw.last() == 0x2f {
            tag_name(e)
        } else {
            e.raw
        },
    }
}

/// The end tag of a paragraph.
pub open spec fn paragraph_end() -> Ev {
    tag(EventKind::End, "w:p")
}

/// An empty paragraph, opened, is a paragraph.
pub proof fn lemma_opened(e: Ev)
    requires
        is_empty_tag(e, "w:p"),
        is_token(e),
    ensures
        is_token(opened(e)),
        is_start(opened(e), "w:p"),
        is_token(paragraph_end()),
        is_end(paragraph_end(), "w:p"),
{
    reveal_strlit("w:p");
    is_ascii_chars_encode_utf8("w:p"@);
    let name = lit("w:p");
    let none = Seq::<u8>::empty();
    lemma_plain_scan(none, name);
    assert(none + name =~= name);
    reveal_with_fuel(name_end, 4);
    assert(name.take(3) =~= name);
}

/// A tag with the given contents.
pub open spec fn tag(kind: EventKind, raw: &str) -> Ev {
    Ev { kind, raw: lit(raw) }
}

} // verus!
