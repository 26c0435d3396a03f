//! What becomes of the names that are replaced.

use vstd::prelude::*;
use vstd::utf8::is_ascii_chars_encode_utf8;

use crate::bytes::{lit, matches_at, replaced};
use crate::normalize_tags::tags_renamed;
use crate::notes_kind::{kind_names, substituted, words_swapped, NotesKind};
use crate::rsid_strip::{is_rsid_key, kept_attrs, law_kept_attrs, rsids_stripped};
use crate::wellformed::lemma_emitted_push;
use crate::xml::{attrs_bytes, emitted, emitted_all, is_tag, tag_attrs, tag_name, At, Ev};

verus! {

// ---------------------------------------------------------------------------
// Replacing
// ---------------------------------------------------------------------------

/// The first occurrence is replaced, and what follows it is treated alike; what stands before
/// it stays.
pub proof fn law_first_occurrence_is_replaced(
    a: Seq<u8>,
    needle: Seq<u8>,
    b: Seq<u8>,
    replacement: Seq<u8>,
)
    requires
        needle.len() > 0,
        forall|at: int|
            0 <= at < a.len() ==> !#[trigger] matches_at(a + needle + b, at, needle),
    ensures
        replaced(a + needle + b, needle, replacement) == a + replacement + replaced(
            b,
            needle,
            replacement,
        ),
    decreases a.len(),
{
    let s = a + needle + b;
    if a.len() == 0 {
        assert(s.subrange(0, needle.len() as int) =~= needle);
        assert(s.skip(needle.len() as int) =~= b);
        assert(a + replacement + replaced(b, needle, replacement) =~= replacement + replaced(
            b,
            needle,
            replacement,
        ));
    } else {
        let rest = a.skip(1);
        assert(!matches_at(s, 0, needle));
        assert(s.skip(1) =~= rest + needle + b);
        assert forall|at: int| 0 <= at < rest.len() implies !#[trigger] matches_at(
            rest + needle + b,
            at,
            needle,
        ) by {
            if matches_at(rest + needle + b, at, needle) {
                assert(s.subrange(at + 1, at + 1 + needle.len()) =~= (rest + needle + b).subrange(
                    at,
                    at + needle.len(),
                ));
                assert(matches_at(s, at + 1, needle));
            }
        }
        law_first_occurrence_is_replaced(rest, needle, b, replacement);
        assert(seq![s[0]] + (rest + replacement + replaced(b, needle, replacement)) =~= a
            + replacement + replaced(b, needle, replacement));
    }
}

/// What does not occur is not replaced.
pub proof fn law_nothing_else_is_replaced(s: Seq<u8>, needle: Seq<u8>, replacement: Seq<u8>)
    requires
        forall|at: int| !#[trigger] matches_at(s, at, needle),
    ensures
        replaced(s, needle, replacement) == s,
    decreases s.len(),
{
    if needle.len() > 0 && s.len() > 0 {
        assert(!matches_at(s, 0, needle));
        let rest = s.skip(1);
        assert forall|at: int| !#[trigger] matches_at(rest, at, needle) by {
            if matches_at(rest, at, needle) {
                assert(s.subrange(at + 1, at + 1 + needle.len()) =~= rest.subrange(
                    at,
                    at + needle.len(),
                ));
                assert(matches_at(s, at + 1, needle));
            }
        }
        law_nothing_else_is_replaced(rest, needle, replacement);
        assert(seq![s[0]] + rest =~= s);
    }
}

/// The byte stands at `i` in the word, and in neither of the surroundings.
spec fn is_lonely(a: Seq<u8>, word: Seq<u8>, b: Seq<u8>, c: u8, i: int) -> bool {
    &&& !a.contains(c)
    &&& !b.contains(c)
    &&& forall|k: int| 0 <= k < word.len() && k != i ==> #[trigger] word[k] != c
}

/// A needle with a byte that the text has only once, inside a word, occurs only there.
proof fn lemma_lonely(a: Seq<u8>, word: Seq<u8>, b: Seq<u8>, c: u8, i: int, needle: Seq<u8>, j: int, at: int)
    requires
        is_lonely(a, word, b, c, i),
        0 <= i < word.len(),
        0 <= j < needle.len(),
        needle[j] == c,
        matches_at(a + word + b, at, needle),
    ensures
        at + j == a.len() + i,
{
    let s = a + word + b;
    let p = at + j;
    assert(s.subrange(at, at + needle.len())[j] == s[p]);
    assert(s[p] == c);
    if p < a.len() {
        assert(a[p] == c);
    } else if p < a.len() + word.len() {
        assert(word[p - a.len()] == c);
    } else {
        assert(b[p - a.len() - word.len()] == c);
    }
}

// ---------------------------------------------------------------------------
// Tags
// ---------------------------------------------------------------------------

/// Each of the three tags gets its standard name, and what stands around it stays, if no other
/// hyphen does.
pub proof fn law_tags_get_their_names(a: Seq<u8>, b: Seq<u8>, n: int)
    requires
        !a.contains(0x2d),
        !b.contains(0x2d),
        0 <= n < 3,
    ensures
        n == 0 ==> tags_renamed(a + lit("w:sz-cs") + b) == a + lit("w:szCs") + b,
        n == 1 ==> tags_renamed(a + lit("w:b-cs") + b) == a + lit("w:bCs") + b,
        n == 2 ==> tags_renamed(a + lit("w:i-cs") + b) == a + lit("w:iCs") + b,
{
    reveal_strlit("w:sz-cs");
    reveal_strlit("w:b-cs");
    reveal_strlit("w:i-cs");
    reveal_strlit("w:szCs");
    reveal_strlit("w:bCs");
    reveal_strlit("w:iCs");
    is_ascii_chars_encode_utf8("w:sz-cs"@);
    is_ascii_chars_encode_utf8("w:b-cs"@);
    is_ascii_chars_encode_utf8("w:i-cs"@);
    is_ascii_chars_encode_utf8("w:szCs"@);
    is_ascii_chars_encode_utf8("w:bCs"@);
    is_ascii_chars_encode_utf8("w:iCs"@);
    let x = lit("w:sz-cs");
    let y = lit("w:b-cs");
    let z = lit("w:i-cs");
    assert(x[4] == 0x2d && y[3] == 0x2d && z[3] == 0x2d);
    assert(x[2] == 0x73 && y[2] == 0x62 && z[2] == 0x69);
    if n == 0 {
        lemma_one_tag(a, b, x, lit("w:szCs"), 4);
        lemma_hyphenless(a, lit("w:szCs"), b, y, lit("w:bCs"), 3);
        lemma_hyphenless(a, lit("w:szCs"), b, z, lit("w:iCs"), 3);
    } else if n == 1 {
        lemma_other_tag(a, y, b, 3, x, 4, lit("w:szCs"));
        lemma_one_tag(a, b, y, lit("w:bCs"), 3);
        lemma_hyphenless(a, lit("w:bCs"), b, z, lit("w:iCs"), 3);
    } else {
        lemma_other_tag(a, z, b, 3, x, 4, lit("w:szCs"));
        lemma_other_tag(a, z, b, 3, y, 3, lit("w:bCs"));
        lemma_one_tag(a, b, z, lit("w:iCs"), 3);
    }
}

proof fn lemma_one_tag(a: Seq<u8>, b: Seq<u8>, tag: Seq<u8>, new_tag: Seq<u8>, i: int)
    requires
        !a.contains(0x2d),
        !b.contains(0x2d),
        0 <= i < tag.len(),
        tag[i] == 0x2d,
        forall|k: int| 0 <= k < tag.len() && k != i ==> #[trigger] tag[k] != 0x2d,
    ensures
        replaced(a + tag + b, tag, new_tag) == a + new_tag + b,
{
    assert forall|at: int| 0 <= at < a.len() implies !#[trigger] matches_at(
        a + tag + b,
        at,
        tag,
    ) by {
        if matches_at(a + tag + b, at, tag) {
            lemma_lonely(a, tag, b, 0x2d, i, tag, i, at);
        }
    }
    law_first_occurrence_is_replaced(a, tag, b, new_tag);
    assert forall|at: int| !#[trigger] matches_at(b, at, tag) by {
        if matches_at(b, at, tag) {
            assert(b.subrange(at, at + tag.len())[i] == b[at + i]);
        }
    }
    law_nothing_else_is_replaced(b, tag, new_tag);
}

proof fn lemma_hyphenless(
    a: Seq<u8>,
    mid: Seq<u8>,
    b: Seq<u8>,
    tag: Seq<u8>,
    new_tag: Seq<u8>,
    i: int,
)
    requires
        !a.contains(0x2d),
        !b.contains(0x2d),
        forall|k: int| 0 <= k < mid.len() ==> #[trigger] mid[k] != 0x2d,
        0 <= i < tag.len(),
        tag[i] == 0x2d,
    ensures
        replaced(a + mid + b, tag, new_tag) == a + mid + b,
{
    let s = a + mid + b;
    assert forall|at: int| !#[trigger] matches_at(s, at, tag) by {
        if matches_at(s, at, tag) {
            let p = at + i;
            assert(s.subrange(at, at + tag.len())[i] == s[p]);
            if p < a.len() {
                assert(a[p] == 0x2d);
            } else if p < a.len() + mid.len() {
                assert(mid[p - a.len()] == 0x2d);
            } else {
                assert(b[p - a.len() - mid.len()] == 0x2d);
            }
        }
    }
    law_nothing_else_is_replaced(s, tag, new_tag);
}

/// Another tag, whose letter before the hyphen differs, is not found in its place.
proof fn lemma_other_tag(
    a: Seq<u8>,
    tag: Seq<u8>,
    b: Seq<u8>,
    i: int,
    other: Seq<u8>,
    j: int,
    new_tag: Seq<u8>,
)
    requires
        is_lonely(a, tag, b, 0x2d, i),
        0 < i < tag.len(),
        tag[i] == 0x2d,
        0 < j < other.len(),
        other[j] == 0x2d,
        other[j - 1] != tag[i - 1],
    ensures
        replaced(a + tag + b, other, new_tag) == a + tag + b,
{
    let s = a + tag + b;
    assert forall|at: int| !#[trigger] matches_at(s, at, other) by {
        if matches_at(s, at, other) {
            lemma_lonely(a, tag, b, 0x2d, i, other, j, at);
            assert(s.subrange(at, at + other.len())[j - 1] == s[at + j - 1]);
            assert(s[a.len() + i - 1] == tag[i - 1]);
        }
    }
    law_nothing_else_is_replaced(s, other, new_tag);
}

// ---------------------------------------------------------------------------
// Notes
// ---------------------------------------------------------------------------

/// The names of the elements and styles of the two kinds of notes: those of endnotes are those
/// of footnotes with one word for the other.
pub proof fn law_names_of_notes()
    ensures
        kind_names(NotesKind::Footnotes).words == seq![
            lit("w:footnotes"),
            lit("w:footnote "),
            lit("w:footnote>"),
            lit("w:footnoteRef"),
            lit("w:footnoteReference"),
            lit("FootnoteText"),
            lit("FootnoteReference"),
        ],
        kind_names(NotesKind::Endnotes).words == seq![
            lit("w:endnotes"),
            lit("w:endnote "),
            lit("w:endnote>"),
            lit("w:endnoteRef"),
            lit("w:endnoteReference"),
            lit("EndnoteText"),
            lit("EndnoteReference"),
        ],
        kind_names(NotesKind::Footnotes).part == "word/footnotes.xml"@,
        kind_names(NotesKind::Endnotes).part == "word/endnotes.xml"@,
        kind_names(NotesKind::Footnotes).content_type
            == "application/vnd.openxmlformats-officedocument.wordprocessingml.footnotes+xml"@,
        kind_names(NotesKind::Endnotes).content_type
            == "application/vnd.openxmlformats-officedocument.wordprocessingml.endnotes+xml"@,
        kind_names(NotesKind::Footnotes).relationship
            == "http://schemas.openxmlformats.org/officeDocument/2006/relationships/footnotes"@,
        kind_names(NotesKind::Endnotes).relationship
            == "http://schemas.openxmlformats.org/officeDocument/2006/relationships/endnotes"@,
{
}

/// A substitution in a text that has a byte only once, at the start of a word.
proof fn lemma_word_step(a: Seq<u8>, word: Seq<u8>, b: Seq<u8>, c: u8, needle: Seq<u8>, replacement: Seq<u8>)
    requires
        is_lonely(a, word, b, c, 0),
        word.len() > 0,
        word[0] == c,
        needle.len() > 0,
        needle.len() <= word.len(),
        needle[0] == c,
    ensures
        needle == word.take(needle.len() as int) ==> replaced(
            a + word + b,
            needle,
            replacement,
        ) == a + (replacement + word.skip(needle.len() as int)) + b,
        needle != word.take(needle.len() as int) ==> replaced(a + word + b, needle, replacement)
            == a + word + b,
{
    let s = a + word + b;
    let n = needle.len() as int;
    if needle == word.take(n) {
        let rest = word.skip(n) + b;
        assert(a + needle + rest =~= s);
        assert forall|at: int| 0 <= at < a.len() implies !#[trigger] matches_at(
            a + needle + rest,
            at,
            needle,
        ) by {
            if matches_at(s, at, needle) {
                lemma_lonely(a, word, b, c, 0, needle, 0, at);
            }
        }
        law_first_occurrence_is_replaced(a, needle, rest, replacement);
        assert forall|at: int| !#[trigger] matches_at(rest, at, needle) by {
            if matches_at(rest, at, needle) {
                assert(rest.subrange(at, at + n)[0] == rest[at]);
                if at < word.skip(n).len() {
                    assert(word[n + at] == c);
                } else {
                    assert(b[at - word.skip(n).len()] == c);
                }
            }
        }
        law_nothing_else_is_replaced(rest, needle, replacement);
        assert(a + replacement + rest =~= a + (replacement + word.skip(n)) + b);
    } else {
        assert forall|at: int| !#[trigger] matches_at(s, at, needle) by {
            if matches_at(s, at, needle) {
                lemma_lonely(a, word, b, c, 0, needle, 0, at);
                assert(s.subrange(at, at + n) =~= word.take(n));
            }
        }
        law_nothing_else_is_replaced(s, needle, replacement);
    }
}

/// A needle that starts with a byte that the text does not have is not found.
proof fn lemma_absent(s: Seq<u8>, c: u8, needle: Seq<u8>, replacement: Seq<u8>)
    requires
        !s.contains(c),
        needle.len() > 0,
        needle[0] == c,
    ensures
        replaced(s, needle, replacement) == s,
{
    assert forall|at: int| !#[trigger] matches_at(s, at, needle) by {
        if matches_at(s, at, needle) {
            assert(s.subrange(at, at + needle.len())[0] == s[at]);
        }
    }
    law_nothing_else_is_replaced(s, needle, replacement);
}

/// A reference to a footnote becomes a reference to an endnote, and the other way round, and
/// what stands around it stays, if no other of the letters `w`, `F` and `E` does.
pub proof fn law_references_are_converted(a: Seq<u8>, b: Seq<u8>)
    requires
        !a.contains(0x77) && !a.contains(0x46) && !a.contains(0x45),
        !b.contains(0x77) && !b.contains(0x46) && !b.contains(0x45),
    ensures
        words_swapped(
            a + lit("w:footnoteReference") + b,
            NotesKind::Footnotes,
            NotesKind::Endnotes,
        ) == a + lit("w:endnoteReference") + b,
        words_swapped(
            a + lit("w:endnoteReference") + b,
            NotesKind::Endnotes,
            NotesKind::Footnotes,
        ) == a + lit("w:footnoteReference") + b,
{
    lemma_there(a, b);
    lemma_back_again(a, b);
}

#[verifier::rlimit(60)]
proof fn lemma_there(a: Seq<u8>, b: Seq<u8>)
    requires
        !a.contains(0x77) && !a.contains(0x46) && !a.contains(0x45),
        !b.contains(0x77) && !b.contains(0x46) && !b.contains(0x45),
    ensures
        words_swapped(a + lit("w:footnoteReference") + b, NotesKind::Footnotes, NotesKind::Endnotes) == a + lit("w:endnoteReference") + b,
{
    reveal_strlit("w:footnotes");
    is_ascii_chars_encode_utf8("w:footnotes"@);
    reveal_strlit("w:footnote ");
    is_ascii_chars_encode_utf8("w:footnote "@);
    reveal_strlit("w:footnote>");
    is_ascii_chars_encode_utf8("w:footnote>"@);
    reveal_strlit("w:footnoteRef");
    is_ascii_chars_encode_utf8("w:footnoteRef"@);
    reveal_strlit("w:footnoteReference");
    is_ascii_chars_encode_utf8("w:footnoteReference"@);
    reveal_strlit("FootnoteText");
    is_ascii_chars_encode_utf8("FootnoteText"@);
    reveal_strlit("FootnoteReference");
    is_ascii_chars_encode_utf8("FootnoteReference"@);
    reveal_strlit("w:endnoteRef");
    is_ascii_chars_encode_utf8("w:endnoteRef"@);
    reveal_strlit("w:endnoteReference");
    is_ascii_chars_encode_utf8("w:endnoteReference"@);
    let w = lit("w:footnoteReference");
    let v = lit("w:endnoteReference");
    let s = a + w + b;
    let t = a + v + b;
    assert(lit("w:footnotes")[10] != w[10]);
    assert(w.take(11)[10] == w[10]);
    lemma_word_step(a, w, b, 0x77, lit("w:footnotes"), lit("w:endnotes"));
    assert(lit("w:footnote ")[10] != w[10]);
    assert(w.take(11)[10] == w[10]);
    lemma_word_step(a, w, b, 0x77, lit("w:footnote "), lit("w:endnote "));
    assert(lit("w:footnote>")[10] != w[10]);
    assert(w.take(11)[10] == w[10]);
    lemma_word_step(a, w, b, 0x77, lit("w:footnote>"), lit("w:endnote>"));
    assert(w.take(13) =~= lit("w:footnoteRef"));
    lemma_word_step(a, w, b, 0x77, lit("w:footnoteRef"), lit("w:endnoteRef"));
    assert(lit("w:endnoteRef") + w.skip(13) =~= v);
    assert forall|at: int| !#[trigger] matches_at(t, at, w) by {
        if matches_at(t, at, w) {
            lemma_lonely(a, v, b, 0x77, 0, w, 0, at);
            assert(t.subrange(at, at + w.len())[2] == t[at + 2]);
            assert(t[(a.len() + 2) as int] == v[2]);
        }
    }
    law_nothing_else_is_replaced(t, w, v);
    assert(!t.contains(0x46)) by {
        if t.contains(0x46) {
            let p = choose|p: int| 0 <= p < t.len() && t[p] == 0x46;
            if p < a.len() {
                assert(a[p] == 0x46);
            } else if p < a.len() + v.len() {
                assert(v[p - a.len()] == 0x46);
            } else {
                assert(b[p - a.len() - v.len()] == 0x46);
            }
        }
    }
    lemma_absent(t, 0x46, lit("FootnoteText"), lit("EndnoteText"));
    lemma_absent(t, 0x46, lit("FootnoteReference"), lit("EndnoteReference"));
    reveal_with_fuel(substituted, 8);
    law_names_of_notes();
}

#[verifier::rlimit(60)]
proof fn lemma_back_again(a: Seq<u8>, b: Seq<u8>)
    requires
        !a.contains(0x77) && !a.contains(0x46) && !a.contains(0x45),
        !b.contains(0x77) && !b.contains(0x46) && !b.contains(0x45),
    ensures
        words_swapped(a + lit("w:endnoteReference") + b, NotesKind::Endnotes, NotesKind::Footnotes) == a + lit("w:footnoteReference") + b,
{
    reveal_strlit("w:endnotes");
    is_ascii_chars_encode_utf8("w:endnotes"@);
    reveal_strlit("w:endnote ");
    is_ascii_chars_encode_utf8("w:endnote "@);
    reveal_strlit("w:endnote>");
    is_ascii_chars_encode_utf8("w:endnote>"@);
    reveal_strlit("w:endnoteRef");
    is_ascii_chars_encode_utf8("w:endnoteRef"@);
    reveal_strlit("w:endnoteReference");
    is_ascii_chars_encode_utf8("w:endnoteReference"@);
    reveal_strlit("EndnoteText");
    is_ascii_chars_encode_utf8("EndnoteText"@);
    reveal_strlit("EndnoteReference");
    is_ascii_chars_encode_utf8("EndnoteReference"@);
    reveal_strlit("w:footnoteRef");
    is_ascii_chars_encode_utf8("w:footnoteRef"@);
    reveal_strlit("w:footnoteReference");
    is_ascii_chars_encode_utf8("w:footnoteReference"@);
    let w = lit("w:endnoteReference");
    let v = lit("w:footnoteReference");
    let s = a + w + b;
    let t = a + v + b;
    assert(lit("w:endnotes")[9] != w[9]);
    assert(w.take(10)[9] == w[9]);
    lemma_word_step(a, w, b, 0x77, lit("w:endnotes"), lit("w:footnotes"));
    assert(lit("w:endnote ")[9] != w[9]);
    assert(w.take(10)[9] == w[9]);
    lemma_word_step(a, w, b, 0x77, lit("w:endnote "), lit("w:footnote "));
    assert(lit("w:endnote>")[9] != w[9]);
    assert(w.take(10)[9] == w[9]);
    lemma_word_step(a, w, b, 0x77, lit("w:endnote>"), lit("w:footnote>"));
    assert(w.take(12) =~= lit("w:endnoteRef"));
    lemma_word_step(a, w, b, 0x77, lit("w:endnoteRef"), lit("w:footnoteRef"));
    assert(lit("w:footnoteRef") + w.skip(12) =~= v);
    assert forall|at: int| !#[trigger] matches_at(t, at, w) by {
        if matches_at(t, at, w) {
            lemma_lonely(a, v, b, 0x77, 0, w, 0, at);
            assert(t.subrange(at, at + w.len())[2] == t[at + 2]);
            assert(t[(a.len() + 2) as int] == v[2]);
        }
    }
    law_nothing_else_is_replaced(t, w, v);
    assert(!t.contains(0x45)) by {
        if t.contains(0x45) {
            let p = choose|p: int| 0 <= p < t.len() && t[p] == 0x45;
            if p < a.len() {
                assert(a[p] == 0x45);
            } else if p < a.len() + v.len() {
                assert(v[p - a.len()] == 0x45);
            } else {
                assert(b[p - a.len() - v.len()] == 0x45);
            }
        }
    }
    lemma_absent(t, 0x45, lit("EndnoteText"), lit("FootnoteText"));
    lemma_absent(t, 0x45, lit("EndnoteReference"), lit("FootnoteReference"));
    reveal_with_fuel(substituted, 8);
    law_names_of_notes();
}

// ---------------------------------------------------------------------------
// Tracking attributes
// ---------------------------------------------------------------------------

/// The tracking attributes are the ids of paragraphs and texts, and the session ids of
/// paragraphs, runs, deletions, defaults, rows and sections.
pub proof fn law_tracking_attributes(key: Seq<u8>)
    ensures
        is_rsid_key(key) <==> {
            ||| key == lit("w14:paraId") || key == lit("w14:textId")
            ||| key == lit("w:rsidR") || key == lit("w:rsidRPr") || key == lit("w:rsidRDefault")
            ||| key == lit("w:rsidP")
            ||| key == lit("w:rsidDel")
            ||| key == lit("w:rsidTr")
            ||| key == lit("w:rsidSect")
        },
{
}

/// No tag has a tracking attribute.
pub open spec fn is_untracked(e: Ev) -> bool {
    is_tag(e) ==> forall|k: int|
        0 <= k < tag_attrs(e, true).len() ==> !is_rsid_key((#[trigger] tag_attrs(e, true)[k]).key)
}

proof fn lemma_all_kept(attrs: Seq<At>)
    requires
        forall|k: int| 0 <= k < attrs.len() ==> !is_rsid_key((#[trigger] attrs[k]).key),
    ensures
        kept_attrs(attrs) == attrs,
    decreases attrs.len(),
{
    reveal(Seq::filter);
    if attrs.len() > 0 {
        let init = attrs.drop_last();
        assert forall|k: int| 0 <= k < init.len() implies !is_rsid_key((#[trigger] init[k]).key) by {
            assert(init[k] == attrs[k]);
        }
        lemma_all_kept(init);
        assert(!is_rsid_key(attrs[attrs.len() - 1].key));
        assert(init.push(attrs.last()) =~= attrs);
    } else {
        assert(kept_attrs(attrs) =~= attrs);
    }
}

/// What has no tracking attributes keeps its bytes, and is not counted.
pub proof fn law_untracked_events_keep(before: Seq<Ev>, events: Seq<Ev>)
    requires
        forall|i: int| 0 <= i < events.len() ==> is_untracked(#[trigger] events[i]),
    ensures
        ({
            let (out, n) = rsids_stripped(before);
            rsids_stripped(before + events) == (out + emitted_all(events), n)
        }),
    decreases events.len(),
{
    let (out, n) = rsids_stripped(before);
    if events.len() == 0 {
        assert(before + events =~= before);
        assert(out + emitted_all(events) =~= out);
    } else {
        let init = events.drop_last();
        let e = events.last();
        assert forall|i: int| 0 <= i < init.len() implies is_untracked(#[trigger] init[i]) by {
            assert(init[i] == events[i]);
        }
        assert(is_untracked(events[events.len() - 1]));
        law_untracked_events_keep(before, init);
        assert((before + events).drop_last() =~= before + init);
        assert((before + events).last() == e);
        if is_tag(e) {
            lemma_all_kept(tag_attrs(e, true));
        }
        lemma_emitted_push(init, e);
        assert(init.push(e) =~= events);
        assert(out + emitted_all(events) =~= out + emitted_all(init) + emitted(e));
    }
}

/// A tag with tracking attributes keeps its name and the other attributes, in order, and loses
/// as many as are counted.
pub proof fn law_tracked_tags_lose_only_tracking(before: Seq<Ev>, e: Ev)
    requires
        is_tag(e),
        !is_untracked(e),
    ensures
        ({
            let attrs = tag_attrs(e, true);
            let kept = kept_attrs(attrs);
            let (a, n) = rsids_stripped(before);
            let (b, m) = rsids_stripped(before.push(e));
            &&& kept.len() < attrs.len()
            &&& b == a + emitted(Ev { kind: e.kind, raw: tag_name(e) + attrs_bytes(kept) })
            &&& m == n + (attrs.len() - kept.len())
        }),
{
    let attrs = tag_attrs(e, true);
    let k = choose|k: int|
        0 <= k < attrs.len() && is_rsid_key((#[trigger] attrs[k]).key);
    assert(before.push(e).drop_last() =~= before);
    lemma_some_lost(attrs, k);
}

proof fn lemma_some_lost(attrs: Seq<At>, k: int)
    requires
        0 <= k < attrs.len(),
        is_rsid_key(attrs[k].key),
    ensures
        kept_attrs(attrs).len() < attrs.len(),
    decreases attrs.len(),
{
    reveal(Seq::filter);
    let init = attrs.drop_last();
    law_kept_attrs(init);
    if k < init.len() {
        assert(init[k] == attrs[k]);
        lemma_some_lost(init, k);
    }
}

} // verus!
