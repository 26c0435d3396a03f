//! Conversion between footnotes and endnotes.
//!
//! The part changes its name, the elements and styles change theirs, and the
//! relationship and the content type follow. The strings that are substituted are
//! unique within the OOXML schema.

use vstd::prelude::*;
use vstd::utf8::*;

use crate::bytes::{lit, matches_at, push_str, replace_counting, replaced};
use crate::error::Error;
use crate::ns::{
    CT_ENDNOTES, CT_FOOTNOTES, PART_CONTENT_TYPES, PART_DOCUMENT, PART_DOCUMENT_RELS,
    PART_ENDNOTES, PART_FOOTNOTES, REL_TYPE_ENDNOTES, REL_TYPE_FOOTNOTES,
};
use crate::package::{
    find_part, lemma_find_part, lemma_with_part, lemma_with_renamed, part, with_part, with_renamed,
    Package, Parts,
};
use crate::substitution::{
    all_apart, apart, clear_words, is_clear_of, is_lead_word, lead_words, lemma_back, lemma_lead_words, lemma_no_words, lemma_none_left,
    lemma_one_more, meets, swapped,
};
use crate::text::{chars_of, string_of};

verus! {

/// The kind of notes a package should have.
#[derive(Clone, Copy, Debug, PartialEq, Eq, Hash, Structural)]
pub enum NotesKind {
    /// At the bottom of each page.
    Footnotes,
    /// At the end of the document.
    Endnotes,
}

/// The names that go with a kind of notes.
#[verifier::ext_equal]
pub struct KindNames {
    pub part: Seq<char>,
    pub content_type: Seq<char>,
    pub relationship: Seq<char>,
    /// What stands for the kind in element names and style names, in the order in
    /// which it is substituted.
    pub words: Seq<Seq<u8>>,
}

/// The names that go with a kind of notes.
pub open spec fn kind_names(k: NotesKind) -> KindNames {
    match k {
        NotesKind::Footnotes => KindNames {
            part: PART_FOOTNOTES@,
            content_type: CT_FOOTNOTES@,
            relationship: REL_TYPE_FOOTNOTES@,
            words: seq![
                lit("w:footnotes"),
                lit("w:footnote "),
                lit("w:footnote>"),
                lit("w:footnoteRef"),
                lit("w:footnoteReference"),
                lit("FootnoteText"),
                lit("FootnoteReference"),
            ],
        },
        NotesKind::Endnotes => KindNames {
            part: PART_ENDNOTES@,
            content_type: CT_ENDNOTES@,
            relationship: REL_TYPE_ENDNOTES@,
            words: seq![
                lit("w:endnotes"),
                lit("w:endnote "),
                lit("w:endnote>"),
                lit("w:endnoteRef"),
                lit("w:endnoteReference"),
                lit("EndnoteText"),
                lit("EndnoteReference"),
            ],
        },
    }
}

/// The first `n` words substituted, one after the other.
pub open spec fn substituted(data: Seq<u8>, from: Seq<Seq<u8>>, to: Seq<Seq<u8>>, n: int) -> Seq<u8>
    decreases n,
{
    if n <= 0 {
        data
    } else {
        replaced(substituted(data, from, to, n - 1), from[n - 1], to[n - 1])
    }
}

/// The text with the words of one kind replaced by those of another.
pub open spec fn words_swapped(data: Seq<u8>, from: NotesKind, to: NotesKind) -> Seq<u8> {
    substituted(data, kind_names(from).words, kind_names(to).words, 7)
}

/// The first position of what follows the last slash before `to`.
pub open spec fn after_slash(s: Seq<char>, to: int) -> int
    decreases to,
{
    if to <= 0 || s[to - 1] == '/' {
        if to <= 0 {
            0
        } else {
            to
        }
    } else {
        after_slash(s, to - 1)
    }
}

/// The last segment of a path.
pub open spec fn file_name(s: Seq<char>) -> Seq<char> {
    s.skip(after_slash(s, s.len() as int))
}

/// The relationships with the type and the target of one kind replaced.
pub open spec fn rels_swapped(data: Seq<u8>, from: NotesKind, to: NotesKind) -> Seq<u8> {
    let a = kind_names(from);
    let b = kind_names(to);
    replaced(
        replaced(data, encode_utf8(a.relationship), encode_utf8(b.relationship)),
        lit("Target=\"") + encode_utf8(file_name(a.part)),
        lit("Target=\"") + encode_utf8(file_name(b.part)),
    )
}

/// The content types with the type and the part name of one kind replaced.
pub open spec fn types_swapped(data: Seq<u8>, from: NotesKind, to: NotesKind) -> Seq<u8> {
    let a = kind_names(from);
    let b = kind_names(to);
    replaced(
        replaced(data, encode_utf8(a.content_type), encode_utf8(b.content_type)),
        lit("/") + encode_utf8(a.part) + lit("\""),
        lit("/") + encode_utf8(b.part) + lit("\""),
    )
}

/// The parts with the contents of one part changed.
pub open spec fn with_mapped(parts: Parts, name: Seq<char>, f: spec_fn(Seq<u8>) -> Seq<u8>) -> Parts {
    match part(parts, name) {
        Some(data) => with_part(parts, name, f(data)),
        None => parts,
    }
}

/// The parts with the notes of one kind turned into the other.
pub open spec fn notes_converted(parts: Parts, from: NotesKind, to: NotesKind) -> Parts {
    let words = |d: Seq<u8>| words_swapped(d, from, to);
    let p1 = with_mapped(parts, kind_names(from).part, words);
    let p2 = with_renamed(p1, kind_names(from).part, kind_names(to).part);
    let p3 = with_mapped(p2, PART_DOCUMENT@, words);
    let p4 = with_mapped(p3, PART_DOCUMENT_RELS@, |d: Seq<u8>| rels_swapped(d, from, to));
    with_mapped(p4, PART_CONTENT_TYPES@, |d: Seq<u8>| types_swapped(d, from, to))
}

/// The other kind of notes.
pub open spec fn other_kind(k: NotesKind) -> NotesKind {
    match k {
        NotesKind::Footnotes => NotesKind::Endnotes,
        NotesKind::Endnotes => NotesKind::Footnotes,
    }
}

/// What conversion to a kind gives: nothing changes where the package already has
/// notes of that kind, or no notes at all.
pub open spec fn as_kind(parts: Parts, target: NotesKind) -> Parts {
    if part(parts, kind_names(target).part) is None && part(
        parts,
        kind_names(other_kind(target)).part,
    ) is Some {
        notes_converted(parts, other_kind(target), target)
    } else {
        parts
    }
}

/// Replaces every occurrence of `needle`.
pub fn replace_all(data: &mut Vec<u8>, needle: &[u8], replacement: &[u8])
    ensures
        final(data)@ == replaced(old(data)@, needle@, replacement@),
{
    replace_counting(data, needle, replacement);
}

/// The last segment of a path.
pub fn last_segment(path: &str) -> (r: String)
    ensures
        r@ == file_name(path@),
{
    let chars = chars_of(path);
    let mut n: usize = chars.len();
    while n > 0 && chars[n - 1] != '/'
        invariant
            n <= chars@.len(),
            chars@ == path@,
            after_slash(path@, path@.len() as int) == after_slash(path@, n as int),
        decreases n,
    {
        n -= 1;
    }
    assert(chars@.subrange(n as int, chars@.len() as int) =~= path@.skip(n as int));
    string_of(vstd::slice::slice_subrange(chars.as_slice(), n, chars.len()))
}

struct Names {
    part: &'static str,
    content_type: &'static str,
    relationship: &'static str,
    words: Vec<&'static str>,
}

/// The names that go with a kind of notes.
fn names_of(k: NotesKind) -> (r: Names)
    ensures
        r.part@ == kind_names(k).part,
        r.content_type@ == kind_names(k).content_type,
        r.relationship@ == kind_names(k).relationship,
        r.words@.len() == 7,
        kind_names(k).words.len() == 7,
        forall|i: int| 0 <= i < 7 ==> lit(#[trigger] r.words@[i]) == kind_names(k).words[i],
{
    match k {
        NotesKind::Footnotes => Names {
            part: PART_FOOTNOTES,
            content_type: CT_FOOTNOTES,
            relationship: REL_TYPE_FOOTNOTES,
            words: vec![
                "w:footnotes",
                "w:footnote ",
                "w:footnote>",
                "w:footnoteRef",
                "w:footnoteReference",
                "FootnoteText",
                "FootnoteReference",
            ],
        },
        NotesKind::Endnotes => Names {
            part: PART_ENDNOTES,
            content_type: CT_ENDNOTES,
            relationship: REL_TYPE_ENDNOTES,
            words: vec![
                "w:endnotes",
                "w:endnote ",
                "w:endnote>",
                "w:endnoteRef",
                "w:endnoteReference",
                "EndnoteText",
                "EndnoteReference",
            ],
        },
    }
}

fn swap_words(data: &mut Vec<u8>, from: NotesKind, to: NotesKind)
    ensures
        final(data)@ == words_swapped(old(data)@, from, to),
{
    let a = names_of(from);
    let b = names_of(to);
    let mut i: usize = 0;
    while i < 7
        invariant
            i <= 7,
            a.words@.len() == 7,
            b.words@.len() == 7,
            forall|j: int| 0 <= j < 7 ==> lit(#[trigger] a.words@[j]) == kind_names(from).words[j],
            forall|j: int| 0 <= j < 7 ==> lit(#[trigger] b.words@[j]) == kind_names(to).words[j],
            data@ == substituted(
                old(data)@,
                kind_names(from).words,
                kind_names(to).words,
                i as int,
            ),
        decreases 7 - i,
    {
        replace_all(data, a.words[i].as_bytes(), b.words[i].as_bytes());
        i += 1;
    }
}

fn joined(before: &str, middle: &str, after: &str) -> (r: Vec<u8>)
    ensures
        r@ == lit(before) + lit(middle) + lit(after),
{
    let mut r: Vec<u8> = Vec::new();
    push_str(&mut r, before);
    push_str(&mut r, middle);
    push_str(&mut r, after);
    assert(r@ =~= lit(before) + lit(middle) + lit(after));
    r
}

fn swap_in_part(pkg: &mut Package, name: &str, from: NotesKind, to: NotesKind)
    ensures
        final(pkg)@ == with_mapped(old(pkg)@, name@, |d: Seq<u8>| words_swapped(d, from, to)),
        final(pkg).source_view() == old(pkg).source_view(),
{
    if let Some(data) = pkg.get_part_mut(name) {
        swap_words(data, from, to);
    }
}

fn swap_rels(pkg: &mut Package, from: NotesKind, to: NotesKind)
    ensures
        final(pkg)@ == with_mapped(
            old(pkg)@,
            PART_DOCUMENT_RELS@,
            |d: Seq<u8>| rels_swapped(d, from, to),
        ),
        final(pkg).source_view() == old(pkg).source_view(),
{
    let a = names_of(from);
    let b = names_of(to);
    let old_target = joined("Target=\"", &last_segment(a.part), "");
    let new_target = joined("Target=\"", &last_segment(b.part), "");
    proof {
        reveal_strlit("");
        vstd::utf8::is_ascii_chars_encode_utf8(""@);
        assert(lit("") =~= Seq::<u8>::empty());
        assert(old_target@ =~= lit("Target=\"") + encode_utf8(file_name(a.part@)));
        assert(new_target@ =~= lit("Target=\"") + encode_utf8(file_name(b.part@)));
    }
    if let Some(data) = pkg.get_part_mut(PART_DOCUMENT_RELS) {
        replace_all(data, a.relationship.as_bytes(), b.relationship.as_bytes());
        replace_all(data, &old_target, &new_target);
    }
}

fn swap_types(pkg: &mut Package, from: NotesKind, to: NotesKind)
    ensures
        final(pkg)@ == with_mapped(
            old(pkg)@,
            PART_CONTENT_TYPES@,
            |d: Seq<u8>| types_swapped(d, from, to),
        ),
        final(pkg).source_view() == old(pkg).source_view(),
{
    let a = names_of(from);
    let b = names_of(to);
    let old_name = joined("/", a.part, "\"");
    let new_name = joined("/", b.part, "\"");
    if let Some(data) = pkg.get_part_mut(PART_CONTENT_TYPES) {
        replace_all(data, a.content_type.as_bytes(), b.content_type.as_bytes());
        replace_all(data, &old_name, &new_name);
    }
}

fn convert(pkg: &mut Package, from: NotesKind, to: NotesKind)
    ensures
        final(pkg)@ == notes_converted(old(pkg)@, from, to),
        final(pkg).source_view() == old(pkg).source_view(),
{
    let src = names_of(from).part;
    let dst = names_of(to).part;
    swap_in_part(pkg, src, from, to);
    pkg.rename_part(src, dst);
    swap_in_part(pkg, PART_DOCUMENT, from, to);
    swap_rels(pkg, from, to);
    swap_types(pkg, from, to);
}

/// Converts the notes of a package to a kind. Nothing changes where the package
/// already has notes of that kind, or no notes at all.
pub fn convert_notes_kind(pkg: &mut Package, target: NotesKind) -> (res: Result<(), Error>)
    ensures
        res is Ok,
        final(pkg)@ == as_kind(old(pkg)@, target),
        final(pkg).source_view() == old(pkg).source_view(),
{
    let has_footnotes = pkg.get_part(PART_FOOTNOTES).is_some();
    let has_endnotes = pkg.get_part(PART_ENDNOTES).is_some();
    match target {
        NotesKind::Endnotes => {
            if has_footnotes && !has_endnotes {
                convert(pkg, NotesKind::Footnotes, NotesKind::Endnotes);
            }
        },
        NotesKind::Footnotes => {
            if has_endnotes && !has_footnotes {
                convert(pkg, NotesKind::Endnotes, NotesKind::Footnotes);
            }
        },
    }
    Ok(())
}

// ---------------------------------------------------------------------------
// Laws
// ---------------------------------------------------------------------------

/// None of the words of a kind stands in the bytes.
pub open spec fn free_of(data: Seq<u8>, kind: NotesKind) -> bool {
    forall|at: int, i: int|
        0 <= i < kind_names(kind).words.len() ==> !#[trigger] matches_at(
            data,
            at,
            #[trigger] kind_names(kind).words[i],
        )
}

proof fn lemma_words()
    ensures
        ({
            let f = kind_names(NotesKind::Footnotes).words;
            let e = kind_names(NotesKind::Endnotes).words;
            &&& lead_words(f, e)
            &&& lead_words(e, f)
            &&& forall|i: int| 0 <= i < 4 ==> (#[trigger] f[i]).len() > 10
            &&& forall|i: int| 0 <= i < 4 ==> (#[trigger] e[i]).len() > 9
            &&& f[4].len() > 10 && e[4].len() > 9
            &&& f[3].len() <= f[4].len() && e[3].len() <= e[4].len()
            &&& f[5].len() > 8 && f[6].len() > 8
            &&& e[5].len() > 7 && e[6].len() > 7
            &&& forall|i: int| 0 <= i < 5 ==> (#[trigger] f[i])[0] == 0x77 && f[i][2] == 0x66
            &&& forall|i: int| 0 <= i < 5 ==> (#[trigger] e[i])[0] == 0x77 && e[i][2] == 0x65
            &&& f[5][0] == 0x46 && f[6][0] == 0x46 && e[5][0] == 0x45 && e[6][0] == 0x45
            &&& f[0][10] == 0x73 && f[1][10] == 0x20 && f[2][10] == 0x3e
            &&& f[3][10] == 0x52 && f[4][10] == 0x52
            &&& e[0][9] == 0x73 && e[1][9] == 0x20 && e[2][9] == 0x3e
            &&& e[3][9] == 0x52 && e[4][9] == 0x52
            &&& f[5][8] != f[6][8] && e[5][7] != e[6][7]
            &&& !apart(f[3], f[4]) && !apart(e[3], e[4])
        }),
{
    reveal_strlit("w:footnotes");
    reveal_strlit("w:footnote ");
    reveal_strlit("w:footnote>");
    reveal_strlit("w:footnoteRef");
    reveal_strlit("w:footnoteReference");
    reveal_strlit("FootnoteText");
    reveal_strlit("FootnoteReference");
    reveal_strlit("w:endnotes");
    reveal_strlit("w:endnote ");
    reveal_strlit("w:endnote>");
    reveal_strlit("w:endnoteRef");
    reveal_strlit("w:endnoteReference");
    reveal_strlit("EndnoteText");
    reveal_strlit("EndnoteReference");
    is_ascii_chars_encode_utf8("w:footnotes"@);
    is_ascii_chars_encode_utf8("w:footnote "@);
    is_ascii_chars_encode_utf8("w:footnote>"@);
    is_ascii_chars_encode_utf8("w:footnoteRef"@);
    is_ascii_chars_encode_utf8("w:footnoteReference"@);
    is_ascii_chars_encode_utf8("FootnoteText"@);
    is_ascii_chars_encode_utf8("FootnoteReference"@);
    is_ascii_chars_encode_utf8("w:endnotes"@);
    is_ascii_chars_encode_utf8("w:endnote "@);
    is_ascii_chars_encode_utf8("w:endnote>"@);
    is_ascii_chars_encode_utf8("w:endnoteRef"@);
    is_ascii_chars_encode_utf8("w:endnoteReference"@);
    is_ascii_chars_encode_utf8("EndnoteText"@);
    is_ascii_chars_encode_utf8("EndnoteReference"@);
    let f = kind_names(NotesKind::Footnotes).words;
    let e = kind_names(NotesKind::Endnotes).words;
    assert(is_lead_word(f[0]) && is_lead_word(f[1]) && is_lead_word(f[2]) && is_lead_word(f[3]));
    assert(is_lead_word(f[4]) && is_lead_word(f[5]) && is_lead_word(f[6]));
    assert(is_lead_word(e[0]) && is_lead_word(e[1]) && is_lead_word(e[2]) && is_lead_word(e[3]));
    assert(is_lead_word(e[4]) && is_lead_word(e[5]) && is_lead_word(e[6]));
}

/// The words of one kind are apart from those of the other.
proof fn lemma_words_apart(from: NotesKind, to: NotesKind)
    requires
        from != to,
    ensures
        clear_words(kind_names(from).words, kind_names(to).words),
        all_apart(kind_names(from).words, kind_names(to).words),
        kind_names(from).words.len() == 7,
        forall|i: int, j: int|
            0 <= i < j < 7 && !apart(
                #[trigger] kind_names(to).words[i],
                #[trigger] kind_names(to).words[j],
            ) ==> !apart(kind_names(from).words[i], kind_names(from).words[j])
                && kind_names(from).words[i].len() <= kind_names(from).words[j].len(),
{
    lemma_words();
    let a = kind_names(from).words;
    let b = kind_names(to).words;
    lemma_lead_words(a, b);
    assert forall|i: int, j: int| 0 <= i < a.len() && 0 <= j < b.len() implies apart(
        #[trigger] a[i],
        #[trigger] b[j],
    ) by {
        if i < 5 && j < 5 {
            assert(a[i][2] != b[j][2]);
        } else {
            assert(a[i][0] != b[j][0]);
        }
    }
    let k = if to == NotesKind::Footnotes {
        10int
    } else {
        9int
    };
    let l = if to == NotesKind::Footnotes {
        8int
    } else {
        7int
    };
    assert forall|i: int, j: int|
        0 <= i < j < 7 && !apart(#[trigger] b[i], #[trigger] b[j]) implies !apart(a[i], a[j])
        && a[i].len() <= a[j].len() by {
        if i == 3 && j == 4 {
        } else if j < 5 {
            assert(b[i][k] != b[j][k]);
        } else if i < 5 {
            assert(b[i][0] != b[j][0]);
        } else {
            assert(b[i][l] != b[j][l]);
        }
    }
}

/// The substitutions are one pass.
proof fn lemma_one_pass(data: Seq<u8>, from: NotesKind, to: NotesKind, n: int)
    requires
        from != to,
        0 <= n <= 7,
    ensures
        substituted(data, kind_names(from).words, kind_names(to).words, n) == swapped(
            data,
            kind_names(from).words,
            kind_names(to).words,
            n,
        ),
    decreases n,
{
    lemma_words_apart(from, to);
    if n == 0 {
        lemma_no_words(data, kind_names(from).words, kind_names(to).words);
    } else {
        lemma_one_pass(data, from, to, n - 1);
        lemma_one_more(data, kind_names(from).words, kind_names(to).words, n - 1);
    }
}

/// The words of one kind, replaced by those of the other and back, are as they were,
/// where none of the others stood there before.
pub proof fn law_words_back(data: Seq<u8>, from: NotesKind, to: NotesKind)
    requires
        from != to,
        free_of(data, to),
    ensures
        words_swapped(words_swapped(data, from, to), to, from) == data,
{
    lemma_words_apart(from, to);
    lemma_words_apart(to, from);
    let there = words_swapped(data, from, to);
    lemma_one_pass(data, from, to, 7);
    lemma_one_pass(there, to, from, 7);
    lemma_back(data, kind_names(from).words, kind_names(to).words);
}

/// After a conversion, none of the words of the former kind is left.
pub proof fn law_words_gone(data: Seq<u8>, from: NotesKind, to: NotesKind)
    requires
        from != to,
    ensures
        free_of(words_swapped(data, from, to), from),
{
    lemma_words_apart(from, to);
    lemma_one_pass(data, from, to, 7);
    let words = kind_names(from).words;
    assert forall|at: int, i: int| 0 <= i < words.len() implies !#[trigger] matches_at(
        words_swapped(data, from, to),
        at,
        #[trigger] words[i],
    ) by {
        lemma_none_left(data, words, kind_names(to).words, i, at);
    }
}

/// What stands for a kind in the relationships, in the order in which it is substituted.
pub open spec fn rel_words(k: NotesKind) -> Seq<Seq<u8>> {
    seq![
        encode_utf8(kind_names(k).relationship),
        lit("Target=\"") + encode_utf8(file_name(kind_names(k).part)),
    ]
}

/// What stands for a kind in the content types, in the order in which it is substituted.
pub open spec fn type_words(k: NotesKind) -> Seq<Seq<u8>> {
    seq![
        encode_utf8(kind_names(k).content_type),
        lit("/") + encode_utf8(kind_names(k).part) + lit("\""),
    ]
}

/// None of the words stands in the bytes.
pub open spec fn free_of_words(data: Seq<u8>, words: Seq<Seq<u8>>) -> bool {
    forall|at: int, i: int|
        0 <= i < words.len() ==> !#[trigger] matches_at(data, at, #[trigger] words[i])
}

/// The first two bytes of a word come up together nowhere else in it, and its first byte is
/// not its last.
spec fn starts_once(w: Seq<u8>) -> bool {
    &&& w.len() > 1
    &&& w.last() != w[0]
    &&& forall|k: int| 0 < k < w.len() - 1 && #[trigger] w[k] == w[0] ==> w[k + 1] != w[1]
}

proof fn lemma_starts_once(a: Seq<u8>, b: Seq<u8>)
    requires
        starts_once(a),
        b.len() > 1,
        b[0] == a[0],
        b[1] == a[1],
    ensures
        is_clear_of(a, b),
{
    assert forall|k: int| 0 < k < a.len() implies !#[trigger] meets(a, b, k) by {
        if meets(a, b, k) {
            assert(a[k + 0] == b[0]);
            if k + 1 < a.len() {
                assert(a[k + 1] == b[1]);
            }
        }
    }
}

/// A byte that the word does not hold behind its start cannot start another in it.
proof fn lemma_no_such_byte(a: Seq<u8>, b: Seq<u8>)
    requires
        b.len() > 0,
        forall|k: int| 0 < k < a.len() ==> #[trigger] a[k] != b[0],
    ensures
        is_clear_of(a, b),
{
    assert forall|k: int| 0 < k < a.len() implies !#[trigger] meets(a, b, k) by {
        assert(a[k + 0] != b[0]);
    }
}

proof fn lemma_file_names()
    ensures
        file_name(PART_FOOTNOTES@) == "footnotes.xml"@,
        file_name(PART_ENDNOTES@) == "endnotes.xml"@,
{
    reveal_strlit("word/footnotes.xml");
    reveal_strlit("word/endnotes.xml");
    reveal_strlit("footnotes.xml");
    reveal_strlit("endnotes.xml");
    reveal_with_fuel(after_slash, 16);
    assert(after_slash(PART_FOOTNOTES@, 18) == 5);
    assert(after_slash(PART_ENDNOTES@, 17) == 5);
    assert(file_name(PART_FOOTNOTES@) =~= "footnotes.xml"@);
    assert(file_name(PART_ENDNOTES@) =~= "endnotes.xml"@);
}

#[verifier::rlimit(100)]
#[verifier::spinoff_prover]
proof fn lemma_rel_footnotes()
    ensures
        encode_utf8(REL_TYPE_FOOTNOTES@).len() > 68,
        encode_utf8(REL_TYPE_FOOTNOTES@)[0] == 0x68,
        encode_utf8(REL_TYPE_FOOTNOTES@)[1] == 0x74,
        encode_utf8(REL_TYPE_FOOTNOTES@)[68] == 0x66,
        starts_once(encode_utf8(REL_TYPE_FOOTNOTES@)),
        forall|i: int|
            0 <= i < encode_utf8(REL_TYPE_FOOTNOTES@).len() ==> #[trigger] encode_utf8(REL_TYPE_FOOTNOTES@)[i] != 0x54,
{
    reveal_strlit("http://schemas.openxmlformats.org/officeDocument/2006/relationships/footnotes");
    is_ascii_chars_encode_utf8(REL_TYPE_FOOTNOTES@);
}

#[verifier::rlimit(100)]
#[verifier::spinoff_prover]
proof fn lemma_rel_endnotes()
    ensures
        encode_utf8(REL_TYPE_ENDNOTES@).len() > 68,
        encode_utf8(REL_TYPE_ENDNOTES@)[0] == 0x68,
        encode_utf8(REL_TYPE_ENDNOTES@)[1] == 0x74,
        encode_utf8(REL_TYPE_ENDNOTES@)[68] == 0x65,
        starts_once(encode_utf8(REL_TYPE_ENDNOTES@)),
        forall|i: int|
            0 <= i < encode_utf8(REL_TYPE_ENDNOTES@).len() ==> #[trigger] encode_utf8(REL_TYPE_ENDNOTES@)[i] != 0x54,
{
    reveal_strlit("http://schemas.openxmlformats.org/officeDocument/2006/relationships/endnotes");
    is_ascii_chars_encode_utf8(REL_TYPE_ENDNOTES@);
}

#[verifier::rlimit(100)]
#[verifier::spinoff_prover]
proof fn lemma_type_footnotes()
    ensures
        encode_utf8(CT_FOOTNOTES@).len() > 63,
        encode_utf8(CT_FOOTNOTES@)[0] == 0x61,
        encode_utf8(CT_FOOTNOTES@)[1] == 0x70,
        encode_utf8(CT_FOOTNOTES@)[63] == 0x66,
        starts_once(encode_utf8(CT_FOOTNOTES@)),
        encode_utf8(CT_FOOTNOTES@).last() != 0x2f,
        forall|i: int|
            0 <= i < encode_utf8(CT_FOOTNOTES@).len() - 1 && #[trigger] encode_utf8(CT_FOOTNOTES@)[i] == 0x2f
                ==> encode_utf8(CT_FOOTNOTES@)[i + 1] != 0x77,
{
    reveal_strlit("application/vnd.openxmlformats-officedocument.wordprocessingml.footnotes+xml");
    is_ascii_chars_encode_utf8(CT_FOOTNOTES@);
}

#[verifier::rlimit(100)]
#[verifier::spinoff_prover]
proof fn lemma_type_endnotes()
    ensures
        encode_utf8(CT_ENDNOTES@).len() > 63,
        encode_utf8(CT_ENDNOTES@)[0] == 0x61,
        encode_utf8(CT_ENDNOTES@)[1] == 0x70,
        encode_utf8(CT_ENDNOTES@)[63] == 0x65,
        starts_once(encode_utf8(CT_ENDNOTES@)),
        encode_utf8(CT_ENDNOTES@).last() != 0x2f,
        forall|i: int|
            0 <= i < encode_utf8(CT_ENDNOTES@).len() - 1 && #[trigger] encode_utf8(CT_ENDNOTES@)[i] == 0x2f
                ==> encode_utf8(CT_ENDNOTES@)[i + 1] != 0x77,
{
    reveal_strlit("application/vnd.openxmlformats-officedocument.wordprocessingml.endnotes+xml");
    is_ascii_chars_encode_utf8(CT_ENDNOTES@);
}

#[verifier::rlimit(100)]
#[verifier::spinoff_prover]
proof fn lemma_targets()
    ensures
        ({
            let f = rel_words(NotesKind::Footnotes)[1];
            let e = rel_words(NotesKind::Endnotes)[1];
            &&& f.len() > 8 && e.len() > 8
            &&& f[0] == 0x54 && e[0] == 0x54
            &&& f[8] == 0x66 && e[8] == 0x65
            &&& forall|i: int| 0 < i < f.len() ==> #[trigger] f[i] != 0x54 && f[i] != 0x68
            &&& forall|i: int| 0 < i < e.len() ==> #[trigger] e[i] != 0x54 && e[i] != 0x68
        }),
{
    lemma_file_names();
    reveal_strlit("footnotes.xml");
    reveal_strlit("endnotes.xml");
    reveal_strlit("Target=\"");
    is_ascii_chars_encode_utf8("footnotes.xml"@);
    is_ascii_chars_encode_utf8("endnotes.xml"@);
    is_ascii_chars_encode_utf8("Target=\""@);
}

#[verifier::rlimit(100)]
#[verifier::spinoff_prover]
proof fn lemma_part_words()
    ensures
        ({
            let f = type_words(NotesKind::Footnotes)[1];
            let e = type_words(NotesKind::Endnotes)[1];
            &&& starts_once(f) && starts_once(e)
            &&& f.len() > 6 && e.len() > 6
            &&& f[0] == 0x2f && e[0] == 0x2f && f[1] == 0x77 && e[1] == 0x77
            &&& f[6] == 0x66 && e[6] == 0x65
            &&& forall|i: int| 0 <= i < f.len() ==> #[trigger] f[i] != 0x61
            &&& forall|i: int| 0 <= i < e.len() ==> #[trigger] e[i] != 0x61
        }),
{
    reveal_strlit("word/footnotes.xml");
    reveal_strlit("word/endnotes.xml");
    reveal_strlit("/");
    reveal_strlit("\"");
    is_ascii_chars_encode_utf8(PART_FOOTNOTES@);
    is_ascii_chars_encode_utf8(PART_ENDNOTES@);
    is_ascii_chars_encode_utf8("/"@);
    is_ascii_chars_encode_utf8("\""@);
}

/// Two words whose start comes up nowhere else in either.
proof fn lemma_slash_words(a: Seq<u8>, b: Seq<u8>)
    requires
        a.len() > 0,
        a.last() != 0x2f,
        forall|i: int| 0 <= i < a.len() - 1 && #[trigger] a[i] == 0x2f ==> a[i + 1] != 0x77,
        b.len() > 1,
        b[0] == 0x2f,
        b[1] == 0x77,
    ensures
        is_clear_of(a, b),
{
    assert forall|k: int| 0 < k < a.len() implies !#[trigger] meets(a, b, k) by {
        if meets(a, b, k) {
            assert(a[k + 0] == b[0]);
            if k + 1 < a.len() {
                assert(a[k + 1] == b[1]);
            }
        }
    }
}

/// The words of the relationships are apart from each other.
proof fn lemma_rel_words(from: NotesKind, to: NotesKind)
    requires
        from != to,
    ensures
        clear_words(rel_words(from), rel_words(to)),
        all_apart(rel_words(from), rel_words(to)),
        apart(rel_words(to)[0], rel_words(to)[1]),
{
    lemma_rel_footnotes();
    lemma_rel_endnotes();
    lemma_targets();
    let a = rel_words(from);
    let b = rel_words(to);
    lemma_starts_once(a[0], a[0]);
    lemma_starts_once(a[0], b[0]);
    lemma_starts_once(b[0], a[0]);
    lemma_starts_once(b[0], b[0]);
    lemma_no_such_byte(a[0], a[1]);
    lemma_no_such_byte(a[0], b[1]);
    lemma_no_such_byte(b[0], a[1]);
    lemma_no_such_byte(b[0], b[1]);
    lemma_no_such_byte(a[1], a[0]);
    lemma_no_such_byte(a[1], b[0]);
    lemma_no_such_byte(b[1], a[0]);
    lemma_no_such_byte(b[1], b[0]);
    lemma_no_such_byte(a[1], a[1]);
    lemma_no_such_byte(a[1], b[1]);
    lemma_no_such_byte(b[1], a[1]);
    lemma_no_such_byte(b[1], b[1]);
    assert(a[0][68] != b[0][68]);
    assert(a[1][8] != b[1][8]);
    assert(a[0][0] != b[1][0]);
    assert(a[1][0] != b[0][0]);
    assert(b[0][0] != b[1][0]);
}

/// The words of the content types are apart from each other.
proof fn lemma_type_words(from: NotesKind, to: NotesKind)
    requires
        from != to,
    ensures
        clear_words(type_words(from), type_words(to)),
        all_apart(type_words(from), type_words(to)),
        apart(type_words(to)[0], type_words(to)[1]),
{
    lemma_type_footnotes();
    lemma_type_endnotes();
    lemma_part_words();
    let a = type_words(from);
    let b = type_words(to);
    lemma_starts_once(a[0], a[0]);
    lemma_starts_once(a[0], b[0]);
    lemma_starts_once(b[0], a[0]);
    lemma_starts_once(b[0], b[0]);
    lemma_slash_words(a[0], a[1]);
    lemma_slash_words(a[0], b[1]);
    lemma_slash_words(b[0], a[1]);
    lemma_slash_words(b[0], b[1]);
    lemma_no_such_byte(a[1], a[0]);
    lemma_no_such_byte(a[1], b[0]);
    lemma_no_such_byte(b[1], a[0]);
    lemma_no_such_byte(b[1], b[0]);
    lemma_starts_once(a[1], a[1]);
    lemma_starts_once(a[1], b[1]);
    lemma_starts_once(b[1], a[1]);
    lemma_starts_once(b[1], b[1]);
    assert(a[0][63] != b[0][63]);
    assert(a[1][6] != b[1][6]);
    assert(a[0][0] != b[1][0]);
    assert(a[1][0] != b[0][0]);
    assert(b[0][0] != b[1][0]);
}

/// Two substitutions one after the other, and back.
proof fn lemma_two_back(data: Seq<u8>, a: Seq<Seq<u8>>, b: Seq<Seq<u8>>)
    requires
        a.len() == 2,
        clear_words(a, b),
        clear_words(b, a),
        all_apart(a, b),
        all_apart(b, a),
        apart(b[0], b[1]),
        free_of_words(data, b),
    ensures
        ({
            let there = replaced(replaced(data, a[0], b[0]), a[1], b[1]);
            replaced(replaced(there, b[0], a[0]), b[1], a[1]) == data
        }),
{
    let there = replaced(replaced(data, a[0], b[0]), a[1], b[1]);
    lemma_no_words(data, a, b);
    lemma_one_more(data, a, b, 0);
    lemma_one_more(data, a, b, 1);
    lemma_no_words(there, b, a);
    lemma_one_more(there, b, a, 0);
    lemma_one_more(there, b, a, 1);
    lemma_back(data, a, b);
}

/// The relationships, with the names of one kind replaced by those of the other and back,
/// are as they were, where none of the others stood there before.
pub proof fn law_rels_back(data: Seq<u8>, from: NotesKind, to: NotesKind)
    requires
        from != to,
        free_of_words(data, rel_words(to)),
    ensures
        rels_swapped(rels_swapped(data, from, to), to, from) == data,
{
    lemma_rel_words(from, to);
    lemma_rel_words(to, from);
    lemma_two_back(data, rel_words(from), rel_words(to));
}

/// The content types, with the names of one kind replaced by those of the other and back,
/// are as they were, where none of the others stood there before.
pub proof fn law_types_back(data: Seq<u8>, from: NotesKind, to: NotesKind)
    requires
        from != to,
        free_of_words(data, type_words(to)),
    ensures
        types_swapped(types_swapped(data, from, to), to, from) == data,
{
    lemma_type_words(from, to);
    lemma_type_words(to, from);
    lemma_two_back(data, type_words(from), type_words(to));
}

/// A part with its contents changed, and every other part as it was.
pub proof fn lemma_with_mapped(parts: Parts, name: Seq<char>, f: spec_fn(Seq<u8>) -> Seq<u8>)
    ensures
        part(with_mapped(parts, name, f), name) == match part(parts, name) {
            Some(data) => Some(f(data)),
            None => None,
        },
        forall|other: Seq<char>|
            other != name ==> #[trigger] part(with_mapped(parts, name, f), other) == part(
                parts,
                other,
            ),
{
    if let Some(data) = part(parts, name) {
        lemma_with_part(parts, name, f(data));
    }
}

/// The parts that a conversion changes are distinct.
pub proof fn lemma_part_names()
    ensures
        PART_FOOTNOTES@ != PART_ENDNOTES@,
        PART_FOOTNOTES@ != PART_DOCUMENT@,
        PART_ENDNOTES@ != PART_DOCUMENT@,
        PART_FOOTNOTES@ != PART_DOCUMENT_RELS@,
        PART_ENDNOTES@ != PART_DOCUMENT_RELS@,
        PART_DOCUMENT@ != PART_DOCUMENT_RELS@,
        PART_FOOTNOTES@ != PART_CONTENT_TYPES@,
        PART_ENDNOTES@ != PART_CONTENT_TYPES@,
        PART_DOCUMENT@ != PART_CONTENT_TYPES@,
{
    reveal_strlit("word/footnotes.xml");
    reveal_strlit("word/endnotes.xml");
    reveal_strlit("word/document.xml");
    reveal_strlit("word/_rels/document.xml.rels");
    reveal_strlit("[Content_Types].xml");
    assert(PART_ENDNOTES@[5] != PART_DOCUMENT@[5]);
    assert(PART_FOOTNOTES@.len() != PART_ENDNOTES@.len());
}

/// The notes and the main document of a package after a conversion.
proof fn lemma_converted(parts: Parts, from: NotesKind, to: NotesKind)
    requires
        from != to,
        part(parts, kind_names(from).part) is Some,
        part(parts, kind_names(to).part) is None,
    ensures
        ({
            let after = notes_converted(parts, from, to);
            &&& part(after, kind_names(to).part) == Some(
                words_swapped(part(parts, kind_names(from).part)->0, from, to),
            )
            &&& parts_unique(parts, kind_names(from).part) ==> part(
                after,
                kind_names(from).part,
            ) is None && parts_unique(after, kind_names(to).part)
            &&& part(after, PART_DOCUMENT@) == match part(parts, PART_DOCUMENT@) {
                Some(d) => Some(words_swapped(d, from, to)),
                None => None,
            }
        }),
{
    lemma_part_names();
    let words = |d: Seq<u8>| words_swapped(d, from, to);
    let a = kind_names(from).part;
    let b = kind_names(to).part;
    let rels = |d: Seq<u8>| rels_swapped(d, from, to);
    let types = |d: Seq<u8>| types_swapped(d, from, to);
    let p1 = with_mapped(parts, a, words);
    lemma_with_mapped(parts, a, words);
    let unique = parts_unique(parts, a);
    if unique {
        lemma_unique_mapped(parts, a, words, a);
    }
    let p2 = with_renamed(p1, a, b);
    lemma_with_renamed(p1, a, b);
    if unique {
        lemma_renamed_away(p1, a, b);
        lemma_unique_mapped(p2, PART_DOCUMENT@, words, b);
    }
    let p3 = with_mapped(p2, PART_DOCUMENT@, words);
    lemma_with_mapped(p2, PART_DOCUMENT@, words);
    let p4 = with_mapped(p3, PART_DOCUMENT_RELS@, rels);
    lemma_with_mapped(p3, PART_DOCUMENT_RELS@, rels);
    lemma_with_mapped(p4, PART_CONTENT_TYPES@, types);
    if unique {
        lemma_unique_mapped(p3, PART_DOCUMENT_RELS@, rels, b);
        lemma_unique_mapped(p4, PART_CONTENT_TYPES@, types, b);
    }
}

/// At most one part has the name.
pub open spec fn parts_unique(parts: Parts, name: Seq<char>) -> bool {
    forall|i: int, j: int|
        0 <= i < j < parts.len() ==> !((#[trigger] parts[i]).0 == name && (#[trigger] parts[j]).0
            == name)
}

proof fn lemma_unique_mapped(
    parts: Parts,
    name: Seq<char>,
    f: spec_fn(Seq<u8>) -> Seq<u8>,
    other: Seq<char>,
)
    requires
        parts_unique(parts, other),
    ensures
        parts_unique(with_mapped(parts, name, f), other),
{
    if let Some(data) = part(parts, name) {
        let after = with_mapped(parts, name, f);
        lemma_find_part(parts, name, 0);
        assert forall|i: int, j: int| 0 <= i < j < after.len() implies !((
        #[trigger] after[i]).0 == other && (#[trigger] after[j]).0 == other) by {
            assert(after[i].0 == parts[i].0);
            assert(after[j].0 == parts[j].0);
        }
    }
}

/// A part that was the only one of its name has left that name once it is renamed.
proof fn lemma_renamed_away(parts: Parts, from: Seq<char>, to: Seq<char>)
    requires
        from != to,
        part(parts, from) is Some,
        part(parts, to) is None,
        parts_unique(parts, from),
    ensures
        part(with_renamed(parts, from, to), from) is None,
        parts_unique(with_renamed(parts, from, to), to),
{
    let after = with_renamed(parts, from, to);
    lemma_find_part(parts, from, 0);
    lemma_find_part(parts, to, 0);
    lemma_find_part(after, from, 0);
    let k = find_part(parts, from, 0)->0;
    if find_part(after, from, 0) is Some {
        let i = find_part(after, from, 0)->0;
        assert(after[i].0 == from);
        assert(i != k);
        assert(parts[i].0 == from);
        if i < k {
            assert(parts[k].0 == from);
        } else {
            assert(parts[k].0 == from);
        }
    }
    assert forall|i: int, j: int| 0 <= i < j < after.len() implies !((#[trigger] after[i]).0 == to
        && (#[trigger] after[j]).0 == to) by {
        if i != k {
            assert(after[i] == parts[i]);
        }
        if j != k {
            assert(after[j] == parts[j]);
        }
    }
}

/// A package that has been converted to a kind is not changed by converting it to that
/// kind again.
pub proof fn law_conversion_again(parts: Parts, target: NotesKind)
    ensures
        as_kind(as_kind(parts, target), target) == as_kind(parts, target),
{
    if part(parts, kind_names(target).part) is None && part(
        parts,
        kind_names(other_kind(target)).part,
    ) is Some {
        lemma_converted(parts, other_kind(target), target);
    }
}

/// The part at an index with its contents changed.
spec fn mapped_at(parts: Parts, i: Option<int>, f: spec_fn(Seq<u8>) -> Seq<u8>) -> Parts {
    match i {
        Some(i) => parts.update(i, (parts[i].0, f(parts[i].1))),
        None => parts,
    }
}

/// The same names in the same order.
spec fn same_names(a: Parts, b: Parts) -> bool {
    a.len() == b.len() && forall|i: int| 0 <= i < a.len() ==> (#[trigger] a[i]).0 == b[i].0
}

proof fn lemma_same_find(a: Parts, b: Parts, name: Seq<char>)
    requires
        a.len() == b.len(),
        forall|i: int| 0 <= i < a.len() ==> ((#[trigger] a[i]).0 == name) == (b[i].0 == name),
    ensures
        find_part(a, name, 0) == find_part(b, name, 0),
{
    lemma_find_part(a, name, 0);
    lemma_find_part(b, name, 0);
    if let Some(i) = find_part(a, name, 0) {
        assert(b[i].0 == name);
    }
    if let Some(i) = find_part(b, name, 0) {
        assert(a[i].0 == name);
    }
}

/// What a conversion does, part by part.
#[verifier::rlimit(40)]
proof fn lemma_converted_at(parts: Parts, from: NotesKind, to: NotesKind)
    requires
        from != to,
        part(parts, kind_names(from).part) is Some,
    ensures
        ({
            let words = |d: Seq<u8>| words_swapped(d, from, to);
            let i = find_part(parts, kind_names(from).part, 0)->0;
            let p2 = parts.update(i, (kind_names(to).part, words(parts[i].1)));
            let p3 = mapped_at(p2, find_part(parts, PART_DOCUMENT@, 0), words);
            let p4 = mapped_at(
                p3,
                find_part(parts, PART_DOCUMENT_RELS@, 0),
                |d: Seq<u8>| rels_swapped(d, from, to),
            );
            let p5 = mapped_at(
                p4,
                find_part(parts, PART_CONTENT_TYPES@, 0),
                |d: Seq<u8>| types_swapped(d, from, to),
            );
            &&& notes_converted(parts, from, to) == p5
            &&& 0 <= i < parts.len()
            &&& same_names(p5, p2)
        }),
{
    lemma_part_names();
    lemma_rels_name();
    let words = |d: Seq<u8>| words_swapped(d, from, to);
    let rels = |d: Seq<u8>| rels_swapped(d, from, to);
    let types = |d: Seq<u8>| types_swapped(d, from, to);
    let a = kind_names(from).part;
    let b = kind_names(to).part;
    lemma_find_part(parts, a, 0);
    let i = find_part(parts, a, 0)->0;
    let p1 = with_mapped(parts, a, words);
    lemma_same_find(p1, parts, a);
    let p2 = with_renamed(p1, a, b);
    assert(p2 =~= parts.update(i, (b, words(parts[i].1))));
    lemma_same_find(p2, parts, PART_DOCUMENT@);
    lemma_find_part(p2, PART_DOCUMENT@, 0);
    let p3 = with_mapped(p2, PART_DOCUMENT@, words);
    assert(p3 =~= mapped_at(p2, find_part(parts, PART_DOCUMENT@, 0), words));
    lemma_same_find(p3, parts, PART_DOCUMENT_RELS@);
    lemma_find_part(p3, PART_DOCUMENT_RELS@, 0);
    let p4 = with_mapped(p3, PART_DOCUMENT_RELS@, rels);
    assert(p4 =~= mapped_at(p3, find_part(parts, PART_DOCUMENT_RELS@, 0), rels));
    lemma_same_find(p4, parts, PART_CONTENT_TYPES@);
    lemma_find_part(p4, PART_CONTENT_TYPES@, 0);
    let p5 = with_mapped(p4, PART_CONTENT_TYPES@, types);
    assert(p5 =~= mapped_at(p4, find_part(parts, PART_CONTENT_TYPES@, 0), types));
}

proof fn lemma_rels_name()
    ensures
        PART_DOCUMENT_RELS@ != PART_CONTENT_TYPES@,
{
    reveal_strlit("word/_rels/document.xml.rels");
    reveal_strlit("[Content_Types].xml");
    assert(PART_DOCUMENT_RELS@.len() != PART_CONTENT_TYPES@.len());
}

/// Neither the notes of a package nor what refers to them uses the names of a kind.
pub open spec fn package_free_of(parts: Parts, kind: NotesKind) -> bool {
    &&& part(parts, kind_names(other_kind(kind)).part) matches Some(d) ==> free_of(d, kind)
    &&& part(parts, PART_DOCUMENT@) matches Some(d) ==> free_of(d, kind)
    &&& part(parts, PART_DOCUMENT_RELS@) matches Some(d) ==> free_of_words(d, rel_words(kind))
    &&& part(parts, PART_CONTENT_TYPES@) matches Some(d) ==> free_of_words(d, type_words(kind))
}

/// Conversion is reversible: a package that is converted to the other kind of notes and back
/// is as it was, part by part and in the same order, where it did not use the names of the
/// other kind before.
#[verifier::rlimit(40)]
pub proof fn law_conversion_is_reversible(parts: Parts, kind: NotesKind)
    requires
        part(parts, kind_names(kind).part) is Some,
        part(parts, kind_names(other_kind(kind)).part) is None,
        parts_unique(parts, kind_names(kind).part),
        package_free_of(parts, other_kind(kind)),
    ensures
        as_kind(as_kind(parts, other_kind(kind)), kind) == parts,
{
    lemma_part_names();
    lemma_rels_name();
    let other = other_kind(kind);
    let a = kind_names(kind).part;
    let b = kind_names(other).part;
    lemma_converted(parts, kind, other);
    lemma_converted_at(parts, kind, other);
    let there = notes_converted(parts, kind, other);
    lemma_converted_at(there, other, kind);
    let back = notes_converted(there, other, kind);
    let i = find_part(parts, a, 0)->0;
    lemma_find_part(parts, b, 0);
    lemma_find_part(parts, a, 0);
    lemma_find_part(there, b, 0);
    assert(there[i].0 == b);
    let k = find_part(there, b, 0)->0;
    assert(k == i) by {
        if k != i {
            assert(there[k].0 == parts[k].0);
        }
    }
    lemma_same_find(there, parts, PART_DOCUMENT@);
    lemma_same_find(there, parts, PART_DOCUMENT_RELS@);
    lemma_same_find(there, parts, PART_CONTENT_TYPES@);
    lemma_find_part(parts, PART_DOCUMENT@, 0);
    lemma_find_part(parts, PART_DOCUMENT_RELS@, 0);
    lemma_find_part(parts, PART_CONTENT_TYPES@, 0);
    law_words_back(parts[i].1, kind, other);
    if let Some(d) = part(parts, PART_DOCUMENT@) {
        law_words_back(d, kind, other);
    }
    if let Some(d) = part(parts, PART_DOCUMENT_RELS@) {
        law_rels_back(d, kind, other);
    }
    if let Some(d) = part(parts, PART_CONTENT_TYPES@) {
        law_types_back(d, kind, other);
    }
    assert(back =~= parts);
}

/// A conversion turns every part that speaks of notes: the notes part has the other name, and
/// none of the words of the former kind is left in it, nor in the document, the relationships
/// and the content types. Every other part stays as it was.
pub proof fn law_conversion_reaches_every_part(parts: Parts, target: NotesKind)
    requires
        part(parts, kind_names(target).part) is None,
        part(parts, kind_names(other_kind(target)).part) is Some,
        parts_unique(parts, kind_names(other_kind(target)).part),
    ensures
        ({
            let from = other_kind(target);
            let after = as_kind(parts, target);
            &&& part(after, kind_names(from).part) is None
            &&& part(after, kind_names(target).part) is Some
            &&& free_of(part(after, kind_names(target).part)->0, from)
            &&& part(parts, PART_DOCUMENT@) is Some ==> part(after, PART_DOCUMENT@) is Some
                && free_of(part(after, PART_DOCUMENT@)->0, from)
            &&& part(parts, PART_DOCUMENT_RELS@) matches Some(d) ==> part(
                after,
                PART_DOCUMENT_RELS@,
            ) == Some(rels_swapped(d, from, target))
            &&& part(parts, PART_CONTENT_TYPES@) matches Some(d) ==> part(
                after,
                PART_CONTENT_TYPES@,
            ) == Some(types_swapped(d, from, target))
            &&& forall|other: Seq<char>|
                other != PART_FOOTNOTES@ && other != PART_ENDNOTES@ && other != PART_DOCUMENT@
                    && other != PART_DOCUMENT_RELS@ && other != PART_CONTENT_TYPES@
                    ==> #[trigger] part(after, other) == part(parts, other)
        }),
{
    let from = other_kind(target);
    let a = kind_names(from).part;
    let b = kind_names(target).part;
    lemma_part_names();
    lemma_converted(parts, from, target);
    law_words_gone(part(parts, a)->0, from, target);
    if let Some(d) = part(parts, PART_DOCUMENT@) {
        law_words_gone(d, from, target);
    }
    let words = |d: Seq<u8>| words_swapped(d, from, target);
    let rels = |d: Seq<u8>| rels_swapped(d, from, target);
    let types = |d: Seq<u8>| types_swapped(d, from, target);
    let p1 = with_mapped(parts, a, words);
    let p2 = with_renamed(p1, a, b);
    let p3 = with_mapped(p2, PART_DOCUMENT@, words);
    let p4 = with_mapped(p3, PART_DOCUMENT_RELS@, rels);
    lemma_with_mapped(parts, a, words);
    lemma_with_renamed(p1, a, b);
    lemma_with_mapped(p2, PART_DOCUMENT@, words);
    lemma_with_mapped(p3, PART_DOCUMENT_RELS@, rels);
    lemma_with_mapped(p4, PART_CONTENT_TYPES@, types);
    assert(PART_CONTENT_TYPES@ != PART_DOCUMENT_RELS@) by {
        reveal_strlit("word/_rels/document.xml.rels");
        reveal_strlit("[Content_Types].xml");
        assert(PART_CONTENT_TYPES@[0] != PART_DOCUMENT_RELS@[0]);
    }
}

/// Two substitutions one after the other leave none of the words.
proof fn lemma_two_gone(data: Seq<u8>, a: Seq<Seq<u8>>, b: Seq<Seq<u8>>)
    requires
        a.len() == 2,
        clear_words(a, b),
        all_apart(a, b),
        apart(a[0], a[1]),
    ensures
        free_of_words(replaced(replaced(data, a[0], b[0]), a[1], b[1]), a),
{
    let there = replaced(replaced(data, a[0], b[0]), a[1], b[1]);
    lemma_no_words(data, a, b);
    lemma_one_more(data, a, b, 0);
    lemma_one_more(data, a, b, 1);
    assert forall|at: int, i: int| 0 <= i < a.len() implies !#[trigger] matches_at(
        there,
        at,
        #[trigger] a[i],
    ) by {
        lemma_none_left(data, a, b, i, at);
    }
}

/// In the relationships none of the names of the former kind is left.
pub proof fn law_rel_names_gone(data: Seq<u8>, from: NotesKind, to: NotesKind)
    requires
        from != to,
    ensures
        free_of_words(rels_swapped(data, from, to), rel_words(from)),
{
    lemma_rel_words(from, to);
    lemma_rel_words(to, from);
    lemma_two_gone(data, rel_words(from), rel_words(to));
}

/// In the content types none of the names of the former kind is left.
pub proof fn law_type_names_gone(data: Seq<u8>, from: NotesKind, to: NotesKind)
    requires
        from != to,
    ensures
        free_of_words(types_swapped(data, from, to), type_words(from)),
{
    lemma_type_words(from, to);
    lemma_type_words(to, from);
    lemma_two_gone(data, type_words(from), type_words(to));
}

} // verus!
