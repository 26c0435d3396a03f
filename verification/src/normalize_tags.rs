//! Renaming of the non-standard tags that Apple's `textutil` writes.
//!
//! `textutil` emits `<w:sz-cs>`, `<w:b-cs>` and `<w:i-cs>`, which are not part of the
//! OOXML schema; the standard names are `<w:szCs>`, `<w:bCs>` and `<w:iCs>`.

use vstd::prelude::*;

use crate::bytes::{
    add_capped, capped, lemma_replaced_without_occurrence, lit, matches_at, occurrences,
    replace_counting, replaced,
};
use crate::error::Error;
use crate::ns::{PART_DOCUMENT, PART_ENDNOTES, PART_FOOTNOTES};
use crate::package::{
    find_part, lemma_find_part, lemma_with_part, part, with_part, Package, Parts,
};
use crate::story::lemma_story_names;
use crate::substitution::{
    all_apart, apart, clear_words, find_word, is_lead_word, lemma_find_word, lemma_lead_words,
    lemma_no_occurrence, lemma_no_words, lemma_none_left, lemma_one_more, lemma_same_count, swapped,
};

verus! {

/// The bytes with the three tags renamed.
pub open spec fn tags_renamed(data: Seq<u8>) -> Seq<u8> {
    replaced(
        replaced(
            replaced(data, lit("w:sz-cs"), lit("w:szCs")),
            lit("w:b-cs"),
            lit("w:bCs"),
        ),
        lit("w:i-cs"),
        lit("w:iCs"),
    )
}

/// How many renamings that takes.
pub open spec fn tag_renamings(data: Seq<u8>) -> nat {
    let a = replaced(data, lit("w:sz-cs"), lit("w:szCs"));
    let b = replaced(a, lit("w:b-cs"), lit("w:bCs"));
    occurrences(data, lit("w:sz-cs")) + occurrences(a, lit("w:b-cs")) + occurrences(
        b,
        lit("w:i-cs"),
    )
}

/// The parts with the tags of one part renamed.
pub open spec fn part_renamed(parts: Parts, name: Seq<char>) -> Parts {
    match part(parts, name) {
        Some(data) => with_part(parts, name, tags_renamed(data)),
        None => parts,
    }
}

/// How many renamings one part takes.
pub open spec fn part_renamings(parts: Parts, name: Seq<char>) -> nat {
    match part(parts, name) {
        Some(data) => tag_renamings(data),
        None => 0,
    }
}

/// Replaces every occurrence of `needle` by something no longer, and counts the
/// replacements.
pub fn replace_in_place(data: &mut Vec<u8>, needle: &[u8], replacement: &[u8]) -> (n: usize)
    requires
        replacement@.len() <= needle@.len(),
    ensures
        final(data)@ == replaced(old(data)@, needle@, replacement@),
        n == occurrences(old(data)@, needle@),
{
    replace_counting(data, needle, replacement)
}

proof fn lemma_renames_shrink()
    ensures
        lit("w:szCs").len() <= lit("w:sz-cs").len(),
        lit("w:bCs").len() <= lit("w:b-cs").len(),
        lit("w:iCs").len() <= lit("w:i-cs").len(),
{
    reveal_strlit("w:szCs");
    reveal_strlit("w:sz-cs");
    reveal_strlit("w:bCs");
    reveal_strlit("w:b-cs");
    reveal_strlit("w:iCs");
    reveal_strlit("w:i-cs");
    vstd::utf8::is_ascii_chars_encode_utf8("w:szCs"@);
    vstd::utf8::is_ascii_chars_encode_utf8("w:sz-cs"@);
    vstd::utf8::is_ascii_chars_encode_utf8("w:bCs"@);
    vstd::utf8::is_ascii_chars_encode_utf8("w:b-cs"@);
    vstd::utf8::is_ascii_chars_encode_utf8("w:iCs"@);
    vstd::utf8::is_ascii_chars_encode_utf8("w:i-cs"@);
}

fn rename_part_tags(pkg: &mut Package, name: &str) -> (n: usize)
    ensures
        final(pkg)@ == part_renamed(old(pkg)@, name@),
        final(pkg).source_view() == old(pkg).source_view(),
        n == capped(part_renamings(old(pkg)@, name@) as int),
{
    proof {
        lemma_renames_shrink();
    }
    let mut data: Vec<u8> = match pkg.get_part(name) {
        None => return 0,
        Some(d) => crate::bytes::to_vec(d),
    };
    let a: usize = replace_in_place(&mut data, "w:sz-cs".as_bytes(), "w:szCs".as_bytes());
    let b: usize = replace_in_place(&mut data, "w:b-cs".as_bytes(), "w:bCs".as_bytes());
    let c: usize = replace_in_place(&mut data, "w:i-cs".as_bytes(), "w:iCs".as_bytes());
    pkg.set_part(name, data);
    add_capped(add_capped(a, b), c)
}

/// Renames the non-standard tags of the main document, the footnotes and the
/// endnotes. Returns how many renamings were made.
pub fn normalize_tags(pkg: &mut Package) -> (res: Result<usize, Error>)
    ensures
        final(pkg).source_view() == old(pkg).source_view(),
        ({
            let p1 = part_renamed(old(pkg)@, PART_DOCUMENT@);
            let p2 = part_renamed(p1, PART_FOOTNOTES@);
            &&& final(pkg)@ == part_renamed(p2, PART_ENDNOTES@)
            &&& res is Ok
            &&& res->Ok_0 == capped(
                (part_renamings(old(pkg)@, PART_DOCUMENT@) + part_renamings(p1, PART_FOOTNOTES@)
                    + part_renamings(p2, PART_ENDNOTES@)) as int,
            )
        }),
        res->Ok_0 == capped(
            (old_tags_in(old(pkg)@, PART_DOCUMENT@) + old_tags_in(old(pkg)@, PART_FOOTNOTES@)
                + old_tags_in(old(pkg)@, PART_ENDNOTES@)) as int,
        ),
{
    proof {
        law_old_tags_are_counted(pkg@);
    }
    let a: usize = rename_part_tags(pkg, PART_DOCUMENT);
    let b: usize = rename_part_tags(pkg, PART_FOOTNOTES);
    let c: usize = rename_part_tags(pkg, PART_ENDNOTES);
    Ok(add_capped(add_capped(a, b), c))
}

// ---------------------------------------------------------------------------
// Laws
// ---------------------------------------------------------------------------

/// The non-standard tags.
pub open spec fn old_tags() -> Seq<Seq<u8>> {
    seq![lit("w:sz-cs"), lit("w:b-cs"), lit("w:i-cs")]
}

/// The standard tags.
pub open spec fn new_tags() -> Seq<Seq<u8>> {
    seq![lit("w:szCs"), lit("w:bCs"), lit("w:iCs")]
}

proof fn lemma_tags()
    ensures
        clear_words(old_tags(), new_tags()),
        all_apart(old_tags(), new_tags()),
{
    lemma_renames_shrink();
    reveal_strlit("w:szCs");
    reveal_strlit("w:sz-cs");
    reveal_strlit("w:bCs");
    reveal_strlit("w:b-cs");
    reveal_strlit("w:iCs");
    reveal_strlit("w:i-cs");
    vstd::utf8::is_ascii_chars_encode_utf8("w:szCs"@);
    vstd::utf8::is_ascii_chars_encode_utf8("w:sz-cs"@);
    vstd::utf8::is_ascii_chars_encode_utf8("w:bCs"@);
    vstd::utf8::is_ascii_chars_encode_utf8("w:b-cs"@);
    vstd::utf8::is_ascii_chars_encode_utf8("w:iCs"@);
    vstd::utf8::is_ascii_chars_encode_utf8("w:i-cs"@);
    let old = old_tags();
    let new = new_tags();
    assert(is_lead_word(old[0]) && is_lead_word(old[1]) && is_lead_word(old[2]));
    assert(is_lead_word(new[0]) && is_lead_word(new[1]) && is_lead_word(new[2]));
    lemma_lead_words(old, new);
    assert forall|i: int, j: int| 0 <= i < old.len() && 0 <= j < new.len() implies apart(
        #[trigger] old[i],
        #[trigger] new[j],
    ) by {
        if i == j {
            let k = if i == 0 {
                4int
            } else {
                3int
            };
            assert(old[i][k] != new[j][k]);
        } else {
            assert(old[i][2] != new[j][2]);
        }
    }
}

/// The three renamings are one pass.
proof fn lemma_one_pass(data: Seq<u8>)
    ensures
        tags_renamed(data) == swapped(data, old_tags(), new_tags(), 3),
{
    lemma_tags();
    lemma_no_words(data, old_tags(), new_tags());
    lemma_one_more(data, old_tags(), new_tags(), 0);
    lemma_one_more(data, old_tags(), new_tags(), 1);
    lemma_one_more(data, old_tags(), new_tags(), 2);
}

/// Every one of the non-standard tags is renamed, and counted once: the count is the
/// number of times that they stand in the bytes.
pub proof fn law_every_tag_counts(data: Seq<u8>)
    ensures
        tag_renamings(data) == occurrences(data, lit("w:sz-cs")) + occurrences(data, lit("w:b-cs"))
            + occurrences(data, lit("w:i-cs")),
{
    lemma_tags();
    lemma_renames_shrink();
    let old = old_tags();
    let new = new_tags();
    reveal_strlit("w:sz-cs");
    reveal_strlit("w:b-cs");
    reveal_strlit("w:i-cs");
    vstd::utf8::is_ascii_chars_encode_utf8("w:sz-cs"@);
    vstd::utf8::is_ascii_chars_encode_utf8("w:b-cs"@);
    vstd::utf8::is_ascii_chars_encode_utf8("w:i-cs"@);
    assert forall|i: int, j: int| 0 <= i < j < 3 implies apart(
        #[trigger] old[j],
        #[trigger] old[i],
    ) by {
        assert(old[j][2] != old[i][2]);
    }
    lemma_no_words(data, old, new);
    lemma_one_more(data, old, new, 0);
    lemma_one_more(data, old, new, 1);
    lemma_same_count(data, old, new, 1);
    lemma_same_count(data, old, new, 2);
}

/// After a renaming, none of the non-standard tags is left, and renaming again renames
/// nothing.
pub proof fn law_no_old_tags(data: Seq<u8>)
    ensures
        forall|at: int, i: int|
            0 <= i < 3 ==> !#[trigger] matches_at(
                tags_renamed(data),
                at,
                #[trigger] old_tags()[i],
            ),
        tag_renamings(tags_renamed(data)) == 0,
        tags_renamed(tags_renamed(data)) == tags_renamed(data),
{
    lemma_tags();
    lemma_one_pass(data);
    let out = tags_renamed(data);
    assert forall|at: int, i: int| 0 <= i < 3 implies !#[trigger] matches_at(
        out,
        at,
        #[trigger] old_tags()[i],
    ) by {
        lemma_none_left(data, old_tags(), new_tags(), i, at);
    }
    assert forall|i: int| 0 <= i < 3 implies occurrences(out, #[trigger] old_tags()[i]) == 0 by {
        assert forall|at: int| !#[trigger] matches_at(out, at, old_tags()[i]) by {
            assert(!matches_at(out, at, old_tags()[i]));
        }
        lemma_no_occurrence(out, old_tags()[i]);
    }
    assert(occurrences(out, old_tags()[0]) == 0);
    assert(occurrences(out, old_tags()[1]) == 0);
    assert(occurrences(out, old_tags()[2]) == 0);
    lemma_replaced_without_occurrence(out, lit("w:sz-cs"), lit("w:szCs"));
    lemma_replaced_without_occurrence(out, lit("w:b-cs"), lit("w:bCs"));
    lemma_replaced_without_occurrence(out, lit("w:i-cs"), lit("w:iCs"));
}

/// How many of the non-standard tags stand in a part.
pub open spec fn old_tags_in(parts: Parts, name: Seq<char>) -> nat {
    match part(parts, name) {
        Some(data) => occurrences(data, lit("w:sz-cs")) + occurrences(data, lit("w:b-cs"))
            + occurrences(data, lit("w:i-cs")),
        None => 0,
    }
}

/// The number of renamings in a package is that of the non-standard tags that stood in its
/// main document, its footnotes and its endnotes.
pub proof fn law_old_tags_are_counted(parts: Parts)
    ensures
        ({
            let p1 = part_renamed(parts, PART_DOCUMENT@);
            let p2 = part_renamed(p1, PART_FOOTNOTES@);
            part_renamings(parts, PART_DOCUMENT@) + part_renamings(p1, PART_FOOTNOTES@)
                + part_renamings(p2, PART_ENDNOTES@) == old_tags_in(parts, PART_DOCUMENT@)
                + old_tags_in(parts, PART_FOOTNOTES@) + old_tags_in(parts, PART_ENDNOTES@)
        }),
{
    lemma_story_names();
    let p1 = part_renamed(parts, PART_DOCUMENT@);
    law_renaming_again(parts, PART_DOCUMENT@);
    law_renaming_again(p1, PART_FOOTNOTES@);
    if let Some(data) = part(parts, PART_DOCUMENT@) {
        law_every_tag_counts(data);
    }
    if let Some(data) = part(parts, PART_FOOTNOTES@) {
        law_every_tag_counts(data);
    }
    if let Some(data) = part(parts, PART_ENDNOTES@) {
        law_every_tag_counts(data);
    }
}

/// Renaming the tags of a part again renames nothing, and changes nothing.
pub proof fn law_renaming_again(parts: Parts, name: Seq<char>)
    ensures
        part_renamings(part_renamed(parts, name), name) == 0,
        part_renamed(part_renamed(parts, name), name) == part_renamed(parts, name),
        forall|other: Seq<char>|
            other != name ==> #[trigger] part(part_renamed(parts, name), other) == part(
                parts,
                other,
            ),
{
    if let Some(data) = part(parts, name) {
        law_no_old_tags(data);
        lemma_with_part(parts, name, tags_renamed(data));
        let after = part_renamed(parts, name);
        lemma_find_part(after, name, 0);
        let i = find_part(after, name, 0)->0;
        assert(after.update(i, (name, tags_renamed(data))) =~= after);
    }
}

/// Each non-standard tag becomes the standard tag of its own name, and every other byte stays.
pub proof fn law_tags_become_standard(first: u8, rest: Seq<u8>)
    ensures
        tags_renamed(lit("w:sz-cs") + rest) == lit("w:szCs") + tags_renamed(rest),
        tags_renamed(lit("w:b-cs") + rest) == lit("w:bCs") + tags_renamed(rest),
        tags_renamed(lit("w:i-cs") + rest) == lit("w:iCs") + tags_renamed(rest),
        tags_renamed(Seq::empty()) == Seq::<u8>::empty(),
        ({
            let s = seq![first] + rest;
            (forall|i: int| 0 <= i < 3 ==> !matches_at(s, 0, #[trigger] old_tags()[i]))
                ==> tags_renamed(s) == seq![first] + tags_renamed(rest)
        }),
{
    lemma_one_pass(rest);
    lemma_one_pass(Seq::empty());
    lemma_tag_becomes(rest, 0);
    lemma_tag_becomes(rest, 1);
    lemma_tag_becomes(rest, 2);
    let s = seq![first] + rest;
    if forall|i: int| 0 <= i < 3 ==> !matches_at(s, 0, #[trigger] old_tags()[i]) {
        lemma_one_pass(s);
        lemma_find_word(s, old_tags(), 3);
        if let Some(i) = find_word(s, old_tags(), 3) {
            assert(!matches_at(s, 0, old_tags()[i]));
        }
        assert(s.skip(1) =~= rest);
    }
}

proof fn lemma_tag_becomes(rest: Seq<u8>, i: int)
    requires
        0 <= i < 3,
    ensures
        tags_renamed(old_tags()[i] + rest) == new_tags()[i] + tags_renamed(rest),
{
    let old = old_tags();
    let s = old[i] + rest;
    lemma_one_pass(rest);
    lemma_one_pass(s);
    lemma_find_word(s, old, 3);
    reveal_strlit("w:sz-cs");
    reveal_strlit("w:b-cs");
    reveal_strlit("w:i-cs");
    vstd::utf8::is_ascii_chars_encode_utf8("w:sz-cs"@);
    vstd::utf8::is_ascii_chars_encode_utf8("w:b-cs"@);
    vstd::utf8::is_ascii_chars_encode_utf8("w:i-cs"@);
    assert(old[0][2] == 0x73 && old[1][2] == 0x62 && old[2][2] == 0x69);
    assert(s.subrange(0, old[i].len() as int) =~= old[i]);
    assert(matches_at(s, 0, old[i]));
    assert(s[2] == old[i][2]);
    if let Some(j) = find_word(s, old, 3) {
        assert(s.subrange(0, old[j].len() as int)[2] == old[j][2]);
        assert(j == i);
    }
    assert(s.skip(old[i].len() as int) =~= rest);
}

} // verus!
