//! Passes over the parts that hold the text of a document.

use vstd::prelude::*;

use crate::ns::{PART_DOCUMENT, PART_ENDNOTES, PART_FOOTNOTES};
use crate::package::{lemma_with_part, part, with_part, Parts};
use crate::xml::{xml_events, xml_readable, Ev};

verus! {

/// How far a pass over the parts has come.
#[verifier::ext_equal]
pub struct Pass {
    /// The parts as they are now.
    pub parts: Parts,
    /// How many changes have been made.
    pub count: nat,
    /// The part that could not be read, which ends the pass.
    pub failed: Option<Seq<char>>,
}

/// A rewriting of the events of a part: the new bytes and the number of changes.
pub type Rewriting = spec_fn(Seq<Ev>) -> (Seq<u8>, nat);

/// The pass after one more part. A part in which nothing changes is left alone.
pub open spec fn pass_part(p: Pass, name: Seq<char>, f: Rewriting) -> Pass {
    if p.failed is Some {
        p
    } else {
        match part(p.parts, name) {
            None => p,
            Some(data) => if !xml_readable(data) {
                Pass { failed: Some(name), ..p }
            } else {
                let (out, n) = f(xml_events(data));
                if n == 0 {
                    p
                } else {
                    Pass { parts: with_part(p.parts, name, out), count: p.count + n, ..p }
                }
            },
        }
    }
}

/// A pass over the main document, the footnotes and the endnotes.
pub open spec fn pass_story(parts: Parts, f: Rewriting) -> Pass {
    let p = Pass { parts, count: 0, failed: None };
    pass_part(
        pass_part(pass_part(p, PART_DOCUMENT@, f), PART_FOOTNOTES@, f),
        PART_ENDNOTES@,
        f,
    )
}

/// The three parts are distinct.
pub proof fn lemma_story_names()
    ensures
        PART_DOCUMENT@ != PART_FOOTNOTES@,
        PART_DOCUMENT@ != PART_ENDNOTES@,
        PART_FOOTNOTES@ != PART_ENDNOTES@,
{
    reveal_strlit("word/footnotes.xml");
    reveal_strlit("word/endnotes.xml");
    reveal_strlit("word/document.xml");
    assert(PART_ENDNOTES@[5] != PART_DOCUMENT@[5]);
    assert(PART_FOOTNOTES@.len() != PART_ENDNOTES@.len());
}

/// A pass over one part leaves every other part as it was.
pub proof fn lemma_pass_part(p: Pass, name: Seq<char>, f: Rewriting)
    ensures
        forall|other: Seq<char>|
            other != name ==> #[trigger] part(pass_part(p, name, f).parts, other) == part(
                p.parts,
                other,
            ),
{
    if p.failed is None {
        if let Some(data) = part(p.parts, name) {
            let (out, n) = f(xml_events(data));
            lemma_with_part(p.parts, name, out);
        }
    }
}

/// A pass over the text leaves every part that holds none of it as it was.
pub proof fn law_other_parts_stay(parts: Parts, f: Rewriting, other: Seq<char>)
    requires
        other != PART_DOCUMENT@,
        other != PART_FOOTNOTES@,
        other != PART_ENDNOTES@,
    ensures
        part(pass_story(parts, f).parts, other) == part(parts, other),
{
    let p = Pass { parts, count: 0, failed: None };
    let p1 = pass_part(p, PART_DOCUMENT@, f);
    let p2 = pass_part(p1, PART_FOOTNOTES@, f);
    lemma_pass_part(p, PART_DOCUMENT@, f);
    lemma_pass_part(p1, PART_FOOTNOTES@, f);
    lemma_pass_part(p2, PART_ENDNOTES@, f);
}

/// What a rewriting makes of a part: its new bytes where something changes.
pub open spec fn rewritten_part(data: Option<Seq<u8>>, f: Rewriting) -> Option<Seq<u8>> {
    match data {
        None => None,
        Some(d) => {
            let (out, n) = f(xml_events(d));
            if n == 0 {
                Some(d)
            } else {
                Some(out)
            }
        },
    }
}

/// How many changes a rewriting makes in a part.
pub open spec fn changes_in(data: Option<Seq<u8>>, f: Rewriting) -> nat {
    match data {
        None => 0,
        Some(d) => f(xml_events(d)).1,
    }
}

proof fn lemma_own_part(p: Pass, name: Seq<char>, f: Rewriting)
    requires
        p.failed is None,
        pass_part(p, name, f).failed is None,
    ensures
        part(pass_part(p, name, f).parts, name) == rewritten_part(part(p.parts, name), f),
        pass_part(p, name, f).count == p.count + changes_in(part(p.parts, name), f),
{
    if let Some(data) = part(p.parts, name) {
        lemma_with_part(p.parts, name, f(xml_events(data)).0);
    }
}

/// A pass rewrites the main document, the footnotes and the endnotes, each for itself, and
/// counts the changes in all three.
pub proof fn law_every_story_part_is_rewritten(parts: Parts, f: Rewriting)
    requires
        pass_story(parts, f).failed is None,
    ensures
        ({
            let p = pass_story(parts, f);
            &&& part(p.parts, PART_DOCUMENT@) == rewritten_part(part(parts, PART_DOCUMENT@), f)
            &&& part(p.parts, PART_FOOTNOTES@) == rewritten_part(part(parts, PART_FOOTNOTES@), f)
            &&& part(p.parts, PART_ENDNOTES@) == rewritten_part(part(parts, PART_ENDNOTES@), f)
            &&& p.count == changes_in(part(parts, PART_DOCUMENT@), f) + changes_in(
                part(parts, PART_FOOTNOTES@),
                f,
            ) + changes_in(part(parts, PART_ENDNOTES@), f)
        }),
{
    lemma_story_names();
    let p0 = Pass { parts, count: 0, failed: None };
    let p1 = pass_part(p0, PART_DOCUMENT@, f);
    let p2 = pass_part(p1, PART_FOOTNOTES@, f);
    assert(p1.failed is None && p2.failed is None);
    lemma_pass_part(p0, PART_DOCUMENT@, f);
    lemma_pass_part(p1, PART_FOOTNOTES@, f);
    lemma_pass_part(p2, PART_ENDNOTES@, f);
    lemma_own_part(p0, PART_DOCUMENT@, f);
    lemma_own_part(p1, PART_FOOTNOTES@, f);
    lemma_own_part(p2, PART_ENDNOTES@, f);
}

/// The part is there and cannot be read.
pub open spec fn is_unreadable(parts: Parts, name: Seq<char>) -> bool {
    part(parts, name) matches Some(d) && !xml_readable(d)
}

/// A pass fails exactly where one of the three parts cannot be read, and names the first that
/// cannot.
pub proof fn law_passes_fail_at_unreadable_parts(parts: Parts, f: Rewriting)
    ensures
        ({
            let failed = pass_story(parts, f).failed;
            &&& is_unreadable(parts, PART_DOCUMENT@) ==> failed == Some(PART_DOCUMENT@)
            &&& !is_unreadable(parts, PART_DOCUMENT@) && is_unreadable(parts, PART_FOOTNOTES@)
                ==> failed == Some(PART_FOOTNOTES@)
            &&& !is_unreadable(parts, PART_DOCUMENT@) && !is_unreadable(parts, PART_FOOTNOTES@)
                && is_unreadable(parts, PART_ENDNOTES@) ==> failed == Some(PART_ENDNOTES@)
            &&& !is_unreadable(parts, PART_DOCUMENT@) && !is_unreadable(parts, PART_FOOTNOTES@)
                && !is_unreadable(parts, PART_ENDNOTES@) ==> failed is None
        }),
{
    lemma_story_names();
    let p0 = Pass { parts, count: 0, failed: None };
    let p1 = pass_part(p0, PART_DOCUMENT@, f);
    lemma_pass_part(p0, PART_DOCUMENT@, f);
    lemma_pass_part(p1, PART_FOOTNOTES@, f);
}

} // verus!
