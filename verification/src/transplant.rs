//! The body of one document in the package of another.
//!
//! A blueprint gives its formatting (styles, page layout, headers, theme), a source its
//! contents. The source's body takes the place of the blueprint's, except for the
//! blueprint's trailing section properties. Runs are then cleaned and freed of tracking
//! attributes, notes are carried over and take on the blueprint's footnote format, and
//! style references are mapped to the blueprint's styles.

use vstd::prelude::*;
use vstd::utf8::encode_utf8;

use crate::bytes::{find_from, first_match, lemma_first_match, lit, push_all, push_str};
use crate::clean_runs::{clean_runs, runs_cleaned};
use crate::error::Error;
use crate::footnote_format::{
    apply_footnote_format, extract_footnote_format, format_applied, no_format, notes_formatted,
    part_format, FormatView,
};
use crate::heading_inference::blueprint_mapper;
use crate::names::NameMap;
use crate::note_laws::{lemma_occurs, lemma_stands_in, lemma_still_stands_in, stands_in};
use crate::notes_kind::{
    file_name, last_segment, lemma_part_names, lemma_with_mapped, with_mapped,
};
use crate::ns::{
    CT_ENDNOTES, CT_FOOTNOTES, PART_CONTENT_TYPES, PART_DOCUMENT, PART_DOCUMENT_RELS,
    PART_ENDNOTES, PART_FOOTNOTES, PART_STYLES, REL_TYPE_ENDNOTES, REL_TYPE_FOOTNOTES,
};
use crate::package::{lemma_with_part, part, with_part, Package, Parts};
use crate::rels::{
    find_last, free_rid, insert_before_last, inserted_before_last, last_match,
    lemma_last_match, memchr_contains,
    next_rid_in, occurs,
};
use crate::rsid_strip::{rsids_stripped, strip_rsids};
use crate::story::{law_other_parts_stay, lemma_pass_part, pass_part, pass_story, Pass};
use crate::style_mapper::{
    apply_style_mapping, mapped_pstyles, package_readable, package_styles, StyleIndex,
    StyleMapper,
};
use crate::text::{decimal, from_lossy, to_decimal, utf8_lossy};
use crate::xml::{xml_events, xml_readable, Ev};

verus! {

// ---------------------------------------------------------------------------
// Bodies
// ---------------------------------------------------------------------------

/// Where the contents of the body start and end.
pub open spec fn body_range(doc: Seq<u8>) -> Option<(int, int)> {
    match (first_match(doc, lit("<w:body>"), 0), first_match(doc, lit("</w:body>"), 0)) {
        (Some(a), Some(b)) => if a + lit("<w:body>").len() <= b {
            Some((a + lit("<w:body>").len(), b))
        } else {
            None
        },
        _ => None,
    }
}

/// The contents of the body between two positions.
pub open spec fn body_inner(doc: Seq<u8>, range: (int, int)) -> Seq<u8> {
    doc.subrange(range.0, range.1)
}

/// Where the last section properties of a body start; its end where it has none.
pub open spec fn section_start(inner: Seq<u8>) -> int {
    match last_match(inner, lit("<w:sectPr"), inner.len() as int) {
        Some(p) => p,
        None => inner.len() as int,
    }
}

/// The blueprint with the source's body in place of its own. The blueprint keeps its
/// trailing section properties, the source loses its own.
pub open spec fn grafted(bp: Seq<u8>, b: (int, int), src: Seq<u8>, s: (int, int)) -> Seq<u8> {
    let bp_inner = body_inner(bp, b);
    let src_inner = body_inner(src, s);
    bp.take(b.0) + src_inner.take(section_start(src_inner)) + bp_inner.skip(
        section_start(bp_inner),
    ) + bp.skip(b.1)
}

/// A blueprint document around its body's contents.
#[derive(Debug)]
pub struct BlueprintFrame<'a> {
    /// Everything up to and with the start of the body.
    pub before_and_body_open: &'a [u8],
    /// The trailing section properties, if there are any.
    pub trailing_sectpr: Option<&'a [u8]>,
    /// Everything from the end of the body on.
    pub from_body_close: &'a [u8],
}

/// The contents of a source document's body.
#[derive(Debug)]
pub struct SourceBody<'a> {
    /// The contents without the trailing section properties.
    pub inner_no_sectpr: &'a [u8],
}

fn find_body(doc: &[u8]) -> (r: Option<(usize, usize)>)
    ensures
        match r {
            Some(p) => body_range(doc@) == Some((p.0 as int, p.1 as int)) && p.0 <= p.1
                <= doc@.len(),
            None => body_range(doc@) is None,
        },
{
    let open = "<w:body>".as_bytes();
    let a = match find_from(doc, open, 0) {
        Some(a) => a,
        None => return None,
    };
    let b = match find_from(doc, "</w:body>".as_bytes(), 0) {
        Some(b) => b,
        None => return None,
    };
    proof {
        lemma_first_match(doc@, lit("<w:body>"), 0);
        lemma_first_match(doc@, lit("</w:body>"), 0);
    }
    let total: usize = doc.len();
    assert(a + open@.len() <= total);
    if a + open.len() <= b {
        Some((a + open.len(), b))
    } else {
        None
    }
}

/// The trailing section properties of a body's contents.
fn find_trailing_sectpr<'a>(inner: &'a [u8]) -> (r: Option<&'a [u8]>)
    ensures
        match r {
            Some(s) => s@ == inner@.skip(section_start(inner@)) && section_start(inner@)
                < inner@.len(),
            None => section_start(inner@) == inner@.len(),
        },
{
    match find_last(inner, "<w:sectPr".as_bytes()) {
        Some(p) => {
            assert(inner@.subrange(p as int, inner@.len() as int) =~= inner@.skip(p as int));
            Some(vstd::slice::slice_subrange(inner, p, inner.len()))
        },
        None => None,
    }
}

/// The blueprint document around its body's contents, if it has a body.
pub fn extract_blueprint_frame<'a>(doc: &'a [u8]) -> (r: Option<BlueprintFrame<'a>>)
    ensures
        match r {
            Some(f) => {
                let range = body_range(doc@)->0;
                let inner = body_inner(doc@, range);
                &&& body_range(doc@) is Some
                &&& f.before_and_body_open@ == doc@.take(range.0)
                &&& f.from_body_close@ == doc@.skip(range.1)
                &&& match f.trailing_sectpr {
                    Some(s) => s@ == inner.skip(section_start(inner)) && section_start(inner)
                        < inner.len(),
                    None => section_start(inner) == inner.len(),
                }
            },
            None => body_range(doc@) is None,
        },
{
    match find_body(doc) {
        None => None,
        Some((from, to)) => {
            assert(doc@.subrange(0, from as int) =~= doc@.take(from as int));
            assert(doc@.subrange(to as int, doc@.len() as int) =~= doc@.skip(to as int));
            Some(
                BlueprintFrame {
                    before_and_body_open: vstd::slice::slice_subrange(doc, 0, from),
                    trailing_sectpr: find_trailing_sectpr(
                        vstd::slice::slice_subrange(doc, from, to),
                    ),
                    from_body_close: vstd::slice::slice_subrange(doc, to, doc.len()),
                },
            )
        },
    }
}

/// The contents of a source document's body, if it has one.
pub fn extract_source_body<'a>(doc: &'a [u8]) -> (r: Option<SourceBody<'a>>)
    ensures
        match r {
            Some(s) => {
                let inner = body_inner(doc@, body_range(doc@)->0);
                &&& body_range(doc@) is Some
                &&& s.inner_no_sectpr@ == inner.take(section_start(inner))
            },
            None => body_range(doc@) is None,
        },
{
    match find_body(doc) {
        None => None,
        Some((from, to)) => {
            let inner = vstd::slice::slice_subrange(doc, from, to);
            match find_last(inner, "<w:sectPr".as_bytes()) {
                Some(p) => {
                    assert(inner@.subrange(0, p as int) =~= inner@.take(p as int));
                    Some(SourceBody { inner_no_sectpr: vstd::slice::slice_subrange(inner, 0, p) })
                },
                None => {
                    assert(inner@.take(inner@.len() as int) =~= inner@);
                    Some(SourceBody { inner_no_sectpr: inner })
                },
            }
        },
    }
}

// ---------------------------------------------------------------------------
// Notes
// ---------------------------------------------------------------------------

/// The content types with an override for a part, unless the part is named there.
pub open spec fn with_override(data: Seq<u8>, name: Seq<char>, content_type: Seq<char>) -> Seq<u8> {
    let path = lit("/") + encode_utf8(name);
    let entry = lit("<Override PartName=\"") + path + lit("\" ContentType=\"") + encode_utf8(
        content_type,
    ) + lit("\"/>");
    if occurs(data, path) {
        data
    } else {
        match inserted_before_last(encode_utf8(utf8_lossy(data)), lit("</Types>"), entry) {
            Some(d) => d,
            None => data,
        }
    }
}

/// The relationships with one to a part, under the next free id, unless there is one of
/// that type.
pub open spec fn with_relationship(data: Seq<u8>, name: Seq<char>, rel_type: Seq<char>) -> Seq<u8> {
    let text = encode_utf8(utf8_lossy(data));
    let entry = lit("<Relationship Id=\"rId") + encode_utf8(decimal(free_rid(text) as nat)) + lit(
        "\" Type=\"",
    ) + encode_utf8(rel_type) + lit("\" Target=\"") + encode_utf8(file_name(name)) + lit("\"/>");
    if occurs(data, encode_utf8(rel_type)) {
        data
    } else {
        match inserted_before_last(text, lit("</Relationships>"), entry) {
            Some(d) => d,
            None => data,
        }
    }
}

/// The parts with a part carried over from the source, if it has it, and made known.
pub open spec fn carried(
    parts: Parts,
    source: Parts,
    name: Seq<char>,
    content_type: Seq<char>,
    rel_type: Seq<char>,
) -> Parts {
    match part(source, name) {
        None => parts,
        Some(data) => {
            let p1 = with_part(parts, name, data);
            let p2 = with_mapped(
                p1,
                PART_CONTENT_TYPES@,
                |d: Seq<u8>| with_override(d, name, content_type),
            );
            with_mapped(p2, PART_DOCUMENT_RELS@, |d: Seq<u8>| with_relationship(d, name, rel_type))
        },
    }
}

/// The parts with the source's notes carried over.
pub open spec fn notes_carried(parts: Parts, source: Parts) -> Parts {
    carried(
        carried(parts, source, PART_FOOTNOTES@, CT_FOOTNOTES@, REL_TYPE_FOOTNOTES@),
        source,
        PART_ENDNOTES@,
        CT_ENDNOTES@,
        REL_TYPE_ENDNOTES@,
    )
}

fn add_override(data: &mut Vec<u8>, name: &str, content_type: &str)
    ensures
        final(data)@ == with_override(old(data)@, name@, content_type@),
{
    let mut path: Vec<u8> = Vec::new();
    push_str(&mut path, "/");
    push_str(&mut path, name);
    assert(path@ =~= lit("/") + encode_utf8(name@));
    if !memchr_contains(data, &path) {
        let mut entry: Vec<u8> = Vec::new();
        push_str(&mut entry, "<Override PartName=\"");
        push_all(&mut entry, &path);
        push_str(&mut entry, "\" ContentType=\"");
        push_str(&mut entry, content_type);
        push_str(&mut entry, "\"/>");
        assert(entry@ =~= lit("<Override PartName=\"") + path@ + lit("\" ContentType=\"")
            + encode_utf8(content_type@) + lit("\"/>"));
        let text = from_lossy(data);
        if let Some(out) = insert_before_last(text.as_str().as_bytes(), "</Types>", &entry) {
            *data = out;
        }
    }
}

fn add_relationship(data: &mut Vec<u8>, name: &str, rel_type: &str)
    ensures
        final(data)@ == with_relationship(old(data)@, name@, rel_type@),
{
    if !memchr_contains(data, rel_type.as_bytes()) {
        let text = from_lossy(data);
        let id: u64 = next_rid_in(text.as_str().as_bytes());
        let mut entry: Vec<u8> = Vec::new();
        push_str(&mut entry, "<Relationship Id=\"rId");
        push_str(&mut entry, &to_decimal(id));
        push_str(&mut entry, "\" Type=\"");
        push_str(&mut entry, rel_type);
        push_str(&mut entry, "\" Target=\"");
        push_str(&mut entry, &last_segment(name));
        push_str(&mut entry, "\"/>");
        assert(entry@ =~= lit("<Relationship Id=\"rId") + encode_utf8(decimal(id as nat)) + lit(
            "\" Type=\"",
        ) + encode_utf8(rel_type@) + lit("\" Target=\"") + encode_utf8(file_name(name@)) + lit(
            "\"/>",
        ));
        if let Some(out) = insert_before_last(
            text.as_str().as_bytes(),
            "</Relationships>",
            &entry,
        ) {
            *data = out;
        }
    }
}

fn transplant_aux_part(
    blueprint: &mut Package,
    source: &Package,
    name: &str,
    content_type: &str,
    rel_type: &str,
)
    ensures
        final(blueprint)@ == carried(
            old(blueprint)@,
            source@,
            name@,
            content_type@,
            rel_type@,
        ),
        final(blueprint).source_view() == old(blueprint).source_view(),
{
    let data = match source.get_part(name) {
        Some(d) => crate::bytes::to_vec(d),
        None => return,
    };
    blueprint.set_part(name, data);
    if let Some(types) = blueprint.get_part_mut(PART_CONTENT_TYPES) {
        add_override(types, name, content_type);
    }
    if let Some(rels) = blueprint.get_part_mut(PART_DOCUMENT_RELS) {
        add_relationship(rels, name, rel_type);
    }
}

// ---------------------------------------------------------------------------
// The pipeline
// ---------------------------------------------------------------------------

/// The outcome of the steps so far: the parts, and the part that could not be read, if
/// one could not.
#[verifier::ext_equal]
pub struct Outcome {
    pub parts: Parts,
    pub failed: Option<Seq<char>>,
}

/// Runs cleaned.
pub open spec fn after_cleaning(parts: Parts) -> Outcome {
    let p = pass_story(parts, |evs: Seq<Ev>| runs_cleaned(evs));
    Outcome { parts: p.parts, failed: p.failed }
}

/// Tracking attributes removed.
pub open spec fn after_stripping(o: Outcome) -> Outcome {
    if o.failed is Some {
        o
    } else {
        let p = pass_story(o.parts, |evs: Seq<Ev>| rsids_stripped(evs));
        Outcome { parts: p.parts, failed: p.failed }
    }
}

/// Notes carried over and given the blueprint's format.
pub open spec fn after_notes(o: Outcome, source: Parts, format: FormatView) -> Outcome {
    if o.failed is Some {
        o
    } else {
        let p = format_applied(notes_carried(o.parts, source), format);
        Outcome { parts: p.parts, failed: p.failed }
    }
}

/// Style references mapped.
pub open spec fn after_mapping(o: Outcome, source: Parts, blueprint: Parts) -> Outcome {
    if o.failed is Some {
        o
    } else {
        match part(o.parts, PART_DOCUMENT@) {
            None => o,
            Some(doc) => if xml_readable(doc) {
                let bp = package_styles(blueprint);
                let (out, n) = mapped_pstyles(
                    blueprint_mapper(bp),
                    package_styles(source),
                    bp,
                    xml_events(doc),
                );
                if n > 0 {
                    Outcome { parts: with_part(o.parts, PART_DOCUMENT@, out), ..o }
                } else {
                    o
                }
            } else {
                Outcome { failed: Some(PART_DOCUMENT@), ..o }
            },
        }
    }
}

/// The format of the blueprint's footnotes.
pub open spec fn blueprint_format(blueprint: Parts) -> FormatView {
    match part(blueprint, PART_FOOTNOTES@) {
        Some(data) => part_format(data),
        None => no_format(),
    }
}

/// The outcome of a transplantation of a body that both documents have.
pub open spec fn transplanted(blueprint: Parts, source: Parts) -> Outcome {
    let bp = part(blueprint, PART_DOCUMENT@)->0;
    let src = part(source, PART_DOCUMENT@)->0;
    let doc = grafted(bp, body_range(bp)->0, src, body_range(src)->0);
    let o1 = after_cleaning(with_part(blueprint, PART_DOCUMENT@, doc));
    let o2 = after_stripping(o1);
    let o3 = after_notes(o2, source, blueprint_format(blueprint));
    after_mapping(o3, source, blueprint)
}

/// An invalid package, with the path it came from and the reason.
pub open spec fn is_invalid(e: Error, path: Option<Seq<char>>, reason: Seq<char>) -> bool {
    e matches Error::InvalidPackage { path: p, reason: r } && r@ == reason && p@ == (match path {
        Some(s) => s,
        None => Seq::empty(),
    })
}

/// The part that makes a package's styles unreadable.
pub open spec fn unreadable_part(parts: Parts) -> Seq<char> {
    if part(parts, PART_STYLES@) is Some && !xml_readable(part(parts, PART_STYLES@)->0) {
        PART_STYLES@
    } else {
        PART_DOCUMENT@
    }
}

fn invalid(pkg: &Package, reason: &str) -> (e: Error)
    ensures
        is_invalid(e, pkg.source_view(), reason@),
{
    let path: String = match pkg.source() {
        Some(s) => s.to_owned(),
        None => String::new(),
    };
    Error::InvalidPackage { path, reason: reason.to_owned() }
}

fn graft(bp: &[u8], src: &[u8]) -> (r: Vec<u8>)
    requires
        body_range(bp@) is Some,
        body_range(src@) is Some,
    ensures
        r@ == grafted(bp@, body_range(bp@)->0, src@, body_range(src@)->0),
{
    let mut out: Vec<u8> = Vec::new();
    if let Some(frame) = extract_blueprint_frame(bp) {
        if let Some(body) = extract_source_body(src) {
            push_all(&mut out, frame.before_and_body_open);
            push_all(&mut out, body.inner_no_sectpr);
            if let Some(sectpr) = frame.trailing_sectpr {
                push_all(&mut out, sectpr);
            }
            push_all(&mut out, frame.from_body_close);
            proof {
                let inner = body_inner(bp@, body_range(bp@)->0);
                if frame.trailing_sectpr is None {
                    assert(inner.skip(section_start(inner)) =~= Seq::empty());
                }
                assert(out@ =~= grafted(bp@, body_range(bp@)->0, src@, body_range(src@)->0));
            }
        }
    }
    out
}

/// Puts the body of `source` in place of the body of `blueprint`, with its notes, and
/// dresses it in the blueprint's formatting.
pub fn transplant_body(blueprint: &mut Package, source: &Package) -> (res: Result<(), Error>)
    ensures
        final(blueprint).source_view() == old(blueprint).source_view(),
        ({
            let bp = part(old(blueprint)@, PART_DOCUMENT@);
            let src = part(source@, PART_DOCUMENT@);
            let refused = if bp is None {
                res is Err && is_invalid(
                    res->Err_0,
                    old(blueprint).source_view(),
                    "missing word/document.xml in blueprint"@,
                )
            } else if src is None {
                res is Err && is_invalid(
                    res->Err_0,
                    source.source_view(),
                    "missing word/document.xml in source"@,
                )
            } else if body_range(bp->0) is None {
                res is Err && is_invalid(
                    res->Err_0,
                    old(blueprint).source_view(),
                    "blueprint document.xml has no <w:body>"@,
                )
            } else if body_range(src->0) is None {
                res is Err && is_invalid(
                    res->Err_0,
                    source.source_view(),
                    "source document.xml has no <w:body>"@,
                )
            } else if !package_readable(old(blueprint)@) {
                res is Err && res->Err_0.is_xml_parse(unreadable_part(old(blueprint)@))
            } else {
                res is Err && res->Err_0.is_xml_parse(unreadable_part(source@))
            };
            let ok = bp is Some && src is Some && body_range(bp->0) is Some && body_range(
                src->0,
            ) is Some && package_readable(old(blueprint)@) && package_readable(source@);
            let t = transplanted(old(blueprint)@, source@);
            if !ok {
                refused && final(blueprint)@ == old(blueprint)@
            } else {
                &&& final(blueprint)@ == t.parts
                &&& match t.failed {
                    None => res is Ok,
                    Some(name) => res is Err && res->Err_0.is_xml_parse(name),
                }
            }
        }),
{
    let new_doc: Vec<u8> = {
        let bp_doc = match blueprint.get_part(PART_DOCUMENT) {
            Some(d) => d,
            None => return Err(invalid(blueprint, "missing word/document.xml in blueprint")),
        };
        let src_doc = match source.get_part(PART_DOCUMENT) {
            Some(d) => d,
            None => return Err(invalid(source, "missing word/document.xml in source")),
        };
        if find_body(bp_doc).is_none() {
            return Err(invalid(blueprint, "blueprint document.xml has no <w:body>"));
        }
        if find_body(src_doc).is_none() {
            return Err(invalid(source, "source document.xml has no <w:body>"));
        }
        graft(bp_doc, src_doc)
    };
    let bp_styles = StyleIndex::from_package(blueprint)?;
    let src_styles = StyleIndex::from_package(source)?;
    let format = extract_footnote_format(blueprint)?;

    blueprint.set_part(PART_DOCUMENT, new_doc);
    clean_runs(blueprint)?;
    strip_rsids(blueprint)?;
    transplant_aux_part(blueprint, source, PART_FOOTNOTES, CT_FOOTNOTES, REL_TYPE_FOOTNOTES);
    transplant_aux_part(blueprint, source, PART_ENDNOTES, CT_ENDNOTES, REL_TYPE_ENDNOTES);
    apply_footnote_format(blueprint, &format)?;
    let mapper = StyleMapper::new(&bp_styles, NameMap::new());
    apply_style_mapping(blueprint, &mapper, &src_styles, &bp_styles)?;
    Ok(())
}

// ---------------------------------------------------------------------------
// Laws
// ---------------------------------------------------------------------------

/// A part that a transplantation has no business with.
pub open spec fn is_dress(name: Seq<char>) -> bool {
    &&& name != PART_DOCUMENT@
    &&& name != PART_FOOTNOTES@
    &&& name != PART_ENDNOTES@
    &&& name != PART_CONTENT_TYPES@
    &&& name != PART_DOCUMENT_RELS@
}

proof fn lemma_carried(
    parts: Parts,
    source: Parts,
    note: Seq<char>,
    content_type: Seq<char>,
    rel_type: Seq<char>,
    name: Seq<char>,
)
    requires
        is_dress(name),
        name != note,
    ensures
        part(carried(parts, source, note, content_type, rel_type), name) == part(parts, name),
{
    if let Some(data) = part(source, note) {
        let types = |d: Seq<u8>| with_override(d, note, content_type);
        let rels = |d: Seq<u8>| with_relationship(d, note, rel_type);
        let p1 = with_part(parts, note, data);
        let p2 = with_mapped(p1, PART_CONTENT_TYPES@, types);
        lemma_with_part(parts, note, data);
        lemma_with_mapped(p1, PART_CONTENT_TYPES@, types);
        lemma_with_mapped(p2, PART_DOCUMENT_RELS@, rels);
    }
}

/// A transplantation leaves the blueprint's dress as it was: styles, theme, settings,
/// headers, and every other part but the document, the notes, and what makes them known.
pub proof fn law_dress_stays(blueprint: Parts, source: Parts, name: Seq<char>)
    requires
        is_dress(name),
    ensures
        part(transplanted(blueprint, source).parts, name) == part(blueprint, name),
{
    let bp = part(blueprint, PART_DOCUMENT@)->0;
    let src = part(source, PART_DOCUMENT@)->0;
    let doc = grafted(bp, body_range(bp)->0, src, body_range(src)->0);
    let p0 = with_part(blueprint, PART_DOCUMENT@, doc);
    lemma_with_part(blueprint, PART_DOCUMENT@, doc);
    let clean = |evs: Seq<Ev>| runs_cleaned(evs);
    law_other_parts_stay(p0, clean, name);
    let o1 = after_cleaning(p0);
    assert(part(o1.parts, name) == part(p0, name));
    let strip = |evs: Seq<Ev>| rsids_stripped(evs);
    law_other_parts_stay(o1.parts, strip, name);
    let o2 = after_stripping(o1);
    assert(part(o2.parts, name) == part(o1.parts, name));
    let format = blueprint_format(blueprint);
    let c1 = carried(o2.parts, source, PART_FOOTNOTES@, CT_FOOTNOTES@, REL_TYPE_FOOTNOTES@);
    lemma_carried(o2.parts, source, PART_FOOTNOTES@, CT_FOOTNOTES@, REL_TYPE_FOOTNOTES@, name);
    lemma_carried(c1, source, PART_ENDNOTES@, CT_ENDNOTES@, REL_TYPE_ENDNOTES@, name);
    let c2 = notes_carried(o2.parts, source);
    if !(format.marker_rpr_xml is None && format.separator is None) {
        let f = |evs: Seq<Ev>| notes_formatted(evs, format);
        let start = Pass { parts: c2, count: 0, failed: None };
        lemma_pass_part(start, PART_FOOTNOTES@, f);
        lemma_pass_part(pass_part(start, PART_FOOTNOTES@, f), PART_ENDNOTES@, f);
    }
    assert(part(format_applied(c2, format).parts, name) == part(c2, name));
    let o3 = after_notes(o2, source, format);
    assert(part(o3.parts, name) == part(o2.parts, name));
    if let Some(d) = part(o3.parts, PART_DOCUMENT@) {
        let styles = package_styles(blueprint);
        let (out, n) = mapped_pstyles(
            blueprint_mapper(styles),
            package_styles(source),
            styles,
            xml_events(d),
        );
        lemma_with_part(o3.parts, PART_DOCUMENT@, out);
    }
}

/// The grafted document is the blueprint's up to its body, then the source's contents
/// without their trailing section properties, then the blueprint's trailing section
/// properties, then the blueprint's rest.
pub proof fn law_graft_keeps_the_frame(bp: Seq<u8>, src: Seq<u8>)
    requires
        body_range(bp) is Some,
        body_range(src) is Some,
    ensures
        ({
            let b = body_range(bp)->0;
            let s = body_range(src)->0;
            let bp_inner = body_inner(bp, b);
            let src_inner = body_inner(src, s);
            let kept = src_inner.take(section_start(src_inner));
            let sections = bp_inner.skip(section_start(bp_inner));
            let doc = grafted(bp, b, src, s);
            &&& doc.take(b.0) == bp.take(b.0)
            &&& doc.subrange(b.0, b.0 + kept.len()) == kept
            &&& doc.subrange(b.0 + kept.len(), b.0 + kept.len() + sections.len()) == sections
            &&& doc.skip(b.0 + kept.len() + sections.len()) == bp.skip(b.1)
        }),
{
    lemma_first_match(bp, lit("<w:body>"), 0);
    lemma_first_match(bp, lit("</w:body>"), 0);
    lemma_first_match(src, lit("<w:body>"), 0);
    lemma_first_match(src, lit("</w:body>"), 0);
    let b = body_range(bp)->0;
    let s = body_range(src)->0;
    let bp_inner = body_inner(bp, b);
    let src_inner = body_inner(src, s);
    lemma_last_match(bp_inner, lit("<w:sectPr"), bp_inner.len() as int);
    lemma_last_match(src_inner, lit("<w:sectPr"), src_inner.len() as int);
    let kept = src_inner.take(section_start(src_inner));
    let sections = bp_inner.skip(section_start(bp_inner));
    let doc = grafted(bp, b, src, s);
    assert(doc.take(b.0) =~= bp.take(b.0));
    assert(doc.subrange(b.0, b.0 + kept.len()) =~= kept);
    assert(doc.subrange(b.0 + kept.len(), b.0 + kept.len() + sections.len()) =~= sections);
    assert(doc.skip(b.0 + kept.len() + sections.len()) =~= bp.skip(b.1));
}

/// The contents of a body are cut at their last section properties: these start at the cut,
/// and none start after it. Where there are none, nothing is cut.
pub proof fn law_cut_at_the_last_section(inner: Seq<u8>)
    ensures
        ({
            let p = section_start(inner);
            let sect = encode_utf8("<w:sectPr"@);
            &&& 0 <= p <= inner.len()
            &&& p < inner.len() ==> sect.is_prefix_of(inner.skip(p))
            &&& forall|q: int|
                p < q <= inner.len() ==> !sect.is_prefix_of(#[trigger] inner.skip(q))
            &&& p == inner.len() ==> forall|q: int|
                0 <= q <= inner.len() ==> !sect.is_prefix_of(#[trigger] inner.skip(q))
        }),
{
    let sect = lit("<w:sectPr");
    let p = section_start(inner);
    assert(sect.len() > 0) by {
        reveal_strlit("<w:sectPr");
        vstd::utf8::is_ascii_chars_encode_utf8("<w:sectPr"@);
    }
    lemma_last_match(inner, sect, inner.len() as int);
    if p < inner.len() {
        assert(inner.skip(p).take(sect.len() as int) =~= inner.subrange(p, p + sect.len()));
        assert(sect.is_prefix_of(inner.skip(p)));
    }
    assert forall|q: int| 0 <= q <= inner.len() && (q > p || p == inner.len()) implies !sect.is_prefix_of(
        #[trigger] inner.skip(q),
    ) by {
        if sect.is_prefix_of(inner.skip(q)) {
            assert(inner.subrange(q, q + sect.len()) =~= inner.skip(q).take(sect.len() as int));
            assert(crate::bytes::matches_at(inner, q, sect));
        }
    }
}

/// The contents of a body stand between the first start tag of a body and the first end tag,
/// where both are there in this order.
pub proof fn law_body_between_its_tags(doc: Seq<u8>, a: int, b: int)
    requires
        0 <= a <= doc.len(),
        0 <= b <= doc.len(),
        encode_utf8("<w:body>"@).is_prefix_of(doc.skip(a)),
        encode_utf8("</w:body>"@).is_prefix_of(doc.skip(b)),
        forall|q: int|
            0 <= q < a ==> !encode_utf8("<w:body>"@).is_prefix_of(#[trigger] doc.skip(q)),
        forall|q: int|
            0 <= q < b ==> !encode_utf8("</w:body>"@).is_prefix_of(#[trigger] doc.skip(q)),
    ensures
        a + 8 <= b ==> body_range(doc) == Some((a + 8, b)),
        a + 8 > b ==> body_range(doc) is None,
{
    let open = lit("<w:body>");
    let close = lit("</w:body>");
    assert(open.len() == 8) by {
        reveal_strlit("<w:body>");
        vstd::utf8::is_ascii_chars_encode_utf8("<w:body>"@);
    }
    lemma_first_match(doc, open, 0);
    lemma_first_match(doc, close, 0);
    lemma_prefix_matches(doc, open, a);
    lemma_prefix_matches(doc, close, b);
    if let Some(q) = first_match(doc, open, 0) {
        lemma_matches_prefix(doc, open, q);
    }
    if let Some(q) = first_match(doc, close, 0) {
        lemma_matches_prefix(doc, close, q);
    }
}

/// A document without a start or without an end of a body has none.
pub proof fn law_no_body_without_tags(doc: Seq<u8>)
    requires
        (forall|q: int|
            0 <= q <= doc.len() ==> !encode_utf8("<w:body>"@).is_prefix_of(#[trigger] doc.skip(q)))
            || (forall|q: int|
            0 <= q <= doc.len() ==> !encode_utf8("</w:body>"@).is_prefix_of(#[trigger] doc.skip(q))),
    ensures
        body_range(doc) is None,
{
    let open = lit("<w:body>");
    let close = lit("</w:body>");
    lemma_first_match(doc, open, 0);
    lemma_first_match(doc, close, 0);
    if let Some(q) = first_match(doc, open, 0) {
        lemma_matches_prefix(doc, open, q);
    }
    if let Some(q) = first_match(doc, close, 0) {
        lemma_matches_prefix(doc, close, q);
    }
}

proof fn lemma_prefix_matches(s: Seq<u8>, needle: Seq<u8>, q: int)
    requires
        0 <= q <= s.len(),
        needle.is_prefix_of(s.skip(q)),
    ensures
        crate::bytes::matches_at(s, q, needle),
{
    assert(s.subrange(q, q + needle.len()) =~= s.skip(q).take(needle.len() as int));
}

proof fn lemma_matches_prefix(s: Seq<u8>, needle: Seq<u8>, q: int)
    requires
        crate::bytes::matches_at(s, q, needle),
    ensures
        0 <= q <= s.len(),
        needle.is_prefix_of(s.skip(q)),
{
    assert(s.skip(q).take(needle.len() as int) =~= s.subrange(q, q + needle.len()));
}

/// In the grafted document the contents of the source's body, up to their last section
/// properties, stand between what the blueprint has before its own contents and the
/// blueprint's last section properties, whatever else either holds.
pub proof fn law_graft_takes_the_whole_body(
    head: Seq<u8>,
    old_text: Seq<u8>,
    layout: Seq<u8>,
    tail: Seq<u8>,
    source_head: Seq<u8>,
    text: Seq<u8>,
    source_layout: Seq<u8>,
    source_tail: Seq<u8>,
)
    requires
        body_range(head + old_text + layout + tail) == Some(
            (head.len() as int, (head + old_text + layout).len() as int),
        ),
        body_range(source_head + text + source_layout + source_tail) == Some(
            (source_head.len() as int, (source_head + text + source_layout).len() as int),
        ),
        is_layout(old_text, layout),
        is_layout(text, source_layout),
    ensures
        ({
            let bp = head + old_text + layout + tail;
            let src = source_head + text + source_layout + source_tail;
            grafted(bp, body_range(bp)->0, src, body_range(src)->0) == head + text + layout + tail
        }),
{
    let bp = head + old_text + layout + tail;
    let src = source_head + text + source_layout + source_tail;
    assert(bp.subrange(head.len() as int, (head + old_text + layout).len() as int) =~= old_text
        + layout);
    assert(src.subrange(
        source_head.len() as int,
        (source_head + text + source_layout).len() as int,
    ) =~= text + source_layout);
    lemma_layout(old_text, layout);
    lemma_layout(text, source_layout);
    assert((text + source_layout).take(text.len() as int) =~= text);
    assert((old_text + layout).skip(old_text.len() as int) =~= layout);
    assert(bp.take(head.len() as int) =~= head);
    assert(bp.skip((head + old_text + layout).len() as int) =~= tail);
}

/// The contents of a body split where its last section properties start, if it has any:
/// behind that place none start.
pub open spec fn is_layout(text: Seq<u8>, layout: Seq<u8>) -> bool {
    let sect = encode_utf8("<w:sectPr"@);
    let all = text + layout;
    &&& layout.len() > 0 ==> sect.is_prefix_of(layout)
    &&& forall|q: int|
        (if layout.len() > 0 {
            text.len() < q
        } else {
            0 <= q
        }) && q <= all.len() ==> !sect.is_prefix_of(#[trigger] all.skip(q))
}

proof fn lemma_layout(text: Seq<u8>, layout: Seq<u8>)
    requires
        is_layout(text, layout),
    ensures
        section_start(text + layout) == text.len(),
{
    let all = text + layout;
    let p = section_start(all);
    law_cut_at_the_last_section(all);
    assert(all.skip(text.len() as int) =~= layout);
}

proof fn lemma_carried_note(
    parts: Parts,
    source: Parts,
    note: Seq<char>,
    content_type: Seq<char>,
    rel_type: Seq<char>,
)
    requires
        note == PART_FOOTNOTES@ || note == PART_ENDNOTES@,
    ensures
        ({
            let after = carried(parts, source, note, content_type, rel_type);
            &&& part(source, note) is None ==> after == parts
            &&& part(source, note) is Some ==> {
                &&& part(after, note) == part(source, note)
                &&& part(after, PART_CONTENT_TYPES@) == match part(parts, PART_CONTENT_TYPES@) {
                    Some(d) => Some(with_override(d, note, content_type)),
                    None => None,
                }
                &&& part(after, PART_DOCUMENT_RELS@) == match part(parts, PART_DOCUMENT_RELS@) {
                    Some(d) => Some(with_relationship(d, note, rel_type)),
                    None => None,
                }
            }
            &&& forall|other: Seq<char>|
                other != note && other != PART_CONTENT_TYPES@ && other != PART_DOCUMENT_RELS@
                    ==> #[trigger] part(after, other) == part(parts, other)
        }),
{
    lemma_part_names();
    assert(PART_CONTENT_TYPES@ != PART_DOCUMENT_RELS@) by {
        reveal_strlit("word/_rels/document.xml.rels");
        reveal_strlit("[Content_Types].xml");
        assert(PART_CONTENT_TYPES@[0] != PART_DOCUMENT_RELS@[0]);
    }
    if let Some(data) = part(source, note) {
        let types = |d: Seq<u8>| with_override(d, note, content_type);
        let rels = |d: Seq<u8>| with_relationship(d, note, rel_type);
        let p1 = with_part(parts, note, data);
        let p2 = with_mapped(p1, PART_CONTENT_TYPES@, types);
        lemma_with_part(parts, note, data);
        lemma_with_mapped(p1, PART_CONTENT_TYPES@, types);
        lemma_with_mapped(p2, PART_DOCUMENT_RELS@, rels);
    }
}

/// The notes of the source take the place of the blueprint's, part by part; a part that the
/// source does not have stays, and so do all parts that are not about notes.
pub proof fn law_notes_are_carried_over(parts: Parts, source: Parts)
    ensures
        ({
            let after = notes_carried(parts, source);
            &&& part(after, PART_FOOTNOTES@) == (if part(source, PART_FOOTNOTES@) is Some {
                part(source, PART_FOOTNOTES@)
            } else {
                part(parts, PART_FOOTNOTES@)
            })
            &&& part(after, PART_ENDNOTES@) == (if part(source, PART_ENDNOTES@) is Some {
                part(source, PART_ENDNOTES@)
            } else {
                part(parts, PART_ENDNOTES@)
            })
            &&& forall|other: Seq<char>|
                other != PART_FOOTNOTES@ && other != PART_ENDNOTES@ && other
                    != PART_CONTENT_TYPES@ && other != PART_DOCUMENT_RELS@ ==> #[trigger] part(
                    after,
                    other,
                ) == part(parts, other)
        }),
{
    lemma_part_names();
    let one = carried(parts, source, PART_FOOTNOTES@, CT_FOOTNOTES@, REL_TYPE_FOOTNOTES@);
    lemma_carried_note(parts, source, PART_FOOTNOTES@, CT_FOOTNOTES@, REL_TYPE_FOOTNOTES@);
    lemma_carried_note(one, source, PART_ENDNOTES@, CT_ENDNOTES@, REL_TYPE_ENDNOTES@);
}

/// Content types that end, and are made to name a part, name it, with its content type; and
/// what they held stays, around what is added.
pub proof fn law_parts_get_a_content_type(data: Seq<u8>, name: Seq<char>, content_type: Seq<char>)
    requires
        occurs(encode_utf8(utf8_lossy(data)), lit("</Types>")),
    ensures
        stands_in(lit("/") + encode_utf8(name), with_override(data, name, content_type)),
        with_override(data, name, content_type) == data || stands_in(
            encode_utf8(content_type),
            with_override(data, name, content_type),
        ),
{
    let path = lit("/") + encode_utf8(name);
    let text = encode_utf8(utf8_lossy(data));
    let a = lit("<Override PartName=\"");
    let b = lit("\" ContentType=\"");
    let c = encode_utf8(content_type);
    let d = lit("\"/>");
    let entry = a + path + b + c + d;
    if occurs(data, path) {
        lemma_occurs(data, path);
    } else {
        lemma_stands_in(a, path, b + c + d);
        assert(a + path + (b + c + d) =~= entry);
        lemma_stands_in(a + path + b, c, d);
        lemma_inserted(text, lit("</Types>"), path, entry);
        lemma_inserted(text, lit("</Types>"), c, entry);
    }
}

/// Relationships that end, and are made to name a part, hold a relationship of its type; and
/// where one is added, it points to the part's file under an id of its own.
pub proof fn law_parts_get_a_relationship(data: Seq<u8>, name: Seq<char>, rel_type: Seq<char>)
    requires
        occurs(encode_utf8(utf8_lossy(data)), lit("</Relationships>")),
    ensures
        rel_type.len() > 0 ==> stands_in(
            encode_utf8(rel_type),
            with_relationship(data, name, rel_type),
        ),
        with_relationship(data, name, rel_type) == data || stands_in(
            lit("Target=\"") + encode_utf8(file_name(name)),
            with_relationship(data, name, rel_type),
        ),
{
    let kind = encode_utf8(rel_type);
    let text = encode_utf8(utf8_lossy(data));
    let a = lit("<Relationship Id=\"rId") + encode_utf8(decimal(free_rid(text) as nat)) + lit(
        "\" Type=\"",
    );
    let b = lit("\" Target=\"");
    let target = encode_utf8(file_name(name));
    let c = lit("\"/>");
    let entry = a + kind + b + target + c;
    if occurs(data, kind) {
        lemma_occurs(data, kind);
    } else {
        let quote = lit("\" ");
        let key = lit("Target=\"");
        assert(b =~= quote + key) by {
            reveal_strlit("\" Target=\"");
            reveal_strlit("\" ");
            reveal_strlit("Target=\"");
            vstd::utf8::is_ascii_chars_encode_utf8("\" Target=\""@);
            vstd::utf8::is_ascii_chars_encode_utf8("\" "@);
            vstd::utf8::is_ascii_chars_encode_utf8("Target=\""@);
        }
        lemma_stands_in(a, kind, b + target + c);
        assert(a + kind + (b + target + c) =~= entry);
        lemma_stands_in(a + kind + quote, key + target, c);
        assert(a + kind + quote + (key + target) + c =~= entry);
        lemma_inserted(text, lit("</Relationships>"), kind, entry);
        lemma_inserted(text, lit("</Relationships>"), key + target, entry);
    }
}

proof fn lemma_inserted(text: Seq<u8>, closing: Seq<u8>, piece: Seq<u8>, entry: Seq<u8>)
    requires
        occurs(text, closing),
        stands_in(piece, entry),
    ensures
        inserted_before_last(text, closing, entry) is Some,
        stands_in(piece, inserted_before_last(text, closing, entry)->0),
{
    lemma_first_match(text, closing, 0);
    lemma_last_match(text, closing, text.len() as int);
    let p = last_match(text, closing, text.len() as int)->0;
    lemma_still_stands_in(piece, text.take(p), entry, text.skip(p));
}

/// Where a package cannot be read, the part that is named is one that cannot: the styles, if
/// they cannot, and else the main document.
pub proof fn law_unreadable_part_is_named(parts: Parts)
    requires
        !package_readable(parts),
    ensures
        part(parts, unreadable_part(parts)) is Some,
        !xml_readable(part(parts, unreadable_part(parts))->0),
        unreadable_part(parts) == PART_STYLES@ || unreadable_part(parts) == PART_DOCUMENT@,
        unreadable_part(parts) == PART_DOCUMENT@ ==> part(parts, PART_STYLES@) is None
            || xml_readable(part(parts, PART_STYLES@)->0),
{
    reveal_strlit("word/styles.xml");
    reveal_strlit("word/document.xml");
    assert(PART_STYLES@.len() != PART_DOCUMENT@.len());
}

} // verus!
