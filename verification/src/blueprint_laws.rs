//! What is read of the sections and the defaults of a blueprint.

use vstd::prelude::*;
use vstd::utf8::is_ascii_chars_encode_utf8;

use crate::blueprint::{
    blank_section, blueprint_schema, defaults_state, defaults_step, last_text, sections_state,
    with_margins, with_size, SectionView, SectionsView,
};
use crate::bytes::lit;
use crate::ns::{PART_DOCUMENT, PART_STYLES};
use crate::package::{part, Parts};
use crate::style_mapper::value_or_empty;
use crate::text::utf8_text;
use crate::xml::{
    is_empty_tag, is_end, is_start, tag_attrs, tag_name, xml_events, At, Ev, EventKind,
};

verus! {

// ---------------------------------------------------------------------------
// Sections
// ---------------------------------------------------------------------------

/// The value of the last attribute of a name.
pub open spec fn last_value(attrs: Seq<At>, key: &str) -> Option<Seq<char>>
    decreases attrs.len(),
{
    if attrs.len() == 0 {
        None
    } else if attrs.last().key == lit(key) {
        Some(value_or_empty(attrs.last().value))
    } else {
        last_value(attrs.drop_last(), key)
    }
}

/// The first of two values that is there.
pub open spec fn either(a: Option<Seq<char>>, b: Option<Seq<char>>) -> Option<Seq<char>> {
    if a is Some {
        a
    } else {
        b
    }
}

proof fn lemma_size_keys()
    ensures
        lit("w:w") != lit("w:h"),
        lit("w:w") != lit("w:orient"),
        lit("w:h") != lit("w:orient"),
{
    reveal_strlit("w:w");
    reveal_strlit("w:h");
    reveal_strlit("w:orient");
    is_ascii_chars_encode_utf8("w:w"@);
    is_ascii_chars_encode_utf8("w:h"@);
    is_ascii_chars_encode_utf8("w:orient"@);
    assert(lit("w:w")[2] != lit("w:h")[2]);
    assert(lit("w:w").len() != lit("w:orient").len());
    assert(lit("w:h").len() != lit("w:orient").len());
}

proof fn lemma_margin_keys()
    ensures
        lit("w:left") != lit("w:right"),
        lit("w:left") != lit("w:top"),
        lit("w:left") != lit("w:bottom"),
        lit("w:left") != lit("w:gutter"),
        lit("w:left") != lit("w:header"),
        lit("w:left") != lit("w:footer"),
        lit("w:right") != lit("w:top"),
        lit("w:right") != lit("w:bottom"),
        lit("w:right") != lit("w:gutter"),
        lit("w:right") != lit("w:header"),
        lit("w:right") != lit("w:footer"),
        lit("w:top") != lit("w:bottom"),
        lit("w:top") != lit("w:gutter"),
        lit("w:top") != lit("w:header"),
        lit("w:top") != lit("w:footer"),
        lit("w:bottom") != lit("w:gutter"),
        lit("w:bottom") != lit("w:header"),
        lit("w:bottom") != lit("w:footer"),
        lit("w:gutter") != lit("w:header"),
        lit("w:gutter") != lit("w:footer"),
        lit("w:header") != lit("w:footer"),
{
    reveal_strlit("w:left");
    reveal_strlit("w:right");
    reveal_strlit("w:top");
    reveal_strlit("w:bottom");
    reveal_strlit("w:gutter");
    reveal_strlit("w:header");
    reveal_strlit("w:footer");
    is_ascii_chars_encode_utf8("w:left"@);
    is_ascii_chars_encode_utf8("w:right"@);
    is_ascii_chars_encode_utf8("w:top"@);
    is_ascii_chars_encode_utf8("w:bottom"@);
    is_ascii_chars_encode_utf8("w:gutter"@);
    is_ascii_chars_encode_utf8("w:header"@);
    is_ascii_chars_encode_utf8("w:footer"@);
    assert(lit("w:left")[2] == 0x6c);
    assert(lit("w:right")[2] == 0x72);
    assert(lit("w:top")[2] == 0x74);
    assert(lit("w:bottom")[2] == 0x62);
    assert(lit("w:gutter")[2] == 0x67);
    assert(lit("w:header")[2] == 0x68);
    assert(lit("w:footer")[2] == 0x66);
}

/// The width, the height and the orientation of a page are the last that its size gives.
pub proof fn law_size_of_a_page(s: SectionView, attrs: Seq<At>)
    ensures
        with_size(s, attrs) == (SectionView {
            page_width: either(last_value(attrs, "w:w"), s.page_width),
            page_height: either(last_value(attrs, "w:h"), s.page_height),
            orientation: either(last_value(attrs, "w:orient"), s.orientation),
            ..s
        }),
    decreases attrs.len(),
{
    if attrs.len() > 0 {
        law_size_of_a_page(s, attrs.drop_last());
        lemma_size_keys();
    }
}

/// The margins of a page and the distances of header and footer are the last that are given.
pub proof fn law_margins_of_a_page(s: SectionView, attrs: Seq<At>)
    ensures
        with_margins(s, attrs) == (SectionView {
            left_margin: either(last_value(attrs, "w:left"), s.left_margin),
            right_margin: either(last_value(attrs, "w:right"), s.right_margin),
            top_margin: either(last_value(attrs, "w:top"), s.top_margin),
            bottom_margin: either(last_value(attrs, "w:bottom"), s.bottom_margin),
            gutter: either(last_value(attrs, "w:gutter"), s.gutter),
            header_distance: either(last_value(attrs, "w:header"), s.header_distance),
            footer_distance: either(last_value(attrs, "w:footer"), s.footer_distance),
            ..s
        }),
    decreases attrs.len(),
{
    if attrs.len() > 0 {
        law_margins_of_a_page(s, attrs.drop_last());
        lemma_margin_keys();
    }
}

/// The last value that the tags of a name give for an attribute.
pub open spec fn said(events: Seq<Ev>, name: &str, key: &str) -> Option<Seq<char>>
    decreases events.len(),
{
    if events.len() == 0 {
        None
    } else {
        let e = events.last();
        let before = said(events.drop_last(), name, key);
        if (e.kind == EventKind::Start || e.kind == EventKind::Empty) && tag_name(e) == lit(name) {
            either(last_value(tag_attrs(e, true), key), before)
        } else {
            before
        }
    }
}

/// No event is a tag of section properties.
pub open spec fn without_sections(events: Seq<Ev>) -> bool {
    forall|i: int|
        0 <= i < events.len() ==> !is_start(#[trigger] events[i], "w:sectPr") && !is_end(
            events[i],
            "w:sectPr",
        ) && !is_empty_tag(events[i], "w:sectPr")
}

/// What the events inside section properties say of a section.
pub open spec fn section_said(index: int, inner: Seq<Ev>) -> SectionView {
    SectionView {
        index,
        page_width: said(inner, "w:pgSz", "w:w"),
        page_height: said(inner, "w:pgSz", "w:h"),
        orientation: said(inner, "w:pgSz", "w:orient"),
        left_margin: said(inner, "w:pgMar", "w:left"),
        right_margin: said(inner, "w:pgMar", "w:right"),
        top_margin: said(inner, "w:pgMar", "w:top"),
        bottom_margin: said(inner, "w:pgMar", "w:bottom"),
        gutter: said(inner, "w:pgMar", "w:gutter"),
        header_distance: said(inner, "w:pgMar", "w:header"),
        footer_distance: said(inner, "w:pgMar", "w:footer"),
    }
}

proof fn lemma_inside(before: Seq<Ev>, inner: Seq<Ev>, index: int)
    requires
        without_sections(inner),
        sections_state(before).current == Some(blank_section(index)),
    ensures
        sections_state(before + inner) == (SectionsView {
            current: Some(section_said(index, inner)),
            ..sections_state(before)
        }),
    decreases inner.len(),
{
    if inner.len() == 0 {
        assert(before + inner =~= before);
        assert(section_said(index, inner) == blank_section(index));
    } else {
        let init = inner.drop_last();
        let e = inner.last();
        assert(without_sections(init)) by {
            assert forall|i: int| 0 <= i < init.len() implies !is_start(
                #[trigger] init[i],
                "w:sectPr",
            ) && !is_end(init[i], "w:sectPr") && !is_empty_tag(init[i], "w:sectPr") by {
                assert(init[i] == inner[i]);
            }
        }
        assert(!is_start(inner[inner.len() - 1], "w:sectPr"));
        lemma_inside(before, init, index);
        assert((before + inner).drop_last() =~= before + init);
        assert((before + inner).last() == e);
        let cur = section_said(index, init);
        law_size_of_a_page(cur, tag_attrs(e, true));
        law_margins_of_a_page(cur, tag_attrs(e, true));
        assert(lit("w:pgSz") != lit("w:pgMar")) by {
            reveal_strlit("w:pgSz");
            reveal_strlit("w:pgMar");
            is_ascii_chars_encode_utf8("w:pgSz"@);
            is_ascii_chars_encode_utf8("w:pgMar"@);
            assert(lit("w:pgSz").len() != lit("w:pgMar").len());
        }
    }
}

/// Section properties give one more section, which is counted in the order of the document
/// and says what stands between their tags.
pub proof fn law_sections_are_read(before: Seq<Ev>, open: Ev, inner: Seq<Ev>, close: Ev)
    requires
        is_start(open, "w:sectPr"),
        without_sections(inner),
        is_end(close, "w:sectPr"),
    ensures
        ({
            let done = sections_state(before).done;
            sections_state((before.push(open) + inner).push(close)).done == done.push(
                section_said(done.len() as int, inner),
            )
        }),
{
    let a = before.push(open);
    let n = sections_state(before).done.len() as int;
    assert(a.drop_last() =~= before);
    assert(sections_state(a).current == Some(blank_section(n)));
    lemma_inside(a, inner, n);
    let all = (a + inner).push(close);
    assert(all.drop_last() =~= a + inner);
}

/// An empty tag of section properties gives a section of which nothing is said.
pub proof fn law_empty_sections_are_read(before: Seq<Ev>, e: Ev)
    requires
        is_empty_tag(e, "w:sectPr"),
    ensures
        ({
            let done = sections_state(before).done;
            let none = Seq::<Ev>::empty();
            sections_state(before.push(e)).done == done.push(section_said(done.len() as int, none))
        }),
{
    assert(before.push(e).drop_last() =~= before);
    let none = Seq::<Ev>::empty();
    let n = sections_state(before).done.len() as int;
    assert(section_said(n, none) == blank_section(n));
}

/// What stands outside section properties says nothing of sections.
pub proof fn law_other_events_say_nothing_of_sections(before: Seq<Ev>, events: Seq<Ev>)
    requires
        without_sections(events),
        sections_state(before).current is None,
    ensures
        sections_state(before + events) == sections_state(before),
    decreases events.len(),
{
    if events.len() == 0 {
        assert(before + events =~= before);
    } else {
        let init = events.drop_last();
        assert(without_sections(init)) by {
            assert forall|i: int| 0 <= i < init.len() implies !is_start(
                #[trigger] init[i],
                "w:sectPr",
            ) && !is_end(init[i], "w:sectPr") && !is_empty_tag(init[i], "w:sectPr") by {
                assert(init[i] == events[i]);
            }
        }
        assert(!is_start(events[events.len() - 1], "w:sectPr"));
        law_other_events_say_nothing_of_sections(before, init);
        assert((before + events).drop_last() =~= before + init);
        assert((before + events).last() == events.last());
    }
}

// ---------------------------------------------------------------------------
// Defaults
// ---------------------------------------------------------------------------

/// The first default font that is given counts, and the sizes are kept in order: what follows
/// changes neither.
pub proof fn law_first_defaults_count(before: Seq<Ev>, events: Seq<Ev>)
    ensures
        defaults_state(before).font is Some ==> defaults_state(before + events).font
            == defaults_state(before).font,
        defaults_state(before).sizes.is_prefix_of(defaults_state(before + events).sizes),
    decreases events.len(),
{
    let a = defaults_state(before);
    if events.len() == 0 {
        assert(before + events =~= before);
        assert(a.sizes.take(a.sizes.len() as int) =~= a.sizes);
    } else {
        law_first_defaults_count(before, events.drop_last());
        let all = before + events;
        assert(all.drop_last() =~= before + events.drop_last());
        let mid = defaults_state(all.drop_last());
        let end = defaults_state(all);
        assert(end.sizes.take(a.sizes.len() as int) =~= mid.sizes.take(a.sizes.len() as int));
    }
}

proof fn lemma_default_names()
    ensures
        lit("w:rPr") != lit("w:docDefaults"),
        lit("w:rPr") != lit("w:rPrDefault"),
        lit("w:rPr") != lit("w:style"),
        lit("w:rPr") != lit("w:rFonts"),
        lit("w:rPr") != lit("w:sz"),
        lit("w:docDefaults") != lit("w:style"),
        lit("w:rFonts") != lit("w:docDefaults"),
        lit("w:rFonts") != lit("w:rPrDefault"),
        lit("w:rFonts") != lit("w:style"),
        lit("w:rFonts") != lit("w:sz"),
        lit("w:sz") != lit("w:docDefaults"),
        lit("w:sz") != lit("w:rPrDefault"),
        lit("w:sz") != lit("w:style"),
        lit("w:style") != lit("w:rPrDefault"),
{
    reveal_strlit("w:rPr");
    reveal_strlit("w:docDefaults");
    reveal_strlit("w:rPrDefault");
    reveal_strlit("w:style");
    reveal_strlit("w:rFonts");
    reveal_strlit("w:sz");
    is_ascii_chars_encode_utf8("w:rPr"@);
    is_ascii_chars_encode_utf8("w:docDefaults"@);
    is_ascii_chars_encode_utf8("w:rPrDefault"@);
    is_ascii_chars_encode_utf8("w:style"@);
    is_ascii_chars_encode_utf8("w:rFonts"@);
    is_ascii_chars_encode_utf8("w:sz"@);
    assert(lit("w:rPr").len() == 5);
    assert(lit("w:docDefaults").len() == 13);
    assert(lit("w:rPrDefault").len() == 12);
    assert(lit("w:style").len() == 7);
    assert(lit("w:rFonts").len() == 8);
    assert(lit("w:sz").len() == 4);
}

/// The last attribute of a name whose value is text.
pub open spec fn is_last_text(attrs: Seq<At>, key: &str, value: Seq<char>) -> bool {
    exists|k: int|
        0 <= k < attrs.len() && (#[trigger] attrs[k]).key == lit(key) && utf8_text(attrs[k].value)
            == Some(value) && forall|l: int|
            k < l < attrs.len() ==> (#[trigger] attrs[l]).key != lit(key)
}

proof fn lemma_last_text(attrs: Seq<At>, key: &str, value: Seq<char>)
    requires
        is_last_text(attrs, key, value),
    ensures
        last_text(attrs, key) == Some(value),
    decreases attrs.len(),
{
    let k = choose|k: int|
        0 <= k < attrs.len() && (#[trigger] attrs[k]).key == lit(key) && utf8_text(attrs[k].value)
            == Some(value) && forall|l: int|
            k < l < attrs.len() ==> (#[trigger] attrs[l]).key != lit(key);
    if k < attrs.len() - 1 {
        let init = attrs.drop_last();
        assert(attrs[attrs.len() - 1].key != lit(key));
        assert(init[k] == attrs[k]);
        assert forall|l: int| k < l < init.len() implies (#[trigger] init[l]).key != lit(key) by {
            assert(init[l] == attrs[l]);
        }
        lemma_last_text(init, key, value);
    }
}

/// A tag that opens run properties inside the document's defaults, or inside the style with
/// the id `Normal`.
pub open spec fn opens_defaults(outer: Ev, rpr: Ev) -> bool {
    &&& is_start(rpr, "w:rPr")
    &&& is_start(outer, "w:docDefaults") || (is_start(outer, "w:style") && exists|k: int|
        0 <= k < tag_attrs(outer, true).len() && (#[trigger] tag_attrs(outer, true)[k]).key == lit(
            "w:styleId",
        ) && tag_attrs(outer, true)[k].value == lit("Normal"))
}

/// The default font and size are those that the run properties of the defaults, or of the
/// normal style, give.
pub proof fn law_defaults_are_read(
    before: Seq<Ev>,
    outer: Ev,
    rpr: Ev,
    fonts: Ev,
    size: Ev,
    font: Seq<char>,
    half_points: Seq<char>,
)
    requires
        opens_defaults(outer, rpr),
        !defaults_state(before).in_defaults,
        !defaults_state(before).in_default_rpr,
        defaults_state(before).font is None,
        is_start(fonts, "w:rFonts") || is_empty_tag(fonts, "w:rFonts"),
        is_last_text(tag_attrs(fonts, true), "w:ascii", font),
        is_start(size, "w:sz") || is_empty_tag(size, "w:sz"),
        is_last_text(tag_attrs(size, true), "w:val", half_points),
    ensures
        ({
            let s = defaults_state(before.push(outer).push(rpr).push(fonts).push(size));
            &&& s.font == Some(font)
            &&& s.sizes == defaults_state(before).sizes.push(half_points)
        }),
{
    lemma_default_names();
    lemma_last_text(tag_attrs(fonts, true), "w:ascii", font);
    lemma_last_text(tag_attrs(size, true), "w:val", half_points);
    let a = before.push(outer);
    let b = a.push(rpr);
    let c = b.push(fonts);
    let d = c.push(size);
    assert(a.drop_last() =~= before);
    assert(b.drop_last() =~= a);
    assert(c.drop_last() =~= b);
    assert(d.drop_last() =~= c);
    let sa = defaults_state(a);
    assert(a.last() == outer && b.last() == rpr && c.last() == fonts && d.last() == size);
    assert(sa == defaults_step(defaults_state(before), outer));
    assert(sa.in_defaults || sa.in_normal);
    let sb = defaults_state(b);
    assert(sb == defaults_step(sa, rpr));
    assert(sb.in_default_rpr || sb.in_normal_rpr);
    assert(sb.font is None);
    let sc = defaults_state(c);
    assert(sc == defaults_step(sb, fonts));
    assert(sc.font == Some(font));
    assert(sc.in_default_rpr || sc.in_normal_rpr);
    assert(defaults_state(d) == defaults_step(sc, size));
}

/// Outside such run properties nothing is a default.
pub proof fn law_other_properties_are_no_defaults(before: Seq<Ev>, e: Ev)
    requires
        !defaults_state(before).in_default_rpr,
        !defaults_state(before).in_normal_rpr,
    ensures
        defaults_state(before.push(e)).font == defaults_state(before).font,
        defaults_state(before.push(e)).sizes == defaults_state(before).sizes,
{
    assert(before.push(e).drop_last() =~= before);
}

/// Before anything is read there is no default, and a blueprint that gives no font has Times
/// New Roman.
pub proof fn law_no_defaults(parts: Parts)
    ensures
        part(parts, PART_STYLES@) is None ==> blueprint_schema(parts).default_font
            == "Times New Roman"@ && blueprint_schema(parts).default_font_sizes.len() == 0,
        part(parts, PART_STYLES@) matches Some(data) ==> {
            let s = defaults_state(xml_events(data));
            &&& s.font is None ==> blueprint_schema(parts).default_font == "Times New Roman"@
            &&& s.font matches Some(f) ==> blueprint_schema(parts).default_font == f
            &&& blueprint_schema(parts).default_font_sizes == s.sizes
        },
        part(parts, PART_DOCUMENT@) is None ==> blueprint_schema(parts).sections.len() == 0,
{
}

} // verus!
