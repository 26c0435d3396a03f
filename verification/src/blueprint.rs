//! A combined snapshot of a blueprint: its sections, defaults, styles and the format of its
//! footnote numbers.
//!
//! Measures stand as they are written: lengths in twips, twentieths of a point, and font
//! sizes in half points.

use vstd::prelude::*;

use crate::bytes::{is_str, lit};
use crate::error::Error;
use crate::footnote_format::{
    extract_footnote_format, no_format, part_format, FootnoteFormat, FormatView,
};
use crate::ns::{PART_DOCUMENT, PART_FOOTNOTES, PART_STYLES};
use crate::package::{part, Package, Parts};
use crate::paragraph_text::texts_view;
use crate::style_mapper::{
    opt_text, package_readable, package_styles, value_or_empty, StyleIndex, StyleIndexView,
};
use crate::text::{utf8_str, utf8_text};
use crate::xml::{
    attributes, attrs_view, events_view, is_empty_tag, is_end, is_start, parse_events,
    tag_attrs, tag_name, xml_events, xml_readable, At, Ev, EventKind, XmlAttr, XmlEvent,
};

verus! {

/// The geometry of a section, in twips as written. What is absent is `None`.
#[derive(Debug)]
pub struct SectionInfo {
    /// The position of the section in the document.
    pub index: usize,
    /// Page width.
    pub page_width: Option<String>,
    /// Page height.
    pub page_height: Option<String>,
    /// Left margin.
    pub left_margin: Option<String>,
    /// Right margin.
    pub right_margin: Option<String>,
    /// Top margin.
    pub top_margin: Option<String>,
    /// Bottom margin.
    pub bottom_margin: Option<String>,
    /// Gutter, the extra space for binding.
    pub gutter: Option<String>,
    /// Distance of the header.
    pub header_distance: Option<String>,
    /// Distance of the footer.
    pub footer_distance: Option<String>,
    /// `portrait` or `landscape`.
    pub orientation: Option<String>,
}

/// The geometry of a section.
#[verifier::ext_equal]
pub struct SectionView {
    pub index: int,
    pub page_width: Option<Seq<char>>,
    pub page_height: Option<Seq<char>>,
    pub left_margin: Option<Seq<char>>,
    pub right_margin: Option<Seq<char>>,
    pub top_margin: Option<Seq<char>>,
    pub bottom_margin: Option<Seq<char>>,
    pub gutter: Option<Seq<char>>,
    pub header_distance: Option<Seq<char>>,
    pub footer_distance: Option<Seq<char>>,
    pub orientation: Option<Seq<char>>,
}

impl View for SectionInfo {
    type V = SectionView;

    open spec fn view(&self) -> SectionView {
        SectionView {
            index: self.index as int,
            page_width: opt_text(self.page_width),
            page_height: opt_text(self.page_height),
            left_margin: opt_text(self.left_margin),
            right_margin: opt_text(self.right_margin),
            top_margin: opt_text(self.top_margin),
            bottom_margin: opt_text(self.bottom_margin),
            gutter: opt_text(self.gutter),
            header_distance: opt_text(self.header_distance),
            footer_distance: opt_text(self.footer_distance),
            orientation: opt_text(self.orientation),
        }
    }
}

/// The sections of a vector.
pub open spec fn sections_view(v: Seq<SectionInfo>) -> Seq<SectionView> {
    v.map_values(|s: SectionInfo| s@)
}

/// A section of which nothing is said.
pub open spec fn blank_section(index: int) -> SectionView {
    SectionView {
        index,
        page_width: None,
        page_height: None,
        left_margin: None,
        right_margin: None,
        top_margin: None,
        bottom_margin: None,
        gutter: None,
        header_distance: None,
        footer_distance: None,
        orientation: None,
    }
}

fn new_section(index: usize) -> (r: SectionInfo)
    ensures
        r@ == blank_section(index as int),
{
    SectionInfo {
        index,
        page_width: None,
        page_height: None,
        left_margin: None,
        right_margin: None,
        top_margin: None,
        bottom_margin: None,
        gutter: None,
        header_distance: None,
        footer_distance: None,
        orientation: None,
    }
}

/// A section with the attributes of its page size.
pub open spec fn with_size(s: SectionView, attrs: Seq<At>) -> SectionView
    decreases attrs.len(),
{
    if attrs.len() == 0 {
        s
    } else {
        let before = with_size(s, attrs.drop_last());
        let value = Some(value_or_empty(attrs.last().value));
        let key = attrs.last().key;
        if key == lit("w:w") {
            SectionView { page_width: value, ..before }
        } else if key == lit("w:h") {
            SectionView { page_height: value, ..before }
        } else if key == lit("w:orient") {
            SectionView { orientation: value, ..before }
        } else {
            before
        }
    }
}

/// A section with the attributes of its margins.
pub open spec fn with_margins(s: SectionView, attrs: Seq<At>) -> SectionView
    decreases attrs.len(),
{
    if attrs.len() == 0 {
        s
    } else {
        let before = with_margins(s, attrs.drop_last());
        let value = Some(value_or_empty(attrs.last().value));
        let key = attrs.last().key;
        if key == lit("w:left") {
            SectionView { left_margin: value, ..before }
        } else if key == lit("w:right") {
            SectionView { right_margin: value, ..before }
        } else if key == lit("w:top") {
            SectionView { top_margin: value, ..before }
        } else if key == lit("w:bottom") {
            SectionView { bottom_margin: value, ..before }
        } else if key == lit("w:gutter") {
            SectionView { gutter: value, ..before }
        } else if key == lit("w:header") {
            SectionView { header_distance: value, ..before }
        } else if key == lit("w:footer") {
            SectionView { footer_distance: value, ..before }
        } else {
            before
        }
    }
}

fn text_or_empty(value: &[u8]) -> (r: Option<String>)
    ensures
        opt_text(r) == Some(value_or_empty(value@)),
{
    match utf8_str(value) {
        Some(s) => Some(s.to_owned()),
        None => {
            let r = String::new();
            assert(r@ =~= Seq::empty());
            Some(r)
        },
    }
}

impl SectionInfo {
    fn set_size(&mut self, a: &XmlAttr)
        ensures
            forall|before: SectionView, attrs: Seq<At>|
                attrs.len() > 0 && attrs.last() == a@ && old(self)@ == with_size(
                    before,
                    attrs.drop_last(),
                ) ==> final(self)@ == #[trigger] with_size(before, attrs),
    {
        let value = text_or_empty(&a.value);
        if is_str(&a.key, "w:w") {
            self.page_width = value;
        } else if is_str(&a.key, "w:h") {
            self.page_height = value;
        } else if is_str(&a.key, "w:orient") {
            self.orientation = value;
        }
    }

    fn set_margin(&mut self, a: &XmlAttr)
        ensures
            forall|before: SectionView, attrs: Seq<At>|
                attrs.len() > 0 && attrs.last() == a@ && old(self)@ == with_margins(
                    before,
                    attrs.drop_last(),
                ) ==> final(self)@ == #[trigger] with_margins(before, attrs),
    {
        let value = text_or_empty(&a.value);
        if is_str(&a.key, "w:left") {
            self.left_margin = value;
        } else if is_str(&a.key, "w:right") {
            self.right_margin = value;
        } else if is_str(&a.key, "w:top") {
            self.top_margin = value;
        } else if is_str(&a.key, "w:bottom") {
            self.bottom_margin = value;
        } else if is_str(&a.key, "w:gutter") {
            self.gutter = value;
        } else if is_str(&a.key, "w:header") {
            self.header_distance = value;
        } else if is_str(&a.key, "w:footer") {
            self.footer_distance = value;
        }
    }

    fn read_size(&mut self, attrs: &Vec<XmlAttr>)
        ensures
            final(self)@ == with_size(old(self)@, attrs_view(attrs@)),
    {
        let ghost all = attrs_view(attrs@);
        let mut i: usize = 0;
        assert(all.take(0) =~= Seq::empty());
        while i < attrs.len()
            invariant
                i <= attrs@.len(),
                all == attrs_view(attrs@),
                self@ == with_size(old(self)@, all.take(i as int)),
            decreases attrs@.len() - i,
        {
            proof {
                assert(all.take(i + 1).drop_last() =~= all.take(i as int));
                assert(all.take(i + 1).last() == attrs@[i as int]@);
            }
            self.set_size(&attrs[i]);
            assert(self@ == with_size(old(self)@, all.take(i + 1)));
            i += 1;
        }
        assert(all.take(i as int) =~= all);
    }

    fn read_margins(&mut self, attrs: &Vec<XmlAttr>)
        ensures
            final(self)@ == with_margins(old(self)@, attrs_view(attrs@)),
    {
        let ghost all = attrs_view(attrs@);
        let mut i: usize = 0;
        assert(all.take(0) =~= Seq::empty());
        while i < attrs.len()
            invariant
                i <= attrs@.len(),
                all == attrs_view(attrs@),
                self@ == with_margins(old(self)@, all.take(i as int)),
            decreases attrs@.len() - i,
        {
            proof {
                assert(all.take(i + 1).drop_last() =~= all.take(i as int));
                assert(all.take(i + 1).last() == attrs@[i as int]@);
            }
            self.set_margin(&attrs[i]);
            assert(self@ == with_margins(old(self)@, all.take(i + 1)));
            i += 1;
        }
        assert(all.take(i as int) =~= all);
    }
}

/// Sections so far, and the one being read.
#[verifier::ext_equal]
pub struct SectionsView {
    pub done: Seq<SectionView>,
    pub current: Option<SectionView>,
}

/// What an event does to the reading of sections.
pub open spec fn sections_step(s: SectionsView, e: Ev) -> SectionsView {
    let fresh = blank_section(s.done.len() as int);
    if is_empty_tag(e, "w:sectPr") {
        SectionsView { done: s.done.push(fresh), ..s }
    } else if is_start(e, "w:sectPr") {
        SectionsView { current: Some(fresh), ..s }
    } else if is_end(e, "w:sectPr") {
        match s.current {
            Some(cur) => SectionsView { done: s.done.push(cur), current: None },
            None => s,
        }
    } else if (e.kind == EventKind::Empty || e.kind == EventKind::Start) && s.current is Some {
        let cur = s.current->0;
        if tag_name(e) == lit("w:pgSz") {
            SectionsView { current: Some(with_size(cur, tag_attrs(e, true))), ..s }
        } else if tag_name(e) == lit("w:pgMar") {
            SectionsView { current: Some(with_margins(cur, tag_attrs(e, true))), ..s }
        } else {
            s
        }
    } else {
        s
    }
}

/// The reading of sections after events.
pub open spec fn sections_state(events: Seq<Ev>) -> SectionsView
    decreases events.len(),
{
    if events.len() == 0 {
        SectionsView { done: Seq::empty(), current: None }
    } else {
        sections_step(sections_state(events.drop_last()), events.last())
    }
}

/// The section being read.
pub open spec fn current_view(c: Option<SectionInfo>) -> Option<SectionView> {
    match c {
        Some(s) => Some(s@),
        None => None,
    }
}

fn push_section(v: &mut Vec<SectionInfo>, s: SectionInfo)
    ensures
        sections_view(final(v)@) == sections_view(old(v)@).push(s@),
{
    v.push(s);
    assert(sections_view(v@) =~= sections_view(old(v)@).push(s@));
}

/// The sections of a document, in order. The last is that of the body, the others are
/// section breaks.
pub fn sections_from_events(events: &Vec<XmlEvent>) -> (r: Vec<SectionInfo>)
    ensures
        sections_view(r@) == sections_state(events_view(events@)).done,
{
    let ghost evs = events_view(events@);
    let mut done: Vec<SectionInfo> = Vec::new();
    let mut current: Option<SectionInfo> = None;
    let mut i: usize = 0;
    assert(evs.take(0) =~= Seq::empty());
    assert(sections_view(done@) =~= Seq::empty());
    while i < events.len()
        invariant
            i <= events@.len(),
            evs == events_view(events@),
            sections_state(evs.take(i as int)) == (SectionsView {
                done: sections_view(done@),
                current: current_view(current),
            }),
        decreases events@.len() - i,
    {
        let ev: &XmlEvent = &events[i];
        proof {
            assert(evs.take(i + 1).drop_last() =~= evs.take(i as int));
            assert(evs.take(i + 1).last() == ev@);
        }
        if ev.is_empty_tag("w:sectPr") {
            let s = new_section(done.len());
            push_section(&mut done, s);
        } else if ev.is_start("w:sectPr") {
            current = Some(new_section(done.len()));
        } else if ev.is_end("w:sectPr") {
            if let Some(s) = current {
                push_section(&mut done, s);
            }
            current = None;
        } else if ev.kind == EventKind::Empty || ev.kind == EventKind::Start {
            current = match current {
                Some(s) => {
                    let mut cur = s;
                    if ev.has_name("w:pgSz") {
                        cur.read_size(&attributes(ev, true));
                    } else if ev.has_name("w:pgMar") {
                        cur.read_margins(&attributes(ev, true));
                    }
                    Some(cur)
                },
                None => None,
            };
        }
        i += 1;
    }
    assert(evs.take(i as int) =~= evs);
    done
}

/// The sections of a document.
pub fn parse_sections(input: &[u8]) -> (res: Result<Vec<SectionInfo>, Error>)
    ensures
        match res {
            Ok(v) => xml_readable(input@) && sections_view(v@) == sections_state(
                xml_events(input@),
            ).done,
            Err(e) => !xml_readable(input@) && e.is_xml_parse(PART_DOCUMENT@),
        },
{
    let events = parse_events(input, PART_DOCUMENT)?;
    Ok(sections_from_events(&events))
}

// ---------------------------------------------------------------------------
// Defaults
// ---------------------------------------------------------------------------

/// Reading of the default font and size: where the reading stands, the font, and the sizes
/// that were met.
#[verifier::ext_equal]
pub struct DefaultsView {
    pub in_defaults: bool,
    pub in_default_rpr: bool,
    pub in_normal: bool,
    pub in_normal_rpr: bool,
    pub font: Option<Seq<char>>,
    pub sizes: Seq<Seq<char>>,
}

/// A style is the normal style.
pub open spec fn is_normal(attrs: Seq<At>) -> bool {
    exists|i: int|
        0 <= i < attrs.len() && (#[trigger] attrs[i]).key == lit("w:styleId") && attrs[i].value
            == lit("Normal")
}

/// The last value, in UTF-8, of the attributes with a key.
pub open spec fn last_text(attrs: Seq<At>, key: &str) -> Option<Seq<char>>
    decreases attrs.len(),
{
    if attrs.len() == 0 {
        None
    } else if attrs.last().key == lit(key) && utf8_text(attrs.last().value) is Some {
        utf8_text(attrs.last().value)
    } else {
        last_text(attrs.drop_last(), key)
    }
}

/// What a tag inside run properties does to the reading of the defaults.
pub open spec fn property_step(s: DefaultsView, e: Ev) -> DefaultsView {
    let attrs = tag_attrs(e, true);
    if tag_name(e) == lit("w:rFonts") && s.font is None {
        DefaultsView { font: last_text(attrs, "w:ascii"), ..s }
    } else if tag_name(e) == lit("w:sz") && last_text(attrs, "w:val") is Some {
        DefaultsView { sizes: s.sizes.push(last_text(attrs, "w:val")->0), ..s }
    } else {
        s
    }
}

/// What an event does to the reading of the defaults.
pub open spec fn defaults_step(s: DefaultsView, e: Ev) -> DefaultsView {
    if is_start(e, "w:docDefaults") {
        DefaultsView { in_defaults: true, ..s }
    } else if is_end(e, "w:docDefaults") {
        DefaultsView { in_defaults: false, ..s }
    } else if s.in_defaults && is_start(e, "w:rPrDefault") {
        s
    } else if s.in_defaults && is_start(e, "w:rPr") {
        DefaultsView { in_default_rpr: true, ..s }
    } else if s.in_default_rpr && is_end(e, "w:rPr") {
        DefaultsView { in_default_rpr: false, ..s }
    } else if is_start(e, "w:style") {
        DefaultsView { in_normal: is_normal(tag_attrs(e, true)), ..s }
    } else if is_end(e, "w:style") {
        DefaultsView { in_normal: false, in_normal_rpr: false, ..s }
    } else if s.in_normal && is_start(e, "w:rPr") {
        DefaultsView { in_normal_rpr: true, ..s }
    } else if s.in_normal_rpr && is_end(e, "w:rPr") {
        DefaultsView { in_normal_rpr: false, ..s }
    } else if (e.kind == EventKind::Empty || e.kind == EventKind::Start) && (s.in_default_rpr
        || s.in_normal_rpr) {
        property_step(s, e)
    } else {
        s
    }
}

/// The reading of the defaults after events.
pub open spec fn defaults_state(events: Seq<Ev>) -> DefaultsView
    decreases events.len(),
{
    if events.len() == 0 {
        DefaultsView {
            in_defaults: false,
            in_default_rpr: false,
            in_normal: false,
            in_normal_rpr: false,
            font: None,
            sizes: Seq::empty(),
        }
    } else {
        defaults_step(defaults_state(events.drop_last()), events.last())
    }
}

fn names_normal(attrs: &Vec<XmlAttr>) -> (r: bool)
    ensures
        r == is_normal(attrs_view(attrs@)),
{
    let ghost all = attrs_view(attrs@);
    let mut i: usize = 0;
    while i < attrs.len()
        invariant
            i <= attrs@.len(),
            all == attrs_view(attrs@),
            forall|j: int|
                0 <= j < i ==> !((#[trigger] all[j]).key == lit("w:styleId") && all[j].value == lit(
                    "Normal",
                )),
        decreases attrs@.len() - i,
    {
        assert(all[i as int] == attrs@[i as int]@);
        if is_str(&attrs[i].key, "w:styleId") && is_str(&attrs[i].value, "Normal") {
            return true;
        }
        i += 1;
    }
    false
}

fn find_last_text(attrs: &Vec<XmlAttr>, key: &str) -> (r: Option<String>)
    ensures
        opt_text(r) == last_text(attrs_view(attrs@), key),
{
    let ghost all = attrs_view(attrs@);
    let mut r: Option<String> = None;
    let mut i: usize = 0;
    assert(all.take(0) =~= Seq::empty());
    while i < attrs.len()
        invariant
            i <= attrs@.len(),
            all == attrs_view(attrs@),
            opt_text(r) == last_text(all.take(i as int), key),
        decreases attrs@.len() - i,
    {
        proof {
            assert(all.take(i + 1).drop_last() =~= all.take(i as int));
            assert(all.take(i + 1).last() == attrs@[i as int]@);
        }
        if is_str(&attrs[i].key, key) {
            if let Some(s) = utf8_str(&attrs[i].value) {
                r = Some(s.to_owned());
            }
        }
        i += 1;
    }
    assert(all.take(i as int) =~= all);
    r
}

struct Defaults {
    in_defaults: bool,
    in_default_rpr: bool,
    in_normal: bool,
    in_normal_rpr: bool,
    font: Option<String>,
    sizes: Vec<String>,
}

impl Defaults {
    spec fn view(&self) -> DefaultsView {
        DefaultsView {
            in_defaults: self.in_defaults,
            in_default_rpr: self.in_default_rpr,
            in_normal: self.in_normal,
            in_normal_rpr: self.in_normal_rpr,
            font: opt_text(self.font),
            sizes: texts_view(self.sizes@),
        }
    }

    fn read_property(&mut self, ev: &XmlEvent)
        ensures
            final(self).view() == property_step(old(self).view(), ev@),
    {
        if ev.has_name("w:rFonts") && self.font.is_none() {
            self.font = find_last_text(&attributes(ev, true), "w:ascii");
        } else if ev.has_name("w:sz") {
            if let Some(size) = find_last_text(&attributes(ev, true), "w:val") {
                let ghost before = self.sizes@;
                self.sizes.push(size);
                assert(texts_view(self.sizes@) =~= texts_view(before).push(size@));
            }
        }
    }

    fn read(&mut self, ev: &XmlEvent)
        ensures
            final(self).view() == defaults_step(old(self).view(), ev@),
    {
        if ev.is_start("w:docDefaults") {
            self.in_defaults = true;
        } else if ev.is_end("w:docDefaults") {
            self.in_defaults = false;
        } else if self.in_defaults && ev.is_start("w:rPrDefault") {
        } else if self.in_defaults && ev.is_start("w:rPr") {
            self.in_default_rpr = true;
        } else if self.in_default_rpr && ev.is_end("w:rPr") {
            self.in_default_rpr = false;
        } else if ev.is_start("w:style") {
            self.in_normal = names_normal(&attributes(ev, true));
        } else if ev.is_end("w:style") {
            self.in_normal = false;
            self.in_normal_rpr = false;
        } else if self.in_normal && ev.is_start("w:rPr") {
            self.in_normal_rpr = true;
        } else if self.in_normal_rpr && ev.is_end("w:rPr") {
            self.in_normal_rpr = false;
        } else if (ev.kind == EventKind::Empty || ev.kind == EventKind::Start) && (
        self.in_default_rpr || self.in_normal_rpr) {
            self.read_property(ev);
        }
    }
}

/// The default font of a styles part, and the font sizes that its defaults and its normal
/// style give, in order.
pub fn defaults_from_events(events: &Vec<XmlEvent>) -> (r: (Option<String>, Vec<String>))
    ensures
        opt_text(r.0) == defaults_state(events_view(events@)).font,
        texts_view(r.1@) == defaults_state(events_view(events@)).sizes,
{
    let ghost evs = events_view(events@);
    let mut d = Defaults {
        in_defaults: false,
        in_default_rpr: false,
        in_normal: false,
        in_normal_rpr: false,
        font: None,
        sizes: Vec::new(),
    };
    let mut i: usize = 0;
    assert(evs.take(0) =~= Seq::empty());
    assert(texts_view(d.sizes@) =~= Seq::empty());
    while i < events.len()
        invariant
            i <= events@.len(),
            evs == events_view(events@),
            d.view() == defaults_state(evs.take(i as int)),
        decreases events@.len() - i,
    {
        proof {
            assert(evs.take(i + 1).drop_last() =~= evs.take(i as int));
            assert(evs.take(i + 1).last() == events@[i as int]@);
        }
        d.read(&events[i]);
        i += 1;
    }
    assert(evs.take(i as int) =~= evs);
    (d.font, d.sizes)
}

/// The default font of a styles part, and the font sizes that its defaults and its normal
/// style give, in half points as written. The first that is a number counts.
pub fn parse_defaults(input: &[u8]) -> (res: Result<(Option<String>, Vec<String>), Error>)
    ensures
        match res {
            Ok(d) => xml_readable(input@) && opt_text(d.0) == defaults_state(
                xml_events(input@),
            ).font && texts_view(d.1@) == defaults_state(xml_events(input@)).sizes,
            Err(e) => !xml_readable(input@) && e.is_xml_parse(PART_STYLES@),
        },
{
    let events = parse_events(input, PART_STYLES)?;
    Ok(defaults_from_events(&events))
}

// ---------------------------------------------------------------------------
// Schema
// ---------------------------------------------------------------------------

/// What a blueprint prescribes.
#[derive(Debug)]
pub struct BlueprintSchema {
    /// The sections, in document order.
    pub sections: Vec<SectionInfo>,
    /// The default font.
    pub default_font: String,
    /// Default font sizes in half points as written; the first that is a number counts.
    pub default_font_sizes: Vec<String>,
    /// The styles.
    pub styles: StyleIndex,
    /// The format of footnote numbers.
    pub footnote_format: FootnoteFormat,
}

/// What a blueprint prescribes.
#[verifier::ext_equal]
pub struct SchemaView {
    pub sections: Seq<SectionView>,
    pub default_font: Seq<char>,
    pub default_font_sizes: Seq<Seq<char>>,
    pub styles: StyleIndexView,
    pub footnote_format: FormatView,
}

impl View for BlueprintSchema {
    type V = SchemaView;

    open spec fn view(&self) -> SchemaView {
        SchemaView {
            sections: sections_view(self.sections@),
            default_font: self.default_font@,
            default_font_sizes: texts_view(self.default_font_sizes@),
            styles: self.styles@,
            footnote_format: self.footnote_format@,
        }
    }
}

/// What the blueprint in a package prescribes. A font that is not given is Times New Roman.
pub open spec fn blueprint_schema(parts: Parts) -> SchemaView {
    let defaults = match part(parts, PART_STYLES@) {
        Some(data) => defaults_state(xml_events(data)),
        None => defaults_state(Seq::empty()),
    };
    SchemaView {
        sections: match part(parts, PART_DOCUMENT@) {
            Some(data) => sections_state(xml_events(data)).done,
            None => Seq::empty(),
        },
        default_font: match defaults.font {
            Some(f) => f,
            None => "Times New Roman"@,
        },
        default_font_sizes: defaults.sizes,
        styles: package_styles(parts),
        footnote_format: match part(parts, PART_FOOTNOTES@) {
            Some(data) => part_format(data),
            None => no_format(),
        },
    }
}

/// Reads what the blueprint in a package prescribes.
pub fn analyze_blueprint(pkg: &Package) -> (res: Result<BlueprintSchema, Error>)
    ensures
        match res {
            Ok(s) => package_readable(pkg@) && s@ == blueprint_schema(pkg@),
            Err(e) => {
                let bad_styles = part(pkg@, PART_STYLES@) is Some && !xml_readable(
                    part(pkg@, PART_STYLES@)->0,
                );
                &&& !package_readable(pkg@)
                &&& bad_styles ==> e.is_xml_parse(PART_STYLES@)
                &&& !bad_styles ==> e.is_xml_parse(PART_DOCUMENT@)
            },
        },
{
    let styles = StyleIndex::from_package(pkg)?;
    let footnote_format = extract_footnote_format(pkg)?;
    let sections = match pkg.get_part(PART_DOCUMENT) {
        Some(doc) => parse_sections(doc)?,
        None => {
            let none: Vec<SectionInfo> = Vec::new();
            assert(sections_view(none@) =~= Seq::empty());
            none
        },
    };
    let (font, default_font_sizes) = match pkg.get_part(PART_STYLES) {
        Some(data) => parse_defaults(data)?,
        None => {
            let none: Vec<String> = Vec::new();
            assert(texts_view(none@) =~= Seq::empty());
            (None, none)
        },
    };
    let default_font = match font {
        Some(f) => f,
        None => "Times New Roman".to_owned(),
    };
    Ok(BlueprintSchema { sections, default_font, default_font_sizes, styles, footnote_format })
}

} // verus!
