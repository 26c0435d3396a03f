//! Mapping of source style names to blueprint style names.
//!
//! A name is resolved in this order: a user override whose target exists in the
//! blueprint; for a heading, the blueprint's style of that level or of a level near
//! it; the same name; the same name in other case; the blueprint's style for the
//! name's semantic class; the blueprint's body style.

use std::collections::BTreeMap;
use vstd::prelude::*;
use vstd::utf8::encode_utf8;

use crate::bytes::{is_str, lit, push_all, push_str};
use crate::error::Error;
use crate::names::{
    has_name, inserted, lemma_inserted, lemma_key_index, lookup, sorted, NameMap, NameSet, Pairs,
};
use crate::ns::{PART_DOCUMENT, PART_STYLES};
use crate::package::{part, with_part, Package};
use crate::style_classify::{classify_style, style_class, SemanticClass};
use crate::text::{
    chars_of, lowercase, parse_unsigned, parsed_unsigned, str_eq, utf8_str, utf8_text,
};
use crate::xml::{
    attr_bytes, attributes, attrs_view, emit, emit_raw, emitted, escape_text, escaped,
    events_view, is_end, is_start, parse_events, tag_attrs, tag_name, unique_keys, xml_events,
    xml_readable, At, Ev, EventKind, XmlAttr, XmlEvent,
};

verus! {

/// A style of a document.
#[derive(Debug)]
pub struct StyleInfo {
    /// The display name.
    pub name: String,
    /// The id by which paragraphs refer to the style.
    pub style_id: String,
    /// 1 = paragraph, 2 = character, 3 = table, 4 = numbering, 0 = anything else.
    pub type_val: u8,
    /// The outline level, 0 for the topmost; `None` for a style that has none.
    pub outline_level: Option<u8>,
}

/// What a style says.
#[verifier::ext_equal]
pub struct StyleInfoView {
    pub name: Seq<char>,
    pub style_id: Seq<char>,
    pub type_val: u8,
    pub outline_level: Option<u8>,
}

impl View for StyleInfo {
    type V = StyleInfoView;

    open spec fn view(&self) -> StyleInfoView {
        StyleInfoView {
            name: self.name@,
            style_id: self.style_id@,
            type_val: self.type_val,
            outline_level: self.outline_level,
        }
    }
}

/// The styles of a document.
#[derive(Debug)]
pub struct StyleIndex {
    /// Display name to style.
    pub styles: NameMap<StyleInfo>,
    /// Style id to display name.
    pub id_to_name: NameMap<String>,
    /// Display name to style id.
    pub name_to_id: NameMap<String>,
    /// The styles that body paragraphs refer to.
    pub body_para_style_names: NameSet,
}

/// What the styles of a document say.
#[verifier::ext_equal]
pub struct StyleIndexView {
    pub styles: Pairs<StyleInfoView>,
    pub id_to_name: Pairs<Seq<char>>,
    pub name_to_id: Pairs<Seq<char>>,
    pub body_para_style_names: Pairs<()>,
}

impl View for StyleIndex {
    type V = StyleIndexView;

    open spec fn view(&self) -> StyleIndexView {
        StyleIndexView {
            styles: self.styles@,
            id_to_name: self.id_to_name@,
            name_to_id: self.name_to_id@,
            body_para_style_names: self.body_para_style_names@,
        }
    }
}

/// A document without styles.
pub open spec fn no_styles() -> StyleIndexView {
    StyleIndexView {
        styles: Seq::empty(),
        id_to_name: Seq::empty(),
        name_to_id: Seq::empty(),
        body_para_style_names: Seq::empty(),
    }
}

impl Default for StyleIndex {
    fn default() -> (r: Self)
        ensures
            r@ == no_styles(),
    {
        StyleIndex {
            styles: NameMap::new(),
            id_to_name: NameMap::new(),
            name_to_id: NameMap::new(),
            body_para_style_names: NameSet::new(),
        }
    }
}

// ---------------------------------------------------------------------------
// Reading styles
// ---------------------------------------------------------------------------

/// The number of a style type.
pub open spec fn type_number(s: Seq<char>) -> u8 {
    if s == "paragraph"@ {
        1
    } else if s == "character"@ {
        2
    } else if s == "table"@ {
        3
    } else if s == "numbering"@ {
        4
    } else {
        0
    }
}

/// The text of an attribute value; nothing where it is not UTF-8.
pub open spec fn value_or_empty(value: Seq<u8>) -> Seq<char> {
    match utf8_text(value) {
        Some(t) => t,
        None => Seq::empty(),
    }
}

/// The style that the attributes of a `<w:style>` start with. Its id serves as its
/// name until a name is given.
pub open spec fn style_from(attrs: Seq<At>) -> StyleInfoView
    decreases attrs.len(),
{
    if attrs.len() == 0 {
        StyleInfoView {
            name: Seq::empty(),
            style_id: Seq::empty(),
            type_val: 0,
            outline_level: None,
        }
    } else {
        let s = style_from(attrs.drop_last());
        let a = attrs.last();
        let value = value_or_empty(a.value);
        if a.key == lit("w:type") {
            StyleInfoView { type_val: type_number(value), ..s }
        } else if a.key == lit("w:styleId") {
            StyleInfoView {
                style_id: value,
                name: if s.name.len() == 0 {
                    value
                } else {
                    s.name
                },
                ..s
            }
        } else {
            s
        }
    }
}

/// The last `w:val` among the attributes that is UTF-8.
pub open spec fn last_val(attrs: Seq<At>) -> Option<Seq<char>>
    decreases attrs.len(),
{
    if attrs.len() == 0 {
        None
    } else if attrs.last().key == lit("w:val") && utf8_text(attrs.last().value) is Some {
        utf8_text(attrs.last().value)
    } else {
        last_val(attrs.drop_last())
    }
}

/// The last `w:val` among the attributes that is a number of eight bits.
pub open spec fn last_level(attrs: Seq<At>) -> Option<u8>
    decreases attrs.len(),
{
    if attrs.len() == 0 {
        None
    } else {
        let a = attrs.last();
        let n = match utf8_text(a.value) {
            Some(t) => parsed_unsigned(t, 255),
            None => None,
        };
        if a.key == lit("w:val") && n is Some {
            Some(n->0 as u8)
        } else {
            last_level(attrs.drop_last())
        }
    }
}

/// How far the reading of styles has come: the index, and the style being read.
#[verifier::ext_equal]
pub struct StylesView {
    pub index: StyleIndexView,
    pub current: Option<StyleInfoView>,
}

/// An index with one more style. A style without a name is left out; one without an
/// id gets no entry in the id tables.
pub open spec fn with_style(idx: StyleIndexView, s: StyleInfoView) -> StyleIndexView {
    if s.name.len() == 0 {
        idx
    } else if s.style_id.len() == 0 {
        StyleIndexView { styles: inserted(idx.styles, s.name, s), ..idx }
    } else {
        StyleIndexView {
            styles: inserted(idx.styles, s.name, s),
            id_to_name: inserted(idx.id_to_name, s.style_id, s.name),
            name_to_id: inserted(idx.name_to_id, s.name, s.style_id),
            ..idx
        }
    }
}

/// An opening tag, empty or not, of a name.
pub open spec fn is_open_tag(e: Ev, name: &str) -> bool {
    (e.kind == EventKind::Start || e.kind == EventKind::Empty) && tag_name(e) == lit(name)
}

/// What one event does to the reading of styles.
pub open spec fn styles_step(s: StylesView, e: Ev) -> StylesView {
    if is_start(e, "w:style") {
        StylesView { current: Some(style_from(tag_attrs(e, true))), ..s }
    } else if is_end(e, "w:style") {
        match s.current {
            Some(info) => StylesView { index: with_style(s.index, info), current: None },
            None => s,
        }
    } else if s.current is Some && is_open_tag(e, "w:name") {
        match last_val(tag_attrs(e, true)) {
            Some(v) => StylesView {
                current: Some(StyleInfoView { name: v, ..s.current->0 }),
                ..s
            },
            None => s,
        }
    } else if s.current is Some && is_open_tag(e, "w:outlineLvl") {
        match last_level(tag_attrs(e, true)) {
            Some(n) => StylesView {
                current: Some(StyleInfoView { outline_level: Some(n), ..s.current->0 }),
                ..s
            },
            None => s,
        }
    } else {
        s
    }
}

/// The state of the reading of styles after `events`.
pub open spec fn styles_state(events: Seq<Ev>) -> StylesView
    decreases events.len(),
{
    if events.len() == 0 {
        StylesView { index: no_styles(), current: None }
    } else {
        styles_step(styles_state(events.drop_last()), events.last())
    }
}

/// The names that the `<w:pStyle>` elements among `events` refer to.
pub open spec fn used_styles(events: Seq<Ev>) -> Pairs<()>
    decreases events.len(),
{
    if events.len() == 0 {
        Seq::empty()
    } else if is_open_tag(events.last(), "w:pStyle") {
        with_vals(used_styles(events.drop_last()), tag_attrs(events.last(), true))
    } else {
        used_styles(events.drop_last())
    }
}

/// A set with every `w:val` among the attributes that is UTF-8.
pub open spec fn with_vals(names: Pairs<()>, attrs: Seq<At>) -> Pairs<()>
    decreases attrs.len(),
{
    if attrs.len() == 0 {
        names
    } else if attrs.last().key == lit("w:val") && utf8_text(attrs.last().value) is Some {
        inserted(with_vals(names, attrs.drop_last()), utf8_text(attrs.last().value)->0, ())
    } else {
        with_vals(names, attrs.drop_last())
    }
}

fn read_style(attrs: &Vec<XmlAttr>) -> (r: StyleInfo)
    ensures
        r@ == style_from(attrs_view(attrs@)),
{
    let ghost all = attrs_view(attrs@);
    let mut r = StyleInfo {
        name: String::new(),
        style_id: String::new(),
        type_val: 0,
        outline_level: None,
    };
    let mut i: usize = 0;
    assert(all.take(0) =~= Seq::empty());
    assert(r@ =~= style_from(all.take(0)));
    while i < attrs.len()
        invariant
            i <= attrs@.len(),
            all == attrs_view(attrs@),
            r@ == style_from(all.take(i as int)),
        decreases attrs@.len() - i,
    {
        let a = &attrs[i];
        let value: &str = match utf8_str(&a.value) {
            Some(t) => t,
            None => "",
        };
        proof {
            reveal_strlit("");
            assert(value@ =~= value_or_empty(a.value@));
            assert(all.take(i + 1).drop_last() =~= all.take(i as int));
            assert(all.take(i + 1).last() == a@);
        }
        if is_str(&a.key, "w:type") {
            r.type_val =
            if str_eq(value, "paragraph") {
                1
            } else if str_eq(value, "character") {
                2
            } else if str_eq(value, "table") {
                3
            } else if str_eq(value, "numbering") {
                4
            } else {
                0
            };
        } else if is_str(&a.key, "w:styleId") {
            r.style_id = value.to_owned();
            if r.name.as_str().is_empty() {
                r.name = value.to_owned();
            }
        }
        assert(r@ =~= style_from(all.take(i + 1)));
        i += 1;
    }
    assert(all.take(i as int) =~= all);
    r
}

/// The last `w:val` among the attributes that is UTF-8.
pub(crate) fn find_last_val(attrs: &Vec<XmlAttr>) -> (r: Option<String>)
    ensures
        match r {
            Some(s) => last_val(attrs_view(attrs@)) == Some(s@),
            None => last_val(attrs_view(attrs@)) is None,
        },
{
    let ghost all = attrs_view(attrs@);
    let mut n: usize = attrs.len();
    assert(all.take(n as int) =~= all);
    while n > 0
        invariant
            n <= attrs@.len(),
            all == attrs_view(attrs@),
            last_val(all) == last_val(all.take(n as int)),
        decreases n,
    {
        let a = &attrs[n - 1];
        proof {
            assert(all.take(n as int).drop_last() =~= all.take(n - 1));
            assert(all.take(n as int).last() == a@);
        }
        if is_str(&a.key, "w:val") {
            if let Some(t) = utf8_str(&a.value) {
                return Some(t.to_owned());
            }
        }
        n -= 1;
    }
    None
}

fn find_last_level(attrs: &Vec<XmlAttr>) -> (r: Option<u8>)
    ensures
        r == last_level(attrs_view(attrs@)),
{
    let ghost all = attrs_view(attrs@);
    let mut n: usize = attrs.len();
    assert(all.take(n as int) =~= all);
    while n > 0
        invariant
            n <= attrs@.len(),
            all == attrs_view(attrs@),
            last_level(all) == last_level(all.take(n as int)),
        decreases n,
    {
        let a = &attrs[n - 1];
        proof {
            assert(all.take(n as int).drop_last() =~= all.take(n - 1));
            assert(all.take(n as int).last() == a@);
        }
        if is_str(&a.key, "w:val") {
            if let Some(t) = utf8_str(&a.value) {
                if let Some(v) = parse_unsigned(&chars_of(t), 255) {
                    return Some(v as u8);
                }
            }
        }
        n -= 1;
    }
    None
}

fn insert_vals(names: &mut NameSet, attrs: &Vec<XmlAttr>)
    ensures
        final(names)@ == with_vals(old(names)@, attrs_view(attrs@)),
        old(names).wf() ==> final(names).wf(),
{
    let ghost all = attrs_view(attrs@);
    let mut i: usize = 0;
    assert(all.take(0) =~= Seq::empty());
    while i < attrs.len()
        invariant
            i <= attrs@.len(),
            all == attrs_view(attrs@),
            names@ == with_vals(old(names)@, all.take(i as int)),
            old(names).wf() ==> names.wf(),
        decreases attrs@.len() - i,
    {
        let a = &attrs[i];
        proof {
            assert(all.take(i + 1).drop_last() =~= all.take(i as int));
            assert(all.take(i + 1).last() == a@);
        }
        if is_str(&a.key, "w:val") {
            if let Some(t) = utf8_str(&a.value) {
                names.insert(t.to_owned());
            }
        }
        i += 1;
    }
    assert(all.take(i as int) =~= all);
}

impl XmlEvent {
    /// Whether this is an opening tag, empty or not, named `name`.
    pub fn is_open_tag(&self, name: &str) -> (r: bool)
        ensures
            r == is_open_tag(self@, name),
    {
        (self.kind == EventKind::Start || self.kind == EventKind::Empty) && self.has_name(name)
    }
}

/// The names that the `<w:pStyle>` elements among the events refer to.
pub fn scan_body_para_styles(events: &Vec<XmlEvent>) -> (r: NameSet)
    ensures
        r@ == used_styles(events_view(events@)),
        r.wf(),
{
    let ghost evs = events_view(events@);
    let mut r = NameSet::new();
    let mut i: usize = 0;
    assert(evs.take(0) =~= Seq::empty());
    while i < events.len()
        invariant
            i <= events@.len(),
            evs == events_view(events@),
            r@ == used_styles(evs.take(i as int)),
            r.wf(),
        decreases events@.len() - i,
    {
        let ev = &events[i];
        proof {
            assert(evs.take(i + 1).drop_last() =~= evs.take(i as int));
            assert(evs.take(i + 1).last() == ev@);
        }
        if ev.is_open_tag("w:pStyle") {
            let attrs = attributes(ev, true);
            insert_vals(&mut r, &attrs);
        }
        i += 1;
    }
    assert(evs.take(i as int) =~= evs);
    r
}

impl StyleIndex {
    /// The maps of the index are in key order.
    pub open spec fn wf(&self) -> bool {
        self.styles.wf() && self.id_to_name.wf() && self.name_to_id.wf()
            && self.body_para_style_names.wf()
    }

    fn add_style(&mut self, info: StyleInfo)
        ensures
            final(self)@ == with_style(old(self)@, info@),
            old(self).wf() ==> final(self).wf(),
    {
        if !info.name.as_str().is_empty() {
            if !info.style_id.as_str().is_empty() {
                self.id_to_name.insert(info.style_id.clone(), info.name.clone());
                self.name_to_id.insert(info.name.clone(), info.style_id.clone());
            }
            self.styles.insert(info.name.clone(), info);
        }
        assert(self@ =~= with_style(old(self)@, info@));
    }

    /// The styles among the events of a styles part.
    pub fn from_events(events: &Vec<XmlEvent>) -> (r: Self)
        ensures
            r@ == styles_state(events_view(events@)).index,
            r.wf(),
    {
        let ghost evs = events_view(events@);
        let mut idx = StyleIndex::default();
        let mut current: Option<StyleInfo> = None;
        let mut i: usize = 0;
        assert(evs.take(0) =~= Seq::empty());
        while i < events.len()
            invariant
                i <= events@.len(),
                evs == events_view(events@),
                idx.wf(),
                styles_state(evs.take(i as int)) == (StylesView {
                    index: idx@,
                    current: match current {
                        Some(c) => Some(c@),
                        None => None,
                    },
                }),
            decreases events@.len() - i,
        {
            let ev = &events[i];
            let ghost s = styles_state(evs.take(i as int));
            if ev.is_start("w:style") {
                let attrs = attributes(ev, true);
                current = Some(read_style(&attrs));
            } else if ev.is_end("w:style") {
                if let Some(info) = current {
                    idx.add_style(info);
                }
                current = None;
            } else if current.is_some() && ev.is_open_tag("w:name") {
                let attrs = attributes(ev, true);
                if let Some(v) = find_last_val(&attrs) {
                    if let Some(c) = &mut current {
                        c.name = v;
                    }
                }
            } else if current.is_some() && ev.is_open_tag("w:outlineLvl") {
                let attrs = attributes(ev, true);
                if let Some(n) = find_last_level(&attrs) {
                    if let Some(c) = &mut current {
                        c.outline_level = Some(n);
                    }
                }
            }
            proof {
                assert(evs.take(i + 1).drop_last() =~= evs.take(i as int));
                assert(evs.take(i + 1).last() == ev@);
                assert(styles_step(s, ev@) =~= (StylesView {
                    index: idx@,
                    current: match current {
                        Some(c) => Some(c@),
                        None => None,
                    },
                }));
            }
            i += 1;
        }
        assert(evs.take(i as int) =~= evs);
        idx
    }

    /// The styles that the bytes of a styles part hold.
    pub fn from_styles_xml(bytes: &[u8]) -> (res: Result<Self, Error>)
        ensures
            match res {
                Ok(idx) => xml_readable(bytes@) && idx.wf() && idx@ == styles_state(
                    xml_events(bytes@),
                ).index,
                Err(e) => !xml_readable(bytes@) && e.is_xml_parse(PART_STYLES@),
            },
    {
        let events = parse_events(bytes, PART_STYLES)?;
        Ok(Self::from_events(&events))
    }

    /// The styles of a package, with the style names that its main document uses.
    pub fn from_package(pkg: &Package) -> (res: Result<Self, Error>)
        ensures
            match res {
                Ok(idx) => idx.wf() && package_readable(pkg@) && idx@ == package_styles(pkg@),
                Err(e) => {
                    let bad_styles = part(pkg@, PART_STYLES@) is Some && !xml_readable(
                        part(pkg@, PART_STYLES@)->0,
                    );
                    &&& !package_readable(pkg@)
                    &&& bad_styles ==> e.is_xml_parse(PART_STYLES@)
                    &&& !bad_styles ==> e.is_xml_parse(PART_DOCUMENT@)
                },
            },
    {
        let mut idx = match pkg.get_part(PART_STYLES) {
            Some(styles) => Self::from_styles_xml(styles)?,
            None => StyleIndex::default(),
        };
        if let Some(doc) = pkg.get_part(PART_DOCUMENT) {
            let events = parse_events(doc, PART_DOCUMENT)?;
            idx.body_para_style_names = scan_body_para_styles(&events);
        }
        assert(idx@ =~= package_styles(pkg@));
        Ok(idx)
    }
}

/// The styles part and the main document of a package can be read, where present.
pub open spec fn package_readable(parts: crate::package::Parts) -> bool {
    (part(parts, PART_STYLES@) matches Some(b) ==> xml_readable(b)) && (part(
        parts,
        PART_DOCUMENT@,
    ) matches Some(b) ==> xml_readable(b))
}

/// The styles of a package.
pub open spec fn package_styles(parts: crate::package::Parts) -> StyleIndexView {
    let idx = match part(parts, PART_STYLES@) {
        Some(b) => styles_state(xml_events(b)).index,
        None => no_styles(),
    };
    match part(parts, PART_DOCUMENT@) {
        Some(b) => StyleIndexView { body_para_style_names: used_styles(xml_events(b)), ..idx },
        None => idx,
    }
}

// ---------------------------------------------------------------------------
// The mapping policy
// ---------------------------------------------------------------------------

/// The blueprint's styles by the part they play.
#[verifier::ext_equal]
pub struct RolesView {
    pub headings: Map<u8, Seq<char>>,
    pub title: Option<Seq<char>>,
    pub body: Option<Seq<char>>,
    pub footnote: Option<Seq<char>>,
    pub caption: Option<Seq<char>>,
    pub blockquote: Option<Seq<char>>,
    pub summary: Option<Seq<char>>,
}

/// No style plays any part.
pub open spec fn no_roles() -> RolesView {
    RolesView {
        headings: Map::empty(),
        title: None,
        body: None,
        footnote: None,
        caption: None,
        blockquote: None,
        summary: None,
    }
}

/// A style takes the place of a heading level if it is free or if the style is used.
pub open spec fn with_heading(
    headings: Map<u8, Seq<char>>,
    level: u8,
    name: Seq<char>,
    used: bool,
) -> Map<u8, Seq<char>> {
    if !headings.contains_key(level) || headings[level].len() == 0 || used {
        headings.insert(level, name)
    } else {
        headings
    }
}

/// The headings that the outline levels of the first `n` styles give.
pub open spec fn outline_headings(idx: StyleIndexView, n: int) -> Map<u8, Seq<char>>
    decreases n,
{
    if n <= 0 {
        Map::empty()
    } else {
        let before = outline_headings(idx, n - 1);
        let name = idx.styles[n - 1].0;
        let info = idx.styles[n - 1].1;
        if info.type_val == 1 && info.outline_level is Some && info.outline_level->0 <= 8 {
            with_heading(
                before,
                (info.outline_level->0 + 1) as u8,
                name,
                has_name(idx.body_para_style_names, name),
            )
        } else {
            before
        }
    }
}

/// The first of two candidates.
pub open spec fn or_else(a: Option<Seq<char>>, b: Seq<char>) -> Option<Seq<char>> {
    if a is Some {
        a
    } else {
        Some(b)
    }
}

/// The parts after the style `name` of a class has been considered.
pub open spec fn with_role(r: RolesView, name: Seq<char>, class: SemanticClass, used: bool) -> RolesView {
    match class {
        SemanticClass::Heading(level) => RolesView {
            headings: with_heading(r.headings, level, name, used),
            ..r
        },
        SemanticClass::Title => RolesView { title: or_else(r.title, name), ..r },
        SemanticClass::Body => RolesView { body: or_else(r.body, name), ..r },
        SemanticClass::Footnote => RolesView { footnote: or_else(r.footnote, name), ..r },
        SemanticClass::Caption => RolesView { caption: or_else(r.caption, name), ..r },
        SemanticClass::Blockquote => RolesView { blockquote: or_else(r.blockquote, name), ..r },
        SemanticClass::Abstract => RolesView { summary: or_else(r.summary, name), ..r },
        SemanticClass::Unknown => r,
    }
}

/// The parts that the outline levels of all styles and the names of the first `n`
/// paragraph styles give.
pub open spec fn named_roles(idx: StyleIndexView, n: int) -> RolesView
    decreases n,
{
    if n <= 0 {
        RolesView { headings: outline_headings(idx, idx.styles.len() as int), ..no_roles() }
    } else {
        let before = named_roles(idx, n - 1);
        let name = idx.styles[n - 1].0;
        if idx.styles[n - 1].1.type_val == 1 {
            with_role(before, name, style_class(name).class, has_name(
                idx.body_para_style_names,
                name,
            ))
        } else {
            before
        }
    }
}

/// The first paragraph style at or after the `i`-th.
pub open spec fn first_paragraph_style(styles: Pairs<StyleInfoView>, i: int) -> Option<Seq<char>>
    decreases styles.len() - i,
{
    if i >= styles.len() {
        None
    } else if styles[i].1.type_val == 1 {
        Some(styles[i].0)
    } else {
        first_paragraph_style(styles, i + 1)
    }
}

/// The body style: `Normal` if the blueprint has it, else the first style that is named
/// like one of the body, else the first paragraph style, else `Normal` all the same.
pub open spec fn body_style(idx: StyleIndexView, named: Option<Seq<char>>) -> Seq<char> {
    if lookup(idx.styles, "Normal"@) is Some {
        "Normal"@
    } else if named is Some {
        named->0
    } else {
        match first_paragraph_style(idx.styles, 0) {
            Some(n) => n,
            None => "Normal"@,
        }
    }
}

/// The blueprint's styles by the part they play.
pub open spec fn roles(idx: StyleIndexView) -> RolesView {
    let r = named_roles(idx, idx.styles.len() as int);
    RolesView { body: Some(body_style(idx, r.body)), ..r }
}

/// What a mapper knows.
#[verifier::ext_equal]
pub struct MapperView {
    pub roles: RolesView,
    pub overrides: Pairs<Seq<char>>,
    pub styles: Pairs<()>,
}

/// The heading style of a level, where the level is between one and nine.
pub open spec fn heading_near(headings: Map<u8, Seq<char>>, level: int) -> Option<Seq<char>> {
    if 1 <= level <= 9 && headings.contains_key(level as u8) {
        Some(headings[level as u8])
    } else {
        None
    }
}

/// The heading style of the lowest level at or above `level`.
pub open spec fn lowest_heading(headings: Map<u8, Seq<char>>, level: int) -> Option<Seq<char>>
    decreases 256 - level,
{
    if level > 255 {
        None
    } else if headings.contains_key(level as u8) {
        Some(headings[level as u8])
    } else {
        lowest_heading(headings, level + 1)
    }
}

/// The heading style for a level: that of the level, else that of the nearest level
/// within three (the deeper of two), else that of the lowest level there is.
pub open spec fn heading_for(headings: Map<u8, Seq<char>>, level: u8) -> Option<Seq<char>> {
    if headings.contains_key(level) {
        Some(headings[level])
    } else if heading_near(headings, level + 1) is Some {
        heading_near(headings, level + 1)
    } else if heading_near(headings, level - 1) is Some {
        heading_near(headings, level - 1)
    } else if heading_near(headings, level + 2) is Some {
        heading_near(headings, level + 2)
    } else if heading_near(headings, level - 2) is Some {
        heading_near(headings, level - 2)
    } else if heading_near(headings, level + 3) is Some {
        heading_near(headings, level + 3)
    } else if heading_near(headings, level - 3) is Some {
        heading_near(headings, level - 3)
    } else {
        lowest_heading(headings, 0)
    }
}

/// The first style at or after the `i`-th whose lowercase name is `lower`.
pub open spec fn caseless_match(styles: Pairs<()>, lower: Seq<char>, i: int) -> Option<Seq<char>>
    decreases styles.len() - i,
{
    if i >= styles.len() {
        None
    } else if lowercase(styles[i].0) == lower {
        Some(styles[i].0)
    } else {
        caseless_match(styles, lower, i + 1)
    }
}

/// The style that plays the part of a class other than a heading's or the body's.
pub open spec fn class_style(r: RolesView, class: SemanticClass) -> Option<Seq<char>> {
    match class {
        SemanticClass::Title => if r.title is Some {
            r.title
        } else if r.headings.contains_key(1) {
            Some(r.headings[1])
        } else {
            None
        },
        SemanticClass::Footnote => r.footnote,
        SemanticClass::Caption => r.caption,
        SemanticClass::Blockquote => r.blockquote,
        SemanticClass::Abstract => r.summary,
        _ => None,
    }
}

/// The override for a name whose target exists.
pub open spec fn override_for(m: MapperView, name: Seq<char>) -> Option<Seq<char>> {
    match lookup(m.overrides, name) {
        Some(t) => if has_name(m.styles, t) {
            Some(t)
        } else {
            None
        },
        None => None,
    }
}

/// The blueprint style for a source style name of a class and heading level.
pub open spec fn mapped(m: MapperView, name: Seq<char>, class: SemanticClass, level: u8) -> Seq<char> {
    if override_for(m, name) is Some {
        override_for(m, name)->0
    } else if class is Heading && level > 0 && heading_for(m.roles.headings, level) is Some {
        heading_for(m.roles.headings, level)->0
    } else if has_name(m.styles, name) {
        name
    } else if caseless_match(m.styles, lowercase(name), 0) is Some {
        caseless_match(m.styles, lowercase(name), 0)->0
    } else if class_style(m.roles, class) is Some {
        class_style(m.roles, class)->0
    } else if m.roles.body is Some {
        m.roles.body->0
    } else {
        "Normal"@
    }
}

/// The names of all styles.
pub open spec fn style_names(styles: Pairs<StyleInfoView>, n: int) -> Pairs<()>
    decreases n,
{
    if n <= 0 {
        Seq::empty()
    } else {
        inserted(style_names(styles, n - 1), styles[n - 1].0, ())
    }
}

/// The mapper of a blueprint.
pub open spec fn mapper_of(idx: StyleIndexView, overrides: Pairs<Seq<char>>) -> MapperView {
    MapperView {
        roles: roles(idx),
        overrides,
        styles: style_names(idx.styles, idx.styles.len() as int),
    }
}

/// The heading styles that a map of strings stands for.
pub open spec fn headings_view(m: Map<u8, String>) -> Map<u8, Seq<char>> {
    m.map_values(|s: String| s@)
}

/// The text of an optional string.
pub open spec fn opt_text(o: Option<String>) -> Option<Seq<char>> {
    match o {
        Some(s) => Some(s@),
        None => None,
    }
}

/// The mapping from source style names to blueprint style names.
#[derive(Debug)]
pub struct StyleMapper {
    bp_headings: BTreeMap<u8, String>,
    bp_title: Option<String>,
    bp_body: Option<String>,
    bp_footnote: Option<String>,
    bp_caption: Option<String>,
    bp_blockquote: Option<String>,
    bp_abstract: Option<String>,
    user_overrides: NameMap<String>,
    blueprint_styles: NameSet,
}

impl View for StyleMapper {
    type V = MapperView;

    closed spec fn view(&self) -> MapperView {
        MapperView {
            roles: self.roles_view(),
            overrides: self.user_overrides@,
            styles: self.blueprint_styles@,
        }
    }
}

/// Gives a style a heading level that is free, or that it has a better claim to.
fn take_heading(headings: &mut BTreeMap<u8, String>, level: u8, name: &str, used: bool)
    ensures
        headings_view(final(headings)@) == with_heading(
            headings_view(old(headings)@),
            level,
            name@,
            used,
        ),
{
    broadcast use vstd::std_specs::btree::group_btree_axioms;

    let free = match headings.get(&level) {
        Some(s) => s.as_str().is_empty(),
        None => true,
    };
    if free || used {
        headings.insert(level, name.to_owned());
    }
    assert(headings_view(headings@) =~= with_heading(
        headings_view(old(headings)@),
        level,
        name@,
        used,
    ));
}

fn take_role(role: &mut Option<String>, name: &str)
    ensures
        opt_text(*final(role)) == or_else(opt_text(*old(role)), name@),
{
    if role.is_none() {
        *role = Some(name.to_owned());
    }
}

fn find_heading(headings: &BTreeMap<u8, String>, level: i32) -> (r: Option<&String>)
    ensures
        match r {
            Some(s) => heading_near(headings_view(headings@), level as int) == Some(s@),
            None => heading_near(headings_view(headings@), level as int) is None,
        },
{
    broadcast use vstd::std_specs::btree::group_btree_axioms;

    if 1 <= level && level <= 9 {
        let l: u8 = level as u8;
        headings.get(&l)
    } else {
        None
    }
}

fn find_lowest(headings: &BTreeMap<u8, String>) -> (r: Option<&String>)
    ensures
        match r {
            Some(s) => lowest_heading(headings_view(headings@), 0) == Some(s@),
            None => lowest_heading(headings_view(headings@), 0) is None,
        },
{
    broadcast use vstd::std_specs::btree::group_btree_axioms;

    let mut level: u16 = 0;
    while level <= 255
        invariant
            level <= 256,
            lowest_heading(headings_view(headings@), 0) == lowest_heading(
                headings_view(headings@),
                level as int,
            ),
        decreases 256 - level,
    {
        let l: u8 = level as u8;
        if let Some(s) = headings.get(&l) {
            return Some(s);
        }
        level += 1;
    }
    None
}

fn find_heading_for(headings: &BTreeMap<u8, String>, level: u8) -> (r: Option<&String>)
    ensures
        match r {
            Some(s) => heading_for(headings_view(headings@), level) == Some(s@),
            None => heading_for(headings_view(headings@), level) is None,
        },
{
    broadcast use vstd::std_specs::btree::group_btree_axioms;

    if let Some(s) = headings.get(&level) {
        return Some(s);
    }
    let l: i32 = level as i32;
    if let Some(s) = find_heading(headings, l + 1) {
        return Some(s);
    }
    if let Some(s) = find_heading(headings, l - 1) {
        return Some(s);
    }
    if let Some(s) = find_heading(headings, l + 2) {
        return Some(s);
    }
    if let Some(s) = find_heading(headings, l - 2) {
        return Some(s);
    }
    if let Some(s) = find_heading(headings, l + 3) {
        return Some(s);
    }
    if let Some(s) = find_heading(headings, l - 3) {
        return Some(s);
    }
    find_lowest(headings)
}

impl StyleMapper {
    closed spec fn roles_view(&self) -> RolesView {
        RolesView {
            headings: headings_view(self.bp_headings@),
            title: opt_text(self.bp_title),
            body: opt_text(self.bp_body),
            footnote: opt_text(self.bp_footnote),
            caption: opt_text(self.bp_caption),
            blockquote: opt_text(self.bp_blockquote),
            summary: opt_text(self.bp_abstract),
        }
    }

    fn consider(&mut self, name: &str, class: SemanticClass, used: bool)
        ensures
            final(self).roles_view() == with_role(old(self).roles_view(), name@, class, used),
            final(self).user_overrides == old(self).user_overrides,
            final(self).blueprint_styles == old(self).blueprint_styles,
    {
        match class {
            SemanticClass::Heading(level) => take_heading(
                &mut self.bp_headings,
                level,
                name,
                used,
            ),
            SemanticClass::Title => take_role(&mut self.bp_title, name),
            SemanticClass::Body => take_role(&mut self.bp_body, name),
            SemanticClass::Footnote => take_role(&mut self.bp_footnote, name),
            SemanticClass::Caption => take_role(&mut self.bp_caption, name),
            SemanticClass::Blockquote => take_role(&mut self.bp_blockquote, name),
            SemanticClass::Abstract => take_role(&mut self.bp_abstract, name),
            SemanticClass::Unknown => {},
        }
        assert(self.roles_view() =~= with_role(old(self).roles_view(), name@, class, used));
    }

    /// A mapper for a blueprint with the given styles, and overrides from source
    /// names to blueprint names.
    pub fn new(index: &StyleIndex, user_overrides: NameMap<String>) -> (r: Self)
        ensures
            r@ == mapper_of(index@, user_overrides@),
    {
        let ghost overrides = user_overrides@;
        let mut m = StyleMapper {
            bp_headings: BTreeMap::new(),
            bp_title: None,
            bp_body: None,
            bp_footnote: None,
            bp_caption: None,
            bp_blockquote: None,
            bp_abstract: None,
            user_overrides,
            blueprint_styles: NameSet::new(),
        };
        let ghost idx = index@;
        assert(m.roles_view() =~= no_roles());
        let n: usize = index.styles.len();
        let mut i: usize = 0;
        while i < n
            invariant
                i <= n,
                n == idx.styles.len(),
                idx == index@,
                m.user_overrides@ == overrides,
                m.blueprint_styles@ == style_names(idx.styles, i as int),
                m.roles_view() == (RolesView {
                    headings: outline_headings(idx, i as int),
                    ..no_roles()
                }),
            decreases n - i,
        {
            let name = index.styles.key_at(i);
            let info = index.styles.value_at(i);
            m.blueprint_styles.insert(name.to_owned());
            if info.type_val == 1 {
                if let Some(ol) = info.outline_level {
                    if ol <= 8 {
                        let used = index.body_para_style_names.contains(name);
                        take_heading(&mut m.bp_headings, ol + 1, name, used);
                    }
                }
            }
            i += 1;
            assert(m.roles_view() =~= (RolesView {
                headings: outline_headings(idx, i as int),
                ..no_roles()
            }));
        }
        i = 0;
        while i < n
            invariant
                i <= n,
                n == idx.styles.len(),
                idx == index@,
                m.user_overrides@ == overrides,
                m.blueprint_styles@ == style_names(idx.styles, n as int),
                m.roles_view() == named_roles(idx, i as int),
            decreases n - i,
        {
            let name = index.styles.key_at(i);
            if index.styles.value_at(i).type_val == 1 {
                let c = classify_style(name);
                let used = index.body_para_style_names.contains(name);
                m.consider(name, c.class, used);
            }
            i += 1;
        }
        let ghost named = m.roles_view();
        let mut own: Option<String> = None;
        std::mem::swap(&mut own, &mut m.bp_body);
        let body = Self::find_body(index, own);
        m.bp_body = Some(body);
        assert(m.roles_view() =~= roles(idx));
        m
    }

    fn find_body(index: &StyleIndex, named: Option<String>) -> (r: String)
        ensures
            r@ == body_style(index@, opt_text(named)),
    {
        if index.styles.contains_key("Normal") {
            return "Normal".to_owned();
        }
        if let Some(name) = named {
            return name;
        }
        let ghost styles = index@.styles;
        let mut i: usize = 0;
        while i < index.styles.len()
            invariant
                i <= styles.len(),
                styles == index@.styles,
                first_paragraph_style(styles, 0) == first_paragraph_style(styles, i as int),
                lookup(styles, "Normal"@) is None,
                named is None,
            decreases styles.len() - i,
        {
            if index.styles.value_at(i).type_val == 1 {
                return index.styles.key_at(i).to_owned();
            }
            i += 1;
        }
        "Normal".to_owned()
    }

    /// The blueprint style for a source style name. Class and level are those of the
    /// name, unless the paragraph's contents say otherwise.
    pub fn map(&self, src_name: &str, sem_class: &SemanticClass, heading_level: u8) -> (r: String)
        ensures
            r@ == mapped(self@, src_name@, *sem_class, heading_level),
    {
        self.resolve(src_name, sem_class, heading_level)
    }

    fn resolve(&self, src_name: &str, sem_class: &SemanticClass, heading_level: u8) -> (r: String)
        ensures
            r@ == mapped(self@, src_name@, *sem_class, heading_level),
    {
        broadcast use vstd::std_specs::btree::group_btree_axioms;

        if let Some(target) = self.user_overrides.get(src_name) {
            if self.blueprint_styles.contains(target) {
                return target.clone();
            }
        }
        let is_heading = match sem_class {
            SemanticClass::Heading(_) => true,
            _ => false,
        };
        if is_heading && heading_level > 0 {
            if let Some(name) = find_heading_for(&self.bp_headings, heading_level) {
                return name.clone();
            }
        }
        if self.blueprint_styles.contains(src_name) {
            return src_name.to_owned();
        }
        if let Some(name) = self.find_caseless(src_name) {
            return name;
        }
        match sem_class {
            SemanticClass::Title => {
                if let Some(n) = &self.bp_title {
                    return n.clone();
                }
                if let Some(n) = self.bp_headings.get(&1) {
                    return n.clone();
                }
            },
            SemanticClass::Footnote => {
                if let Some(n) = &self.bp_footnote {
                    return n.clone();
                }
            },
            SemanticClass::Caption => {
                if let Some(n) = &self.bp_caption {
                    return n.clone();
                }
            },
            SemanticClass::Blockquote => {
                if let Some(n) = &self.bp_blockquote {
                    return n.clone();
                }
            },
            SemanticClass::Abstract => {
                if let Some(n) = &self.bp_abstract {
                    return n.clone();
                }
            },
            _ => {},
        }
        match &self.bp_body {
            Some(n) => n.clone(),
            None => "Normal".to_owned(),
        }
    }

    fn find_caseless(&self, src_name: &str) -> (r: Option<String>)
        ensures
            match r {
                Some(s) => caseless_match(self@.styles, lowercase(src_name@), 0) == Some(s@),
                None => caseless_match(self@.styles, lowercase(src_name@), 0) is None,
            },
    {
        let lower = src_name.to_lowercase();
        let ghost styles = self@.styles;
        let mut i: usize = 0;
        while i < self.blueprint_styles.len()
            invariant
                i <= styles.len(),
                styles == self.blueprint_styles@,
                lower@ == lowercase(src_name@),
                caseless_match(styles, lower@, 0) == caseless_match(styles, lower@, i as int),
            decreases styles.len() - i,
        {
            let name = self.blueprint_styles.name_at(i);
            if str_eq(&name.to_lowercase(), &lower) {
                return Some(name.to_owned());
            }
            i += 1;
        }
        None
    }

    /// The blueprint's heading styles by level.
    pub fn bp_headings(&self) -> (r: &BTreeMap<u8, String>)
        ensures
            headings_view(r@) == self@.roles.headings,
    {
        &self.bp_headings
    }

    /// The blueprint's body style.
    pub fn bp_body(&self) -> (r: Option<&str>)
        ensures
            match r {
                Some(s) => self@.roles.body == Some(s@),
                None => self@.roles.body is None,
            },
    {
        match &self.bp_body {
            Some(s) => Some(s.as_str()),
            None => None,
        }
    }

    /// The blueprint's title style.
    pub fn bp_title(&self) -> (r: Option<&str>)
        ensures
            match r {
                Some(s) => self@.roles.title == Some(s@),
                None => self@.roles.title is None,
            },
    {
        match &self.bp_title {
            Some(s) => Some(s.as_str()),
            None => None,
        }
    }
}

// ---------------------------------------------------------------------------
// Rewriting references
// ---------------------------------------------------------------------------

/// The blueprint style id for a source style id: the name that the source gives the
/// id, mapped to a blueprint name, and that name's id. An id that is not in the tables
/// stands for its name, and where the name that it is mapped to has no id, the id stays.
pub open spec fn target_id(
    m: MapperView,
    source: StyleIndexView,
    blueprint: StyleIndexView,
    id: Seq<char>,
) -> Seq<char> {
    let name = match lookup(source.id_to_name, id) {
        Some(n) => n,
        None => id,
    };
    let c = style_class(name);
    let target = mapped(m, name, c.class, c.heading_level);
    match lookup(blueprint.name_to_id, target) {
        Some(t) => t,
        None => id,
    }
}

/// What becomes of the attributes of a `<w:pStyle>`.
#[verifier::ext_equal]
pub struct PStyleView {
    /// The tag's contents so far: its name and the attributes that stay.
    pub raw: Seq<u8>,
    /// The new value, once the old one has been seen.
    pub target: Option<Seq<char>>,
    /// How many values have changed.
    pub changed: nat,
}

/// The attributes of a `<w:pStyle>` with the reference taken out and mapped. A value
/// that is not UTF-8 is dropped.
pub open spec fn pstyle_attrs(
    m: MapperView,
    source: StyleIndexView,
    blueprint: StyleIndexView,
    attrs: Seq<At>,
) -> PStyleView
    decreases attrs.len(),
{
    if attrs.len() == 0 {
        PStyleView { raw: lit("w:pStyle"), target: None, changed: 0 }
    } else {
        let s = pstyle_attrs(m, source, blueprint, attrs.drop_last());
        let a = attrs.last();
        if a.key != lit("w:val") {
            PStyleView { raw: s.raw + attr_bytes(a.key, a.value), ..s }
        } else {
            match utf8_text(a.value) {
                None => s,
                Some(id) => {
                    let t = target_id(m, source, blueprint, id);
                    PStyleView {
                        target: Some(t),
                        changed: if t == id {
                            s.changed
                        } else {
                            s.changed + 1
                        },
                        ..s
                    }
                },
            }
        }
    }
}

/// The contents of a rewritten `<w:pStyle>`: the attributes that stay, then the new
/// value.
pub open spec fn pstyle_raw(p: PStyleView) -> Seq<u8> {
    match p.target {
        Some(t) => p.raw + attr_bytes(lit("w:val"), encode_utf8(escaped(t))),
        None => p.raw,
    }
}

/// A document with its style references mapped, and the number of those that changed.
pub open spec fn mapped_pstyles(
    m: MapperView,
    source: StyleIndexView,
    blueprint: StyleIndexView,
    events: Seq<Ev>,
) -> (Seq<u8>, nat)
    decreases events.len(),
{
    if events.len() == 0 {
        (Seq::empty(), 0)
    } else {
        let (out, n) = mapped_pstyles(m, source, blueprint, events.drop_last());
        let e = events.last();
        if is_open_tag(e, "w:pStyle") {
            let p = pstyle_attrs(m, source, blueprint, tag_attrs(e, true));
            (out + emitted(Ev { kind: e.kind, raw: pstyle_raw(p) }), n + p.changed)
        } else {
            (out + emitted(e), n)
        }
    }
}

/// Writes one attribute.
pub(crate) fn push_attr(raw: &mut Vec<u8>, key: &[u8], value: &[u8])
    ensures
        final(raw)@ == old(raw)@ + attr_bytes(key@, value@),
{
    push_str(raw, " ");
    push_all(raw, key);
    push_str(raw, "=\"");
    push_all(raw, value);
    push_str(raw, "\"");
    assert(raw@ =~= old(raw)@ + attr_bytes(key@, value@));
}

fn find_target_id(
    mapper: &StyleMapper,
    source: &StyleIndex,
    blueprint: &StyleIndex,
    id: &str,
) -> (r: String)
    ensures
        r@ == target_id(mapper@, source@, blueprint@, id@),
{
    let name: &str = match source.id_to_name.get(id) {
        Some(n) => n.as_str(),
        None => id,
    };
    let c = classify_style(name);
    let target = mapper.map(name, &c.class, c.heading_level);
    match blueprint.name_to_id.get(&target) {
        Some(t) => t.clone(),
        None => id.to_owned(),
    }
}

/// The contents of a rewritten `<w:pStyle>`, and how many of its values changed.
fn rewrite_pstyle(
    ev: &XmlEvent,
    mapper: &StyleMapper,
    source: &StyleIndex,
    blueprint: &StyleIndex,
) -> (r: (Vec<u8>, usize))
    ensures
        ({
            let p = pstyle_attrs(mapper@, source@, blueprint@, tag_attrs(ev@, true));
            r.0@ == pstyle_raw(p) && r.1 == p.changed
        }),
        r.1 <= 1,
{
    let attrs = attributes(ev, true);
    let ghost all = attrs_view(attrs@);
    let mut raw: Vec<u8> = Vec::new();
    push_str(&mut raw, "w:pStyle");
    assert(raw@ =~= lit("w:pStyle"));
    let mut target: Option<String> = None;
    let mut changed: usize = 0;
    let mut i: usize = 0;
    assert(all.take(0) =~= Seq::empty());
    while i < attrs.len()
        invariant
            i <= attrs@.len(),
            changed <= 1,
            unique_keys(all),
            changed > 0 ==> exists|j: int| 0 <= j < i && (#[trigger] all[j]).key == lit("w:val"),
            all == attrs_view(attrs@),
            pstyle_attrs(mapper@, source@, blueprint@, all.take(i as int)) == (PStyleView {
                raw: raw@,
                target: opt_text(target),
                changed: changed as nat,
            }),
        decreases attrs@.len() - i,
    {
        let a = &attrs[i];
        proof {
            assert(all.take(i + 1).drop_last() =~= all.take(i as int));
            assert(all.take(i + 1).last() == a@);
        }
        assert(all[i as int] == a@);
        if is_str(&a.key, "w:val") {
            if let Some(id) = utf8_str(&a.value) {
                let t = find_target_id(mapper, source, blueprint, id);
                if !str_eq(&t, id) {
                    changed += 1;
                }
                target = Some(t);
            }
        } else {
            push_attr(&mut raw, &a.key, &a.value);
        }
        i += 1;
    }
    assert(all.take(i as int) =~= all);
    if let Some(t) = target {
        let value = escape_text(&t);
        push_attr(&mut raw, "w:val".as_bytes(), value.as_str().as_bytes());
    }
    (raw, changed)
}

/// The events of a document with the style references mapped, and the number of
/// those that changed.
pub fn rewrite_pstyles(
    events: &Vec<XmlEvent>,
    mapper: &StyleMapper,
    source_index: &StyleIndex,
    blueprint_index: &StyleIndex,
) -> (r: (Vec<u8>, usize))
    ensures
        mapped_pstyles(mapper@, source_index@, blueprint_index@, events_view(events@)) == (
            r.0@,
            r.1 as nat,
        ),
{
    let ghost evs = events_view(events@);
    let mut out: Vec<u8> = Vec::new();
    let mut n: usize = 0;
    let mut i: usize = 0;
    assert(evs.take(0) =~= Seq::empty());
    while i < events.len()
        invariant
            i <= events@.len(),
            n <= i,
            evs == events_view(events@),
            mapped_pstyles(mapper@, source_index@, blueprint_index@, evs.take(i as int)) == (
                out@,
                n as nat,
            ),
        decreases events@.len() - i,
    {
        let ev = &events[i];
        proof {
            assert(evs.take(i + 1).drop_last() =~= evs.take(i as int));
            assert(evs.take(i + 1).last() == ev@);
        }
        if ev.is_open_tag("w:pStyle") {
            let (raw, changed) = rewrite_pstyle(ev, mapper, source_index, blueprint_index);
            emit_raw(&mut out, ev.kind, &raw);
            n += changed;
        } else {
            emit(&mut out, ev);
        }
        i += 1;
    }
    assert(evs.take(i as int) =~= evs);
    (out, n)
}

/// Points every style reference of the main document at the blueprint's equivalent.
/// Returns how many references changed; where none did, the part is left alone.
pub fn apply_style_mapping(
    pkg: &mut Package,
    mapper: &StyleMapper,
    source_index: &StyleIndex,
    blueprint_index: &StyleIndex,
) -> (res: Result<usize, Error>)
    ensures
        final(pkg).source_view() == old(pkg).source_view(),
        match part(old(pkg)@, PART_DOCUMENT@) {
            None => res == Ok::<usize, Error>(0) && final(pkg)@ == old(pkg)@,
            Some(doc) => if xml_readable(doc) {
                let (out, n) = mapped_pstyles(
                    mapper@,
                    source_index@,
                    blueprint_index@,
                    xml_events(doc),
                );
                &&& res is Ok
                &&& res->Ok_0 == n
                &&& final(pkg)@ == (if n > 0 {
                    with_part(old(pkg)@, PART_DOCUMENT@, out)
                } else {
                    old(pkg)@
                })
            } else {
                res is Err && res->Err_0.is_xml_parse(PART_DOCUMENT@) && final(pkg)@ == old(pkg)@
            },
        },
{
    let (out, n) = match pkg.get_part(PART_DOCUMENT) {
        None => return Ok(0),
        Some(doc) => {
            let events = parse_events(doc, PART_DOCUMENT)?;
            rewrite_pstyles(&events, mapper, source_index, blueprint_index)
        },
    };
    if n > 0 {
        pkg.set_part(PART_DOCUMENT, out);
    }
    Ok(n)
}

// ---------------------------------------------------------------------------
// Laws
// ---------------------------------------------------------------------------

/// The name of a style of the blueprint.
spec fn is_style(idx: StyleIndexView, name: Seq<char>) -> bool {
    exists|i: int| 0 <= i < idx.styles.len() && #[trigger] idx.styles[i].0 == name
}

/// Every heading style is a style of the blueprint.
spec fn headings_known(idx: StyleIndexView, headings: Map<u8, Seq<char>>) -> bool {
    forall|l: u8| headings.contains_key(l) ==> is_style(idx, #[trigger] headings[l])
}

/// Where there is a style, it is a style of the blueprint.
spec fn is_known(idx: StyleIndexView, o: Option<Seq<char>>) -> bool {
    o matches Some(name) ==> is_style(idx, name)
}

proof fn lemma_outline_known(idx: StyleIndexView, n: int)
    requires
        0 <= n <= idx.styles.len(),
    ensures
        headings_known(idx, outline_headings(idx, n)),
    decreases n,
{
    if n > 0 {
        lemma_outline_known(idx, n - 1);
        assert(is_style(idx, idx.styles[n - 1].0));
    }
}

proof fn lemma_roles_known(idx: StyleIndexView, n: int)
    requires
        0 <= n <= idx.styles.len(),
    ensures
        ({
            let r = named_roles(idx, n);
            &&& headings_known(idx, r.headings)
            &&& is_known(idx, r.title)
            &&& is_known(idx, r.body)
            &&& is_known(idx, r.footnote)
            &&& is_known(idx, r.caption)
            &&& is_known(idx, r.blockquote)
            &&& is_known(idx, r.summary)
        }),
    decreases n,
{
    if n == 0 {
        lemma_outline_known(idx, idx.styles.len() as int);
    } else {
        lemma_roles_known(idx, n - 1);
        assert(is_style(idx, idx.styles[n - 1].0));
    }
}

proof fn lemma_first_paragraph_style(idx: StyleIndexView, i: int)
    requires
        0 <= i,
    ensures
        is_known(idx, first_paragraph_style(idx.styles, i)),
    decreases idx.styles.len() - i,
{
    if i < idx.styles.len() {
        if idx.styles[i].1.type_val == 1 {
            assert(is_style(idx, idx.styles[i].0));
        } else {
            lemma_first_paragraph_style(idx, i + 1);
        }
    }
}

proof fn lemma_style_names(idx: StyleIndexView, n: int, name: Seq<char>)
    requires
        0 <= n <= idx.styles.len(),
    ensures
        sorted(style_names(idx.styles, n)),
        has_name(style_names(idx.styles, n), name) <==> exists|i: int|
            0 <= i < n && #[trigger] idx.styles[i].0 == name,
    decreases n,
{
    if n > 0 {
        lemma_style_names(idx, n - 1, name);
        let before = style_names(idx.styles, n - 1);
        let last = idx.styles[n - 1].0;
        lemma_inserted(before, last, ());
        if last == name {
            assert(idx.styles[n - 1].0 == name);
        } else {
            assert(lookup(style_names(idx.styles, n), name) == lookup(before, name));
        }
    }
}

proof fn lemma_caseless(styles: Pairs<()>, lower: Seq<char>, i: int)
    requires
        0 <= i,
    ensures
        caseless_match(styles, lower, i) matches Some(name) ==> has_name(styles, name),
    decreases styles.len() - i,
{
    if i < styles.len() {
        if lowercase(styles[i].0) == lower {
            lemma_key_index(styles, styles[i].0, 0);
        } else {
            lemma_caseless(styles, lower, i + 1);
        }
    }
}

proof fn lemma_heading_known(idx: StyleIndexView, headings: Map<u8, Seq<char>>, level: int)
    requires
        headings_known(idx, headings),
        0 <= level,
    ensures
        is_known(idx, lowest_heading(headings, level)),
    decreases 256 - level,
{
    if level <= 255 && !headings.contains_key(level as u8) {
        lemma_heading_known(idx, headings, level + 1);
    }
}

proof fn lemma_no_paragraph_style(styles: Pairs<StyleInfoView>, i: int, k: int)
    requires
        0 <= i <= k < styles.len(),
        styles[k].1.type_val == 1,
    ensures
        first_paragraph_style(styles, i) is Some,
    decreases k - i,
{
    if i < k {
        lemma_no_paragraph_style(styles, i + 1, k);
    }
}

/// In a blueprint that has a paragraph style, a style name is always mapped to a style of
/// the blueprint. In one that has none, it is mapped to a style of the blueprint or to
/// `Normal`.
pub proof fn law_mapped_to_the_blueprint(
    idx: StyleIndexView,
    overrides: Pairs<Seq<char>>,
    name: Seq<char>,
    class: SemanticClass,
    level: u8,
)
    ensures
        ({
            let m = mapper_of(idx, overrides);
            let target = mapped(m, name, class, level);
            &&& has_name(m.styles, target) || target == "Normal"@
            &&& (exists|i: int| 0 <= i < idx.styles.len() && (#[trigger] idx.styles[i]).1.type_val == 1)
                ==> has_name(m.styles, target)
        }),
{
    let m = mapper_of(idx, overrides);
    let n = idx.styles.len() as int;
    let target = mapped(m, name, class, level);
    lemma_roles_known(idx, n);
    lemma_first_paragraph_style(idx, 0);
    lemma_heading_known(idx, m.roles.headings, 0);
    lemma_caseless(m.styles, lowercase(name), 0);
    lemma_style_names(idx, n, target);
    lemma_key_index(idx.styles, "Normal"@, 0);
    assert(is_known(idx, heading_for(m.roles.headings, level)));
    assert(is_known(idx, class_style(m.roles, class)));
    if exists|i: int| 0 <= i < idx.styles.len() && (#[trigger] idx.styles[i]).1.type_val == 1 {
        let k = choose|i: int|
            0 <= i < idx.styles.len() && (#[trigger] idx.styles[i]).1.type_val == 1;
        lemma_no_paragraph_style(idx.styles, 0, k);
        assert(is_known(idx, m.roles.body));
    }
}

/// An override wins wherever its target is a style of the blueprint, and counts for
/// nothing elsewhere.
pub proof fn law_overrides_win(
    m: MapperView,
    name: Seq<char>,
    target: Seq<char>,
    class: SemanticClass,
    level: u8,
)
    requires
        lookup(m.overrides, name) == Some(target),
    ensures
        has_name(m.styles, target) ==> mapped(m, name, class, level) == target,
        !has_name(m.styles, target) ==> mapped(m, name, class, level) == mapped(
            MapperView { overrides: Seq::empty(), ..m },
            name,
            class,
            level,
        ),
{
}

} // verus!
