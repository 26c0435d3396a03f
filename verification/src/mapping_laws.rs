//! Which style of a blueprint stands for a style of a source.

use vstd::prelude::*;
use vstd::utf8::is_ascii_chars_encode_utf8;

use crate::bytes::lit;
use crate::names::{has_name, lemma_inserted, lemma_key_index, lookup, sorted, Pairs};
use crate::style_classify::{style_class, SemanticClass};
use crate::style_mapper::{
    caseless_match, first_paragraph_style, heading_for, heading_near, is_open_tag, last_level,
    last_val, lowest_heading, mapped, mapped_pstyles, named_roles, outline_headings, override_for,
    roles, style_from, styles_state, styles_step, target_id, type_number, value_or_empty,
    MapperView, StyleIndexView, StyleInfoView,
};
use crate::text::lowercase;
use crate::wellformed::lemma_emitted_push;
use crate::xml::{emitted, emitted_all, is_end, is_start, tag_attrs, At, Ev};

verus! {

// ---------------------------------------------------------------------------
// The choice of a style
// ---------------------------------------------------------------------------

/// How far apart two levels are.
pub open spec fn distance(a: int, b: int) -> int {
    if a < b {
        b - a
    } else {
        a - b
    }
}

/// Where no override counts, a heading gets the blueprint's heading of the nearest level
/// within three, and of two that are as near the deeper one.
pub proof fn law_headings_get_the_nearest_level(
    m: MapperView,
    name: Seq<char>,
    class: SemanticClass,
    level: u8,
    near: u8,
)
    requires
        override_for(m, name) is None,
        class is Heading,
        1 <= level <= 9,
        1 <= near <= 9,
        m.roles.headings.contains_key(near),
        distance(level as int, near as int) <= 3,
        forall|other: u8|
            1 <= other <= 9 && #[trigger] m.roles.headings.contains_key(other) && other != near
                ==> distance(level as int, near as int) < distance(level as int, other as int) || (
            distance(level as int, near as int) == distance(level as int, other as int) && other
                < near),
    ensures
        mapped(m, name, class, level) == m.roles.headings[near],
{
    let h = m.roles.headings;
    assert forall|d: int|
        1 <= level + d <= 9 && level + d != near && #[trigger] heading_near(
            h,
            level + d,
        ) is Some implies distance(level as int, near as int) < distance(0, d) || (distance(
        level as int,
        near as int,
    ) == distance(0, d) && level + d < near) by {
        assert(h.contains_key((level + d) as u8));
    }
    assert(heading_near(h, near as int) == Some(h[near]));
    if h.contains_key(level) {
        assert(level == near);
    }
    assert(heading_for(h, level) == Some(h[near]));
}

/// Where the blueprint's headings are all farther than three levels away, a heading gets the
/// one of the lowest level.
pub proof fn law_far_headings_get_the_lowest_level(
    m: MapperView,
    name: Seq<char>,
    class: SemanticClass,
    level: u8,
    lowest: u8,
)
    requires
        override_for(m, name) is None,
        class is Heading,
        1 <= level <= 9,
        1 <= lowest <= 9,
        m.roles.headings.contains_key(lowest),
        forall|other: u8| #[trigger]
            m.roles.headings.contains_key(other) ==> other >= lowest && distance(
                level as int,
                other as int,
            ) > 3,
    ensures
        mapped(m, name, class, level) == m.roles.headings[lowest],
{
    lemma_lowest(m.roles.headings, lowest, 0);
}

proof fn lemma_lowest(h: Map<u8, Seq<char>>, lowest: u8, from: int)
    requires
        0 <= from <= lowest,
        h.contains_key(lowest),
        forall|other: u8| #[trigger] h.contains_key(other) ==> other >= lowest,
    ensures
        lowest_heading(h, from) == Some(h[lowest]),
    decreases lowest - from,
{
    if from < lowest {
        assert(!h.contains_key(from as u8));
        lemma_lowest(h, lowest, from + 1);
    }
}

/// The name is not taken by an override or as that of a heading.
pub open spec fn goes_by_name(m: MapperView, name: Seq<char>, class: SemanticClass, level: u8) -> bool {
    &&& override_for(m, name) is None
    &&& class is Heading && level > 0 ==> m.roles.headings.dom() =~= Set::empty()
}

proof fn lemma_goes_by_name(m: MapperView, name: Seq<char>, class: SemanticClass, level: u8)
    requires
        goes_by_name(m, name, class, level),
    ensures
        class is Heading && level > 0 ==> heading_for(m.roles.headings, level) is None,
{
    let h = m.roles.headings;
    if class is Heading && level > 0 {
        assert forall|l: u8| !#[trigger] h.contains_key(l) by {
            assert(!h.dom().contains(l));
        }
        lemma_no_lowest(h, 0);
    }
}

proof fn lemma_no_lowest(h: Map<u8, Seq<char>>, from: int)
    requires
        0 <= from,
        forall|l: u8| !#[trigger] h.contains_key(l),
    ensures
        lowest_heading(h, from) is None,
    decreases 256 - from,
{
    if from <= 255 {
        lemma_no_lowest(h, from + 1);
    }
}

/// A style that the blueprint has under the same name stays.
pub proof fn law_same_name_stays(m: MapperView, name: Seq<char>, class: SemanticClass, level: u8)
    requires
        goes_by_name(m, name, class, level),
        has_name(m.styles, name),
    ensures
        mapped(m, name, class, level) == name,
{
    lemma_goes_by_name(m, name, class, level);
}

/// A style that the blueprint has under the same name but for case becomes such a style.
pub proof fn law_same_name_but_for_case(
    m: MapperView,
    name: Seq<char>,
    class: SemanticClass,
    level: u8,
    i: int,
)
    requires
        goes_by_name(m, name, class, level),
        !has_name(m.styles, name),
        0 <= i < m.styles.len(),
        lowercase(m.styles[i].0) == lowercase(name),
    ensures
        lowercase(mapped(m, name, class, level)) == lowercase(name),
        exists|k: int|
            0 <= k <= i && (#[trigger] m.styles[k]).0 == mapped(m, name, class, level),
{
    lemma_goes_by_name(m, name, class, level);
    lemma_caseless(m.styles, lowercase(name), 0, i);
}

proof fn lemma_caseless(styles: Pairs<()>, lower: Seq<char>, from: int, i: int)
    requires
        0 <= from <= i < styles.len(),
        lowercase(styles[i].0) == lower,
    ensures
        caseless_match(styles, lower, from) matches Some(n) && lowercase(n) == lower && exists|k:
            int|
            0 <= k <= i && (#[trigger] styles[k]).0 == n,
    decreases i - from,
{
    if lowercase(styles[from].0) == lower {
        assert(styles[from].0 == caseless_match(styles, lower, from)->0);
    } else {
        lemma_caseless(styles, lower, from + 1, i);
    }
}

/// No style of the blueprint has the name, whatever the case.
pub open spec fn is_new(m: MapperView, name: Seq<char>) -> bool {
    forall|i: int|
        0 <= i < m.styles.len() ==> (#[trigger] m.styles[i]).0 != name && lowercase(m.styles[i].0)
            != lowercase(name)
}

proof fn lemma_is_new(m: MapperView, name: Seq<char>, from: int)
    requires
        is_new(m, name),
        0 <= from,
    ensures
        !has_name(m.styles, name),
        caseless_match(m.styles, lowercase(name), from) is None,
    decreases m.styles.len() - from,
{
    lemma_key_index(m.styles, name, 0);
    if from < m.styles.len() {
        assert(lowercase(m.styles[from].0) != lowercase(name));
        lemma_is_new(m, name, from + 1);
    }
}

/// A style that the blueprint has under no such name becomes the blueprint's style of its
/// class; a title where there is none a heading of level one; and where the blueprint has none
/// for the class, the body style.
pub proof fn law_classes_get_their_styles(
    m: MapperView,
    name: Seq<char>,
    class: SemanticClass,
    level: u8,
)
    requires
        goes_by_name(m, name, class, level),
        is_new(m, name),
        m.roles.body is Some,
    ensures
        ({
            let t = mapped(m, name, class, level);
            let r = m.roles;
            &&& class is Title && r.title is Some ==> Some(t) == r.title
            &&& class is Title && r.title is None && r.headings.contains_key(1) ==> t
                == r.headings[1]
            &&& class is Title && r.title is None && !r.headings.contains_key(1) ==> Some(t)
                == r.body
            &&& class is Footnote ==> Some(t) == (if r.footnote is Some {
                r.footnote
            } else {
                r.body
            })
            &&& class is Caption ==> Some(t) == (if r.caption is Some {
                r.caption
            } else {
                r.body
            })
            &&& class is Blockquote ==> Some(t) == (if r.blockquote is Some {
                r.blockquote
            } else {
                r.body
            })
            &&& class is Abstract ==> Some(t) == (if r.summary is Some {
                r.summary
            } else {
                r.body
            })
            &&& class is Body || class is Unknown || class is Heading ==> Some(t) == r.body
        }),
{
    lemma_goes_by_name(m, name, class, level);
    lemma_is_new(m, name, 0);
}

// ---------------------------------------------------------------------------
// The parts that styles play
// ---------------------------------------------------------------------------

/// The `i`-th style is a paragraph style whose name is of a class.
pub open spec fn is_of_class(idx: StyleIndexView, i: int, class: SemanticClass) -> bool {
    idx.styles[i].1.type_val == 1 && style_class(idx.styles[i].0).class == class
}

/// The name is that of the first of the first `n` styles that is of a class; there is none
/// where no style is.
pub open spec fn is_first_of_class(
    idx: StyleIndexView,
    n: int,
    class: SemanticClass,
    name: Option<Seq<char>>,
) -> bool {
    match name {
        Some(s) => exists|i: int|
            0 <= i < n && #[trigger] is_of_class(idx, i, class) && idx.styles[i].0 == s
                && forall|j: int| 0 <= j < i ==> !#[trigger] is_of_class(idx, j, class),
        None => forall|j: int| 0 <= j < n ==> !#[trigger] is_of_class(idx, j, class),
    }
}

proof fn lemma_first_of_class(
    idx: StyleIndexView,
    n: int,
    class: SemanticClass,
    before: Option<Seq<char>>,
    after: Option<Seq<char>>,
)
    requires
        n > 0,
        is_first_of_class(idx, n - 1, class, before),
        after == (if is_of_class(idx, n - 1, class) && before is None {
            Some(idx.styles[n - 1].0)
        } else {
            before
        }),
    ensures
        is_first_of_class(idx, n, class, after),
{
    if let Some(s) = before {
        let i = choose|i: int|
            0 <= i < n - 1 && #[trigger] is_of_class(idx, i, class) && idx.styles[i].0 == s
                && forall|j: int| 0 <= j < i ==> !#[trigger] is_of_class(idx, j, class);
        assert(is_of_class(idx, i, class));
    } else if is_of_class(idx, n - 1, class) {
        assert(idx.styles[n - 1].0 == after->0);
    }
}

/// Each class has the first style that is named like it.
proof fn lemma_named(idx: StyleIndexView, n: int)
    requires
        0 <= n <= idx.styles.len(),
    ensures
        ({
            let r = named_roles(idx, n);
            &&& is_first_of_class(idx, n, SemanticClass::Title, r.title)
            &&& is_first_of_class(idx, n, SemanticClass::Body, r.body)
            &&& is_first_of_class(idx, n, SemanticClass::Footnote, r.footnote)
            &&& is_first_of_class(idx, n, SemanticClass::Caption, r.caption)
            &&& is_first_of_class(idx, n, SemanticClass::Blockquote, r.blockquote)
            &&& is_first_of_class(idx, n, SemanticClass::Abstract, r.summary)
        }),
    decreases n,
{
    if n > 0 {
        lemma_named(idx, n - 1);
        let a = named_roles(idx, n - 1);
        let b = named_roles(idx, n);
        lemma_first_of_class(idx, n, SemanticClass::Title, a.title, b.title);
        lemma_first_of_class(idx, n, SemanticClass::Body, a.body, b.body);
        lemma_first_of_class(idx, n, SemanticClass::Footnote, a.footnote, b.footnote);
        lemma_first_of_class(idx, n, SemanticClass::Caption, a.caption, b.caption);
        lemma_first_of_class(idx, n, SemanticClass::Blockquote, a.blockquote, b.blockquote);
        lemma_first_of_class(idx, n, SemanticClass::Abstract, a.summary, b.summary);
    }
}

/// The part of a class is played by the first paragraph style that is named like it. The body
/// style is `Normal` where the blueprint has it, or else the first that is named like one, or
/// else the first paragraph style.
pub proof fn law_parts_are_played_by_the_first(idx: StyleIndexView)
    ensures
        ({
            let n = idx.styles.len() as int;
            let r = roles(idx);
            &&& is_first_of_class(idx, n, SemanticClass::Title, r.title)
            &&& is_first_of_class(idx, n, SemanticClass::Footnote, r.footnote)
            &&& is_first_of_class(idx, n, SemanticClass::Caption, r.caption)
            &&& is_first_of_class(idx, n, SemanticClass::Blockquote, r.blockquote)
            &&& is_first_of_class(idx, n, SemanticClass::Abstract, r.summary)
            &&& r.body is Some
            &&& lookup(idx.styles, "Normal"@) is Some ==> r.body == Some("Normal"@)
            &&& lookup(idx.styles, "Normal"@) is None && (exists|i: int|
                0 <= i < n && #[trigger] is_of_class(idx, i, SemanticClass::Body))
                ==> is_first_of_class(idx, n, SemanticClass::Body, r.body)
            &&& lookup(idx.styles, "Normal"@) is None && (forall|i: int|
                0 <= i < n ==> !#[trigger] is_of_class(idx, i, SemanticClass::Body)) ==> (
            forall|i: int|
                #![trigger idx.styles[i]]
                0 <= i < n && idx.styles[i].1.type_val == 1 && (forall|j: int|
                    0 <= j < i ==> (#[trigger] idx.styles[j]).1.type_val != 1) ==> r.body == Some(
                    idx.styles[i].0,
                ))
        }),
{
    let n = idx.styles.len() as int;
    lemma_named(idx, n);
    let named = named_roles(idx, n).body;
    assert forall|i: int|
        #![trigger idx.styles[i]]
        0 <= i < n && idx.styles[i].1.type_val == 1 && (forall|j: int|
            0 <= j < i ==> (#[trigger] idx.styles[j]).1.type_val
                != 1) implies first_paragraph_style(idx.styles, 0) == Some(idx.styles[i].0) by {
        lemma_first_paragraph(idx.styles, 0, i);
    }
    if let Some(s) = named {
        let i = choose|i: int|
            0 <= i < n && #[trigger] is_of_class(idx, i, SemanticClass::Body) && idx.styles[i].0
                == s && forall|j: int|
                0 <= j < i ==> !#[trigger] is_of_class(idx, j, SemanticClass::Body);
        assert(is_of_class(idx, i, SemanticClass::Body));
    }
}

proof fn lemma_first_paragraph(styles: Pairs<StyleInfoView>, from: int, i: int)
    requires
        0 <= from <= i < styles.len(),
        styles[i].1.type_val == 1,
        forall|j: int| from <= j < i ==> (#[trigger] styles[j]).1.type_val != 1,
    ensures
        first_paragraph_style(styles, from) == Some(styles[i].0),
    decreases i - from,
{
    if from < i {
        assert(styles[from].1.type_val != 1);
        lemma_first_paragraph(styles, from + 1, i);
    }
}

/// The `i`-th style is a paragraph style of a heading level: its outline level is one less, or
/// its name is of that level.
pub open spec fn is_heading_style(idx: StyleIndexView, i: int, level: u8) -> bool {
    let s = idx.styles[i].1;
    &&& s.type_val == 1
    &&& (s.outline_level is Some && s.outline_level->0 <= 8 && s.outline_level->0 + 1 == level)
        || style_class(idx.styles[i].0).class == SemanticClass::Heading(level)
}

/// The style of a level is a heading style of that level, and a used one where there is one.
spec fn is_level_style(idx: StyleIndexView, level: u8, name: Seq<char>) -> bool {
    exists|i: int|
        0 <= i < idx.styles.len() && #[trigger] is_heading_style(idx, i, level)
            && idx.styles[i].0 == name
}

proof fn lemma_outline(idx: StyleIndexView, n: int, level: u8)
    requires
        0 <= n <= idx.styles.len(),
    ensures
        ({
            let h = outline_headings(idx, n);
            &&& h.contains_key(level) ==> is_level_style(idx, level, h[level])
            &&& (exists|i: int|
                #![trigger idx.styles[i]]
                0 <= i < n && idx.styles[i].1.type_val == 1 && idx.styles[i].1.outline_level
                    is Some && idx.styles[i].1.outline_level->0 <= 8
                    && idx.styles[i].1.outline_level->0 + 1 == level) ==> h.contains_key(level)
        }),
    decreases n,
{
    if n > 0 {
        lemma_outline(idx, n - 1, level);
        let s = idx.styles[n - 1].1;
        if s.type_val == 1 && s.outline_level is Some && s.outline_level->0 <= 8
            && s.outline_level->0 + 1 == level {
            assert(is_heading_style(idx, n - 1, level));
        }
    }
}

proof fn lemma_named_headings(idx: StyleIndexView, n: int, level: u8)
    requires
        0 <= n <= idx.styles.len(),
    ensures
        ({
            let h = named_roles(idx, n).headings;
            &&& h.contains_key(level) ==> is_level_style(idx, level, h[level])
            &&& outline_headings(idx, idx.styles.len() as int).contains_key(level)
                ==> h.contains_key(level)
            &&& (exists|i: int|
                0 <= i < n && #[trigger] is_of_class(idx, i, SemanticClass::Heading(level)))
                ==> h.contains_key(level)
        }),
    decreases n,
{
    let all = idx.styles.len() as int;
    if n == 0 {
        lemma_outline(idx, all, level);
    } else {
        lemma_named_headings(idx, n - 1, level);
        if is_of_class(idx, n - 1, SemanticClass::Heading(level)) {
            assert(is_heading_style(idx, n - 1, level));
        }
    }
}

/// A level has a heading style exactly where some paragraph style has the outline level of it,
/// or a name of it; and the style that it has is such a style.
pub proof fn law_levels_have_heading_styles(idx: StyleIndexView, level: u8)
    ensures
        ({
            let h = roles(idx).headings;
            let n = idx.styles.len() as int;
            &&& h.contains_key(level) ==> exists|i: int|
                0 <= i < n && #[trigger] is_heading_style(idx, i, level) && idx.styles[i].0
                    == h[level]
            &&& forall|i: int|
                0 <= i < n && #[trigger] is_heading_style(idx, i, level) ==> h.contains_key(level)
        }),
{
    let n = idx.styles.len() as int;
    lemma_named_headings(idx, n, level);
    lemma_outline(idx, n, level);
    assert forall|i: int|
        0 <= i < n && #[trigger] is_heading_style(idx, i, level) implies roles(
        idx,
    ).headings.contains_key(level) by {
        if style_class(idx.styles[i].0).class == SemanticClass::Heading(level) {
            assert(is_of_class(idx, i, SemanticClass::Heading(level)));
        } else {
            assert(idx.styles[i].1.type_val == 1);
        }
    }
}

/// The body uses the `i`-th style, which is a heading style of the level.
pub open spec fn is_used_heading(idx: StyleIndexView, i: int, level: u8) -> bool {
    is_heading_style(idx, i, level) && has_name(idx.body_para_style_names, idx.styles[i].0)
}

proof fn lemma_used_outline(idx: StyleIndexView, n: int, level: u8)
    requires
        0 <= n <= idx.styles.len(),
        exists|i: int|
            #![trigger idx.styles[i]]
            0 <= i < n && idx.styles[i].1.type_val == 1 && idx.styles[i].1.outline_level is Some
                && idx.styles[i].1.outline_level->0 <= 8 && idx.styles[i].1.outline_level->0 + 1
                == level && has_name(idx.body_para_style_names, idx.styles[i].0),
        forall|k: int| 0 <= k < idx.styles.len() ==> (#[trigger] idx.styles[k]).0.len() > 0,
    ensures
        ({
            let h = outline_headings(idx, n);
            h.contains_key(level) && h[level].len() > 0 && has_name(
                idx.body_para_style_names,
                h[level],
            )
        }),
    decreases n,
{
    let i = choose|i: int|
        #![trigger idx.styles[i]]
        0 <= i < n && idx.styles[i].1.type_val == 1 && idx.styles[i].1.outline_level is Some
            && idx.styles[i].1.outline_level->0 <= 8 && idx.styles[i].1.outline_level->0 + 1
            == level && has_name(idx.body_para_style_names, idx.styles[i].0);
    if i < n - 1 {
        assert(idx.styles[i].1.type_val == 1);
        lemma_used_outline(idx, n - 1, level);
    }
}

proof fn lemma_used_named(idx: StyleIndexView, n: int, level: u8)
    requires
        0 <= n <= idx.styles.len(),
        forall|k: int| 0 <= k < idx.styles.len() ==> (#[trigger] idx.styles[k]).0.len() > 0,
    ensures
        ({
            let h = named_roles(idx, n).headings;
            let o = outline_headings(idx, idx.styles.len() as int);
            let used = |s: Seq<char>| has_name(idx.body_para_style_names, s);
            ((o.contains_key(level) && o[level].len() > 0 && used(o[level])) || (exists|i: int|
                0 <= i < n && #[trigger] is_of_class(idx, i, SemanticClass::Heading(level)) && used(
                    idx.styles[i].0,
                ))) ==> h.contains_key(level) && h[level].len() > 0 && used(h[level])
        }),
    decreases n,
{
    if n > 0 {
        lemma_used_named(idx, n - 1, level);
        assert(idx.styles[n - 1].0.len() > 0);
        if is_of_class(idx, n - 1, SemanticClass::Heading(level)) {
            assert(style_class(idx.styles[n - 1].0).class == SemanticClass::Heading(level));
        }
    }
}

/// Where the body of the blueprint uses a heading style of a level, the style of the level is
/// one that it uses. Left out are styles without a name.
pub proof fn law_used_heading_styles_come_first(idx: StyleIndexView, i: int, level: u8)
    requires
        0 <= i < idx.styles.len(),
        is_used_heading(idx, i, level),
        forall|k: int| 0 <= k < idx.styles.len() ==> (#[trigger] idx.styles[k]).0.len() > 0,
    ensures
        roles(idx).headings.contains_key(level),
        has_name(idx.body_para_style_names, roles(idx).headings[level]),
{
    let n = idx.styles.len() as int;
    law_levels_have_heading_styles(idx, level);
    let h = roles(idx).headings;
    assert(h.contains_key(level));
    let k = choose|k: int|
        0 <= k < n && #[trigger] is_heading_style(idx, k, level) && idx.styles[k].0 == h[level];
    assert(idx.styles[k].0.len() > 0);
    lemma_used_named(idx, n, level);
    if style_class(idx.styles[i].0).class == SemanticClass::Heading(level) {
        assert(is_of_class(idx, i, SemanticClass::Heading(level)));
    } else {
        assert(idx.styles[i].1.type_val == 1);
        lemma_used_outline(idx, n, level);
        lemma_outline(idx, n, level);
        let o = outline_headings(idx, n);
        let q = choose|q: int|
            0 <= q < n && #[trigger] is_heading_style(idx, q, level) && idx.styles[q].0 == o[level];
        assert(idx.styles[q].0.len() > 0);
    }
}

// ---------------------------------------------------------------------------
// References
// ---------------------------------------------------------------------------

/// A reference to a style is followed from the source's id to its name, from there to the
/// blueprint's name and to that name's id; an id that the source does not know is its own
/// name, and where the blueprint's name has no id, the reference stays.
pub proof fn law_references_are_followed(
    m: MapperView,
    source: StyleIndexView,
    blueprint: StyleIndexView,
    id: Seq<char>,
    name: Seq<char>,
)
    requires
        lookup(source.id_to_name, id) == Some(name) || (lookup(source.id_to_name, id) is None
            && name == id),
    ensures
        ({
            let c = style_class(name);
            let target = mapped(m, name, c.class, c.heading_level);
            &&& lookup(blueprint.name_to_id, target) matches Some(t) ==> target_id(
                m,
                source,
                blueprint,
                id,
            ) == t
            &&& lookup(blueprint.name_to_id, target) is None ==> target_id(
                m,
                source,
                blueprint,
                id,
            ) == id
        }),
{
}

/// Only references to styles are rewritten: what stands between them keeps its bytes.
pub proof fn law_only_references_are_mapped(
    m: MapperView,
    source: StyleIndexView,
    blueprint: StyleIndexView,
    before: Seq<Ev>,
    events: Seq<Ev>,
)
    requires
        forall|i: int| 0 <= i < events.len() ==> !is_open_tag(#[trigger] events[i], "w:pStyle"),
    ensures
        ({
            let (a, n) = mapped_pstyles(m, source, blueprint, before);
            mapped_pstyles(m, source, blueprint, before + events) == (a + emitted_all(events), n)
        }),
    decreases events.len(),
{
    if events.len() == 0 {
        assert(before + events =~= before);
        let (a, n) = mapped_pstyles(m, source, blueprint, before);
        assert(a + emitted_all(events) =~= a);
    } else {
        let init = events.drop_last();
        let e = events.last();
        assert forall|i: int| 0 <= i < init.len() implies !is_open_tag(
            #[trigger] init[i],
            "w:pStyle",
        ) by {
            assert(init[i] == events[i]);
        }
        assert(!is_open_tag(events[events.len() - 1], "w:pStyle"));
        law_only_references_are_mapped(m, source, blueprint, before, init);
        assert((before + events).drop_last() =~= before + init);
        assert(init.push(e) =~= events);
        lemma_emitted_push(init, e);
        let (a, n) = mapped_pstyles(m, source, blueprint, before);
        assert(a + emitted_all(events) =~= a + emitted_all(init) + emitted(e));
    }
}

// ---------------------------------------------------------------------------
// Reading styles
// ---------------------------------------------------------------------------

/// The types of styles.
pub proof fn law_types_of_styles(s: Seq<char>)
    ensures
        type_number(s) == 1 <==> s == "paragraph"@,
        type_number("character"@) == 2,
        type_number("table"@) == 3,
        type_number("numbering"@) == 4,
        s != "paragraph"@ && s != "character"@ && s != "table"@ && s != "numbering"@
            ==> type_number(s) == 0,
{
    reveal_strlit("paragraph");
    reveal_strlit("character");
    reveal_strlit("table");
    reveal_strlit("numbering");
    assert("paragraph"@[0] == 'p' && "character"@[0] == 'c' && "table"@[0] == 't'
        && "numbering"@[0] == 'n');
}

/// The tables of an index are in order.
spec fn is_ordered(idx: StyleIndexView) -> bool {
    sorted(idx.styles) && sorted(idx.id_to_name) && sorted(idx.name_to_id)
}

proof fn lemma_ordered(events: Seq<Ev>)
    ensures
        is_ordered(styles_state(events).index),
    decreases events.len(),
{
    if events.len() > 0 {
        let s = styles_state(events.drop_last());
        lemma_ordered(events.drop_last());
        if let Some(info) = s.current {
            lemma_inserted(s.index.styles, info.name, info);
            lemma_inserted(s.index.id_to_name, info.style_id, info.name);
            lemma_inserted(s.index.name_to_id, info.name, info.style_id);
        }
    }
}

proof fn lemma_styles_push(events: Seq<Ev>, e: Ev)
    ensures
        styles_state(events.push(e)) == styles_step(styles_state(events), e),
{
    assert(events.push(e).drop_last() =~= events);
}

proof fn lemma_reading_names()
    ensures
        lit("w:style") != lit("w:name"),
        lit("w:style") != lit("w:outlineLvl"),
        lit("w:name") != lit("w:outlineLvl"),
{
    reveal_strlit("w:style");
    reveal_strlit("w:name");
    reveal_strlit("w:outlineLvl");
    is_ascii_chars_encode_utf8("w:style"@);
    is_ascii_chars_encode_utf8("w:name"@);
    is_ascii_chars_encode_utf8("w:outlineLvl"@);
    assert(lit("w:style").len() == 7);
    assert(lit("w:name").len() == 6);
    assert(lit("w:outlineLvl").len() == 12);
}

/// A style is known under the name that it is given, with its id, its type and its outline
/// level, and name and id lead to each other.
pub proof fn law_styles_are_read(
    before: Seq<Ev>,
    open: Ev,
    name: Ev,
    outline: Ev,
    close: Ev,
    text: Seq<char>,
    level: u8,
)
    requires
        is_start(open, "w:style"),
        style_from(tag_attrs(open, true)).style_id.len() > 0,
        is_open_tag(name, "w:name"),
        last_val(tag_attrs(name, true)) == Some(text),
        text.len() > 0,
        is_open_tag(outline, "w:outlineLvl"),
        last_level(tag_attrs(outline, true)) == Some(level),
        is_end(close, "w:style"),
    ensures
        ({
            let info = style_from(tag_attrs(open, true));
            let idx = styles_state(
                before.push(open).push(name).push(outline).push(close),
            ).index;
            &&& lookup(idx.styles, text) == Some(
                StyleInfoView {
                    name: text,
                    style_id: info.style_id,
                    type_val: info.type_val,
                    outline_level: Some(level),
                },
            )
            &&& lookup(idx.id_to_name, info.style_id) == Some(text)
            &&& lookup(idx.name_to_id, text) == Some(info.style_id)
        }),
{
    lemma_reading_names();
    let a = before.push(open);
    let b = a.push(name);
    let c = b.push(outline);
    lemma_styles_push(before, open);
    lemma_styles_push(a, name);
    lemma_styles_push(b, outline);
    lemma_styles_push(c, close);
    lemma_ordered(c);
    let s = styles_state(c);
    let info = s.current->0;
    lemma_inserted(s.index.styles, info.name, info);
    lemma_inserted(s.index.id_to_name, info.style_id, info.name);
    lemma_inserted(s.index.name_to_id, info.name, info.style_id);
}

/// The id and the type of a style are those of its attributes: the last that are given.
pub proof fn law_attributes_of_a_style(attrs: Seq<At>, k: int)
    requires
        0 <= k < attrs.len(),
    ensures
        attrs[k].key == lit("w:styleId") && (forall|l: int|
            k < l < attrs.len() ==> (#[trigger] attrs[l]).key != lit("w:styleId")) ==> style_from(
            attrs,
        ).style_id == value_or_empty(attrs[k].value),
        attrs[k].key == lit("w:type") && (forall|l: int|
            k < l < attrs.len() ==> (#[trigger] attrs[l]).key != lit("w:type")) ==> style_from(
            attrs,
        ).type_val == type_number(value_or_empty(attrs[k].value)),
    decreases attrs.len(),
{
    reveal_strlit("w:type");
    reveal_strlit("w:styleId");
    is_ascii_chars_encode_utf8("w:type"@);
    is_ascii_chars_encode_utf8("w:styleId"@);
    assert(lit("w:type").len() != lit("w:styleId").len());
    if k < attrs.len() - 1 {
        let init = attrs.drop_last();
        law_attributes_of_a_style(init, k);
        assert(init[k] == attrs[k]);
        assert(attrs[attrs.len() - 1] == attrs.last());
        assert forall|l: int| k < l < init.len() implies #[trigger] init[l] == attrs[l] by {}
    }
}

} // verus!
