//! Removal of revision-session tracking attributes.
//!
//! Word rejects a document whose body refers to session ids that its settings do not
//! list, as happens when a body is grafted from one document into another. Removing
//! the attributes is safe: Word makes fresh ids on the next save.

use vstd::prelude::*;
use vstd::utf8::*;

use crate::bytes::{add_capped, capped, is_str, lit};
use crate::error::Error;
use crate::ns::{PART_DOCUMENT, PART_ENDNOTES, PART_FOOTNOTES};
use crate::package::{lemma_with_part, part, Package, Parts};
use crate::story::{lemma_pass_part, lemma_story_names, pass_part, pass_story, Pass};
use crate::style_mapper::push_attr;
use crate::wellformed::{
    ends_in_text, is_markup_sign, is_plain_byte, is_token, lemma_emitted_push, lemma_next,
    lemma_no_block, lemma_plain_scan, lemma_push, lemma_quoted_scan, open_names, starts_with_mark,
    tag_scan, well_formed,
};
use crate::xml::{
    all_plain_attrs, attributes, attrs_bytes, attrs_read_back, attrs_view, emit, emit_raw, emitted,
    emitted_all, events_view, is_plain_attr, is_read, is_tag, is_tag_of, is_xml_space,
    lemma_name_end, name_end, parse_events, reads_back, tag_attrs, tag_name, unique_keys,
    xml_events, xml_readable, At, Ev, EventKind, XmlEvent,
};

verus! {

/// The keys of the tracking attributes.
pub open spec fn is_rsid_key(key: Seq<u8>) -> bool {
    key == lit("w14:paraId") || key == lit("w14:textId") || key == lit("w:rsidR") || key == lit(
        "w:rsidRPr",
    ) || key == lit("w:rsidDel") || key == lit("w:rsidRDefault") || key == lit("w:rsidP") || key
        == lit("w:rsidTr") || key == lit("w:rsidSect")
}

/// The attributes that are not tracking attributes.
pub open spec fn kept_attrs(attrs: Seq<At>) -> Seq<At> {
    attrs.filter(|a: At| !is_rsid_key(a.key))
}

/// A tag without its tracking attributes. One that has none stays as it is.
pub open spec fn stripped_tag(e: Ev) -> Ev {
    let attrs = tag_attrs(e, true);
    if kept_attrs(attrs).len() == attrs.len() {
        e
    } else {
        Ev { kind: e.kind, raw: tag_name(e) + attrs_bytes(kept_attrs(attrs)) }
    }
}

/// A part without tracking attributes, and how many it had.
pub open spec fn rsids_stripped(events: Seq<Ev>) -> (Seq<u8>, nat)
    decreases events.len(),
{
    if events.len() == 0 {
        (Seq::empty(), 0)
    } else {
        let (out, n) = rsids_stripped(events.drop_last());
        let e = events.last();
        if is_tag(e) {
            let attrs = tag_attrs(e, true);
            (
                out + emitted(stripped_tag(e)),
                n + (attrs.len() - kept_attrs(attrs).len()) as nat,
            )
        } else {
            (out + emitted(e), n)
        }
    }
}

/// What is kept has no tracking attribute, keeps its order, and stays the same when
/// stripped again.
pub proof fn law_kept_attrs(attrs: Seq<At>)
    ensures
        forall|i: int| 0 <= i < kept_attrs(attrs).len() ==> !is_rsid_key(
            (#[trigger] kept_attrs(attrs)[i]).key,
        ),
        forall|i: int|
            0 <= i < attrs.len() && !is_rsid_key((#[trigger] attrs[i]).key) ==> kept_attrs(
                attrs,
            ).contains(attrs[i]),
        kept_attrs(kept_attrs(attrs)) == kept_attrs(attrs),
        kept_attrs(attrs).len() <= attrs.len(),
{
    let keep = |a: At| !is_rsid_key(a.key);
    broadcast use vstd::seq_lib::group_filter_ensures;

    assert forall|i: int| 0 <= i < kept_attrs(attrs).len() implies !is_rsid_key(
        (#[trigger] kept_attrs(attrs)[i]).key,
    ) by {
        assert(keep(attrs.filter(keep)[i]));
    }
    assert forall|i: int|
        0 <= i < attrs.len() && !is_rsid_key((#[trigger] attrs[i]).key) implies kept_attrs(
        attrs,
    ).contains(attrs[i]) by {
        assert(keep(attrs[i]));
        assert(attrs.filter(keep).contains(attrs[i]));
    }
    lemma_filter_all(kept_attrs(attrs), keep);
}

proof fn lemma_filter_all(s: Seq<At>, keep: spec_fn(At) -> bool)
    requires
        forall|i: int| 0 <= i < s.len() ==> keep(#[trigger] s[i]),
    ensures
        s.filter(keep) == s,
    decreases s.len(),
{
    reveal(Seq::filter);
    if s.len() > 0 {
        assert forall|i: int| 0 <= i < s.drop_last().len() implies keep(
            #[trigger] s.drop_last()[i],
        ) by {
            assert(keep(s[i]));
        }
        lemma_filter_all(s.drop_last(), keep);
        assert(keep(s[s.len() - 1]));
        assert(s.drop_last().push(s.last()) =~= s);
    }
}

fn is_rsid(key: &[u8]) -> (r: bool)
    ensures
        r == is_rsid_key(key@),
{
    is_str(key, "w14:paraId") || is_str(key, "w14:textId") || is_str(key, "w:rsidR") || is_str(
        key,
        "w:rsidRPr",
    ) || is_str(key, "w:rsidDel") || is_str(key, "w:rsidRDefault") || is_str(key, "w:rsidP")
        || is_str(key, "w:rsidTr") || is_str(key, "w:rsidSect")
}

/// What reading the attributes of a tag promises: no key occurs twice, and what was
/// written as a name and attributes is read as these.
pub open spec fn is_promised(e: Ev) -> bool {
    is_tag(e) ==> attrs_read_back(e, true) && unique_keys(tag_attrs(e, true))
}

/// What reading the attributes of the tags promises.
pub open spec fn all_promised(events: Seq<Ev>) -> bool {
    forall|i: int| 0 <= i < events.len() ==> is_promised(#[trigger] events[i])
}

/// The contents of a tag without its tracking attributes, and how many it had.
fn filter_rsid_attrs(ev: &XmlEvent) -> (r: (Vec<u8>, usize))
    ensures
        is_promised(ev@),
        r.0@ == stripped_tag(ev@).raw,
        r.1 == tag_attrs(ev@, true).len() - kept_attrs(tag_attrs(ev@, true)).len(),
{
    let attrs = attributes(ev, true);
    let ghost all = attrs_view(attrs@);
    let ghost keep = |a: At| !is_rsid_key(a.key);
    let mut raw: Vec<u8> = crate::bytes::to_vec(ev.name());
    let mut kept: usize = 0;
    let mut i: usize = 0;
    proof {
        reveal(Seq::filter);
        assert(all.take(0).filter(keep) =~= Seq::empty());
        assert(raw@ =~= tag_name(ev@) + attrs_bytes(all.take(0).filter(keep)));
    }
    while i < attrs.len()
        invariant
            i <= attrs@.len(),
            kept <= i,
            all == attrs_view(attrs@),
            forall|a: At| #[trigger] keep(a) == !is_rsid_key(a.key),
            kept == all.take(i as int).filter(keep).len(),
            raw@ == tag_name(ev@) + attrs_bytes(all.take(i as int).filter(keep)),
        decreases attrs@.len() - i,
    {
        let a = &attrs[i];
        let ghost before = all.take(i as int).filter(keep);
        proof {
            reveal(Seq::filter);
            assert(all.take(i + 1).drop_last() =~= all.take(i as int));
            assert(all.take(i + 1).last() == a@);
            assert(keep(a@) == !is_rsid_key(a.key@));
        }
        if !is_rsid(&a.key) {
            push_attr(&mut raw, &a.key, &a.value);
            kept += 1;
            proof {
                let after = all.take(i + 1).filter(keep);
                assert(after == before.push(a@));
                assert(after.drop_last() =~= before);
                assert(raw@ =~= tag_name(ev@) + attrs_bytes(after));
            }
        }
        i += 1;
    }
    assert(all.take(i as int) =~= all);
    assert(kept_attrs(all) == all.filter(keep));
    if kept == attrs.len() {
        return (crate::bytes::to_vec(&ev.raw), 0);
    }
    (raw, attrs.len() - kept)
}

/// The events of a part without tracking attributes, and how many there were.
pub fn strip_rsids_in_events(events: &Vec<XmlEvent>) -> (r: (Vec<u8>, usize))
    ensures
        r.0@ == rsids_stripped(events_view(events@)).0,
        r.1 == capped(rsids_stripped(events_view(events@)).1 as int),
        all_promised(events_view(events@)),
{
    let ghost evs = events_view(events@);
    let mut out: Vec<u8> = Vec::new();
    let mut removed: usize = 0;
    let mut i: usize = 0;
    assert(evs.take(0) =~= Seq::empty());
    while i < events.len()
        invariant
            i <= events@.len(),
            evs == events_view(events@),
            out@ == rsids_stripped(evs.take(i as int)).0,
            removed == capped(rsids_stripped(evs.take(i as int)).1 as int),
            forall|j: int| 0 <= j < i ==> is_promised(#[trigger] evs[j]),
        decreases events@.len() - i,
    {
        let ev = &events[i];
        proof {
            assert(evs.take(i + 1).drop_last() =~= evs.take(i as int));
            assert(evs.take(i + 1).last() == ev@);
        }
        if ev.kind == EventKind::Start || ev.kind == EventKind::Empty {
            proof {
                law_kept_attrs(tag_attrs(ev@, true));
            }
            let (raw, n) = filter_rsid_attrs(ev);
            emit_raw(&mut out, ev.kind, &raw);
            assert(stripped_tag(ev@) =~= (Ev { kind: ev.kind, raw: raw@ }));
            removed = add_capped(removed, n);
        } else {
            emit(&mut out, ev);
        }
        i += 1;
    }
    assert(evs.take(i as int) =~= evs);
    (out, removed)
}

/// What reading a part promises.
pub open spec fn part_promised(parts: Parts, name: Seq<char>) -> bool {
    part(parts, name) matches Some(data) ==> is_read(data) && all_promised(xml_events(data))
}

/// What [`strip_rsids`] does to the parts of a package, as `after` shows.
pub open spec fn rsids_removed(before: Parts, after: Parts, res: Result<usize, Error>) -> bool {
    let p = pass_story(before, |evs: Seq<Ev>| rsids_stripped(evs));
    &&& after == p.parts
    &&& match res {
        Ok(n) => {
            &&& p.failed is None
            &&& n == capped(p.count as int)
            &&& part_promised(before, PART_DOCUMENT@)
            &&& part_promised(before, PART_FOOTNOTES@)
            &&& part_promised(before, PART_ENDNOTES@)
        },
        Err(e) => {
            &&& p.failed is Some
            &&& e.is_xml_parse(p.failed->0)
            &&& part(before, p.failed->0) matches Some(data) ==> is_read(data)
        },
    }
}

fn strip_part(pkg: &mut Package, name: &str) -> (res: Result<usize, Error>)
    ensures
        final(pkg).source_view() == old(pkg).source_view(),
        ({
            let p = pass_part(
                Pass { parts: old(pkg)@, count: 0, failed: None },
                name@,
                |evs: Seq<Ev>| rsids_stripped(evs),
            );
            &&& final(pkg)@ == p.parts
            &&& match res {
                Ok(n) => p.failed is None && n == capped(p.count as int),
                Err(e) => p.failed == Some(name@) && e.is_xml_parse(name@),
            }
        }),
        res is Ok ==> part_promised(old(pkg)@, name@),
        part(old(pkg)@, name@) matches Some(data) ==> is_read(data),
{
    let (out, n) = match pkg.get_part(name) {
        None => return Ok(0),
        Some(data) => {
            let events = parse_events(data, name)?;
            strip_rsids_in_events(&events)
        },
    };
    if n > 0 {
        pkg.set_part(name, out);
    }
    Ok(n)
}

/// Removes the tracking attributes from the main document, the footnotes and the
/// endnotes. Returns how many were removed; where there were none, the package is as
/// it was.
pub fn strip_rsids(pkg: &mut Package) -> (res: Result<usize, Error>)
    ensures
        final(pkg).source_view() == old(pkg).source_view(),
        rsids_removed(old(pkg)@, final(pkg)@, res),
        res matches Ok(n) && n == 0 ==> final(pkg)@ == old(pkg)@,
{
    let ghost f = |evs: Seq<Ev>| rsids_stripped(evs);
    let ghost p0 = Pass { parts: pkg@, count: 0, failed: None };
    let ghost p1 = pass_part(p0, PART_DOCUMENT@, f);
    let ghost p2 = pass_part(p1, PART_FOOTNOTES@, f);
    proof {
        lemma_story_names();
        lemma_pass_part(p0, PART_DOCUMENT@, f);
        lemma_pass_part(p1, PART_FOOTNOTES@, f);
    }
    let a = strip_part(pkg, PART_DOCUMENT)?;
    let b = strip_part(pkg, PART_FOOTNOTES)?;
    let c = strip_part(pkg, PART_ENDNOTES)?;
    Ok(add_capped(add_capped(a, b), c))
}

// ---------------------------------------------------------------------------
// Laws
// ---------------------------------------------------------------------------

/// A name that can stand alone in a tag.
pub open spec fn is_plain_name(name: Seq<u8>) -> bool {
    &&& name.len() > 0
    &&& !is_markup_sign(name[0])
    &&& name.last() != 0x2f
    &&& forall|i: int| 0 <= i < name.len() ==> is_plain_byte(#[trigger] name[i])
}

/// A tag that is read as it is written where it has to be written anew: it has no tracking
/// attribute, or its name is plain and so are the attributes that stay.
pub open spec fn is_plain_tag(e: Ev) -> bool {
    let attrs = tag_attrs(e, true);
    is_tag(e) && kept_attrs(attrs).len() < attrs.len() ==> is_plain_name(tag_name(e))
        && all_plain_attrs(kept_attrs(attrs))
}

/// Every tag is such a tag.
pub open spec fn all_plain_tags(events: Seq<Ev>) -> bool {
    forall|i: int| 0 <= i < events.len() ==> is_plain_tag(#[trigger] events[i])
}

/// The event without tracking attributes.
pub open spec fn stripped(e: Ev) -> Ev {
    if is_tag(e) {
        stripped_tag(e)
    } else {
        e
    }
}

/// The events without tracking attributes.
pub open spec fn stripped_events(events: Seq<Ev>) -> Seq<Ev> {
    events.map_values(|e: Ev| stripped(e))
}

proof fn lemma_attrs_scan(before: Seq<u8>, attrs: Seq<At>)
    requires
        tag_scan(before) is Outside,
        all_plain_attrs(attrs),
    ensures
        tag_scan(before + attrs_bytes(attrs)) is Outside,
        attrs.len() > 0 ==> attrs_bytes(attrs).len() > 0 && attrs_bytes(attrs)[0] == 0x20
            && attrs_bytes(attrs).last() == 0x22,
    decreases attrs.len(),
{
    reveal_strlit(" ");
    reveal_strlit("=\"");
    reveal_strlit("\"");
    is_ascii_chars_encode_utf8(" "@);
    is_ascii_chars_encode_utf8("=\""@);
    is_ascii_chars_encode_utf8("\""@);
    if attrs.len() == 0 {
        assert(before + attrs_bytes(attrs) =~= before);
    } else {
        let init = attrs.drop_last();
        let a = attrs[attrs.len() - 1];
        assert forall|i: int| 0 <= i < init.len() implies is_plain_attr(#[trigger] init[i]) by {
            assert(init[i] == attrs[i]);
        }
        lemma_attrs_scan(before, init);
        assert(is_plain_attr(a));
        let shorter = before + attrs_bytes(init);
        let key = seq![0x20u8] + a.key + seq![0x3du8];
        assert forall|i: int| 0 <= i < key.len() implies is_plain_byte(#[trigger] key[i]) by {
            if 0 < i < key.len() - 1 {
                assert(key[i] == a.key[i - 1]);
            }
        }
        lemma_plain_scan(shorter, key);
        lemma_quoted_scan(shorter + key, 0x22, a.value);
        assert(before + attrs_bytes(attrs) =~= ((shorter + key).push(0x22) + a.value).push(0x22));
        if init.len() == 0 {
            assert(attrs_bytes(init) =~= Seq::empty());
        }
    }
}

proof fn lemma_name_in_tag(name: Seq<u8>, rest: Seq<u8>, from: int)
    requires
        0 <= from <= name.len(),
        forall|i: int| 0 <= i < name.len() ==> !is_xml_space(#[trigger] name[i]),
        rest.len() > 0 ==> is_xml_space(rest[0]),
    ensures
        name_end(name + rest, from) == name.len(),
    decreases name.len() - from,
{
    if from < name.len() {
        assert((name + rest)[from] == name[from]);
        lemma_name_in_tag(name, rest, from + 1);
    } else if rest.len() > 0 {
        assert((name + rest)[from] == rest[0]);
    }
}

proof fn lemma_name_has_no_space(raw: Seq<u8>, from: int, i: int)
    requires
        0 <= from <= i < name_end(raw, from),
    ensures
        i < raw.len(),
        !is_xml_space(raw[i]),
    decreases raw.len() - from,
{
    if from < raw.len() && !is_xml_space(raw[from]) && from < i {
        lemma_name_has_no_space(raw, from + 1, i);
    }
}

/// A tag without its tracking attributes is a tag of the same name, whose attributes are
/// those that were kept.
proof fn lemma_stripped_tag(e: Ev)
    requires
        is_tag(e),
        is_token(e),
        is_plain_tag(e),
        is_promised(e),
    ensures
        is_token(stripped_tag(e)),
        stripped_tag(e).kind == e.kind,
        tag_name(stripped_tag(e)) == tag_name(e),
        is_promised(stripped_tag(e)) ==> tag_attrs(stripped_tag(e), true) == kept_attrs(
            tag_attrs(e, true),
        ),
{
    let attrs = tag_attrs(e, true);
    let kept = kept_attrs(attrs);
    let name = tag_name(e);
    let t = stripped_tag(e);
    law_kept_attrs(attrs);
    let keep = |a: At| !is_rsid_key(a.key);
    lemma_filter_unique(attrs, keep);
    if kept.len() == attrs.len() {
        lemma_filter_whole(attrs, keep);
    } else {
        assert(all_plain_attrs(kept)) by {
            assert forall|i: int| 0 <= i < kept.len() implies is_plain_attr(#[trigger] kept[i]) by {
                lemma_filter_from(attrs, keep, i);
            }
        }
        let none = Seq::<u8>::empty();
        lemma_plain_scan(none, name);
        assert(none + name =~= name);
        lemma_attrs_scan(name, kept);
        assert(t.raw[0] == name[0]);
        if kept.len() > 0 {
            assert(t.raw.last() == attrs_bytes(kept).last());
        } else {
            assert(attrs_bytes(kept) =~= Seq::empty());
            assert(t.raw =~= name);
        }
        assert forall|i: int| 0 <= i < name.len() implies !is_xml_space(#[trigger] name[i]) by {
            lemma_name_end(e.raw, 0);
            assert(name[i] == e.raw[i]);
            lemma_name_has_no_space(e.raw, 0, i);
        }
        lemma_name_in_tag(name, attrs_bytes(kept), 0);
        assert(t.raw.take(name.len() as int) =~= name);
        assert(is_tag_of(t, name, kept));
    }
}

proof fn lemma_filter_from(s: Seq<At>, keep: spec_fn(At) -> bool, i: int)
    requires
        0 <= i < s.filter(keep).len(),
    ensures
        exists|k: int| 0 <= k < s.len() && #[trigger] s[k] == s.filter(keep)[i],
    decreases s.len(),
{
    reveal(Seq::filter);
    if s.len() > 0 {
        let init = s.drop_last();
        if i < init.filter(keep).len() {
            lemma_filter_from(init, keep, i);
            let k = choose|k: int| 0 <= k < init.len() && #[trigger] init[k] == init.filter(keep)[i];
            assert(s[k] == s.filter(keep)[i]);
        } else {
            assert(s[s.len() - 1] == s.filter(keep)[i]);
        }
    }
}

proof fn lemma_filter_whole(s: Seq<At>, keep: spec_fn(At) -> bool)
    requires
        s.filter(keep).len() == s.len(),
    ensures
        s.filter(keep) == s,
    decreases s.len(),
{
    reveal(Seq::filter);
    if s.len() > 0 {
        lemma_filter_shorter(s.drop_last(), keep);
        lemma_filter_whole(s.drop_last(), keep);
        assert(s.drop_last().push(s.last()) =~= s);
    }
}

proof fn lemma_filter_shorter(s: Seq<At>, keep: spec_fn(At) -> bool)
    ensures
        s.filter(keep).len() <= s.len(),
    decreases s.len(),
{
    reveal(Seq::filter);
    if s.len() > 0 {
        lemma_filter_shorter(s.drop_last(), keep);
    }
}

proof fn lemma_filter_unique(s: Seq<At>, keep: spec_fn(At) -> bool)
    requires
        unique_keys(s),
    ensures
        unique_keys(s.filter(keep)),
    decreases s.len(),
{
    reveal(Seq::filter);
    if s.len() > 0 {
        let init = s.drop_last();
        assert(unique_keys(init)) by {
            assert forall|i: int, j: int| 0 <= i < j < init.len() implies (#[trigger] init[i]).key
                != (#[trigger] init[j]).key by {
                assert(s[i] == init[i] && s[j] == init[j]);
            }
        }
        lemma_filter_unique(init, keep);
        let before = init.filter(keep);
        let after = s.filter(keep);
        assert forall|i: int, j: int| 0 <= i < j < after.len() implies (#[trigger] after[i]).key != (
        #[trigger] after[j]).key by {
            if j < before.len() {
                assert(after[i] == before[i] && after[j] == before[j]);
            } else {
                lemma_filter_from(init, keep, i);
                let k = choose|k: int| 0 <= k < init.len() && #[trigger] init[k] == before[i];
                assert(s[k] == init[k]);
                assert(s[k].key != s[s.len() - 1].key);
            }
        }
    }
}

/// Events without tracking attributes are as well-formed as they were, are written as the
/// stripped part, and have no tracking attributes.
proof fn lemma_stripped_events(events: Seq<Ev>, n: int)
    requires
        well_formed(events),
        all_plain_tags(events),
        all_promised(events),
        0 <= n <= events.len(),
    ensures
        well_formed(stripped_events(events.take(n))),
        open_names(stripped_events(events.take(n))) == open_names(events.take(n)),
        ends_in_text(stripped_events(events.take(n))) == ends_in_text(events.take(n)),
        rsids_stripped(events.take(n)).0 == emitted_all(stripped_events(events.take(n))),
        all_promised(stripped_events(events)) ==> rsids_stripped(
            stripped_events(events.take(n)),
        ).1 == 0,
    decreases n,
{
    let before = events.take(n);
    let out = stripped_events(before);
    if n == 0 {
        lemma_no_block();
        assert(before =~= Seq::empty());
        assert(out =~= Seq::empty());
        assert(rsids_stripped(before).0 =~= emitted_all(out));
    } else {
        let shorter = events.take(n - 1);
        let e = events[n - 1];
        lemma_stripped_events(events, n - 1);
        lemma_next(events, n - 1);
        assert(before.drop_last() =~= shorter);
        assert(before.last() == e);
        let less = stripped_events(shorter);
        assert(is_plain_tag(e));
        assert(is_promised(e));
        if is_tag(e) {
            lemma_stripped_tag(e);
        }
        let t = stripped(e);
        assert(out =~= less.push(t));
        lemma_push(less, t);
        lemma_emitted_push(less, t);
        assert(out.drop_last() =~= less);
        assert(out.last() == t);
        if all_promised(stripped_events(events)) {
            assert(stripped_events(events)[n - 1] == t);
            assert(is_promised(t));
            if is_tag(e) {
                law_kept_attrs(tag_attrs(e, true));
            }
        }
    }
}

/// A part whose tags are plain, and which does not start with a second byte order mark.
pub open spec fn is_plain_part(parts: Parts, name: Seq<char>) -> bool {
    part(parts, name) matches Some(data) ==> all_plain_tags(xml_events(data)) && !starts_with_mark(
        xml_events(data),
    )
}

/// A part that has been stripped is not changed by another pass.
proof fn lemma_part_again(data: Seq<u8>, again: Seq<u8>)
    requires
        xml_readable(data),
        is_read(data),
        all_promised(xml_events(data)),
        all_plain_tags(xml_events(data)),
        !starts_with_mark(xml_events(data)),
        again == (if rsids_stripped(xml_events(data)).1 == 0 {
            data
        } else {
            rsids_stripped(xml_events(data)).0
        }),
        is_read(again),
    ensures
        xml_readable(again),
        all_promised(xml_events(again)) ==> rsids_stripped(xml_events(again)).1 == 0,
{
    let events = xml_events(data);
    let n = events.len() as int;
    assert(events.take(n) =~= events);
    lemma_stripped_events(events, n);
    if rsids_stripped(events).1 != 0 {
        let out = stripped_events(events);
        assert(again == emitted_all(out));
        if out.len() > 0 {
            assert(out[0] == stripped(events[0]));
        }
        assert(reads_back(out));
        assert(xml_events(again) == out);
    }
}

/// The part after its own pass.
spec fn part_after(parts: Parts, name: Seq<char>) -> Option<Seq<u8>> {
    match part(parts, name) {
        None => None,
        Some(data) => Some(
            if rsids_stripped(xml_events(data)).1 == 0 {
                data
            } else {
                rsids_stripped(xml_events(data)).0
            },
        ),
    }
}

proof fn lemma_own_pass(p: Pass, name: Seq<char>)
    requires
        p.failed is None,
        pass_part(p, name, |evs: Seq<Ev>| rsids_stripped(evs)).failed is None,
    ensures
        part(pass_part(p, name, |evs: Seq<Ev>| rsids_stripped(evs)).parts, name) == part_after(
            p.parts,
            name,
        ),
        part(p.parts, name) matches Some(data) ==> xml_readable(data),
{
    if let Some(data) = part(p.parts, name) {
        lemma_with_part(p.parts, name, rsids_stripped(xml_events(data)).0);
    }
}

/// Removing the tracking attributes again removes none and changes nothing. Left out are
/// tags with a tracking attribute that have a malformed name, or beside it a malformed key
/// or a value that holds a double quotation mark, and so are not written as they were read;
/// and parts that start with a second byte order mark.
pub proof fn law_stripping_again(
    before: Parts,
    after: Parts,
    first: Result<usize, Error>,
    last: Parts,
    second: Result<usize, Error>,
)
    requires
        rsids_removed(before, after, first),
        first is Ok,
        is_plain_part(before, PART_DOCUMENT@),
        is_plain_part(before, PART_FOOTNOTES@),
        is_plain_part(before, PART_ENDNOTES@),
        rsids_removed(after, last, second),
    ensures
        second is Ok,
        second->Ok_0 == 0,
        last == after,
{
    lemma_story_names();
    let f = |evs: Seq<Ev>| rsids_stripped(evs);
    let p0 = Pass { parts: before, count: 0, failed: None };
    let p1 = pass_part(p0, PART_DOCUMENT@, f);
    let p2 = pass_part(p1, PART_FOOTNOTES@, f);
    lemma_pass_part(p0, PART_DOCUMENT@, f);
    lemma_pass_part(p1, PART_FOOTNOTES@, f);
    lemma_pass_part(p2, PART_ENDNOTES@, f);
    assert(p1.failed is None && p2.failed is None);
    lemma_own_pass(p0, PART_DOCUMENT@);
    lemma_own_pass(p1, PART_FOOTNOTES@);
    lemma_own_pass(p2, PART_ENDNOTES@);
    assert(part(after, PART_DOCUMENT@) == part_after(before, PART_DOCUMENT@));
    assert(part(after, PART_FOOTNOTES@) == part_after(before, PART_FOOTNOTES@));
    assert(part(after, PART_ENDNOTES@) == part_after(before, PART_ENDNOTES@));
    let q0 = Pass { parts: after, count: 0, failed: None };
    let q1 = pass_part(q0, PART_DOCUMENT@, f);
    let q2 = pass_part(q1, PART_FOOTNOTES@, f);
    let q3 = pass_part(q2, PART_ENDNOTES@, f);
    lemma_pass_part(q0, PART_DOCUMENT@, f);
    lemma_pass_part(q1, PART_FOOTNOTES@, f);
    if second is Err {
        let name = q3.failed->0;
        assert(part(after, name) is Some && !xml_readable(part(after, name)->0));
        lemma_part_again(part(before, name)->0, part(after, name)->0);
    }
    if let Some(data) = part(before, PART_DOCUMENT@) {
        lemma_part_again(data, part(after, PART_DOCUMENT@)->0);
    }
    if let Some(data) = part(before, PART_FOOTNOTES@) {
        lemma_part_again(data, part(after, PART_FOOTNOTES@)->0);
    }
    if let Some(data) = part(before, PART_ENDNOTES@) {
        lemma_part_again(data, part(after, PART_ENDNOTES@)->0);
    }
    assert(pass_part(q0, PART_DOCUMENT@, f) == q0);
    assert(pass_part(q0, PART_FOOTNOTES@, f) == q0);
    assert(pass_part(q0, PART_ENDNOTES@, f) == q0);
}

/// No tag has a tracking attribute.
pub open spec fn no_tracking(events: Seq<Ev>) -> bool {
    forall|i: int, j: int|
        #![trigger tag_attrs(events[i], true)[j]]
        0 <= i < events.len() && is_tag(events[i]) && 0 <= j < tag_attrs(events[i], true).len()
            ==> !is_rsid_key(tag_attrs(events[i], true)[j].key)
}

/// Where nothing is counted, no tag has a tracking attribute.
proof fn lemma_none_counted(events: Seq<Ev>)
    requires
        rsids_stripped(events).1 == 0,
    ensures
        no_tracking(events),
    decreases events.len(),
{
    if events.len() > 0 {
        let init = events.drop_last();
        let e = events.last();
        let attrs = tag_attrs(e, true);
        law_kept_attrs(attrs);
        lemma_none_counted(init);
        assert forall|i: int, j: int|
            #![trigger tag_attrs(events[i], true)[j]]
            0 <= i < events.len() && is_tag(events[i]) && 0 <= j < tag_attrs(
                events[i],
                true,
            ).len() implies !is_rsid_key(tag_attrs(events[i], true)[j].key) by {
            if i < init.len() {
                assert(init[i] == events[i]);
                assert(!is_rsid_key(tag_attrs(init[i], true)[j].key));
            } else {
                lemma_filter_whole(attrs, |a: At| !is_rsid_key(a.key));
                assert(attrs[j] == kept_attrs(attrs)[j]);
            }
        }
    }
}

/// After the tracking attributes have been removed, a part that is read again has none.
/// Left out are the parts that [`law_stripping_again`] leaves out.
pub proof fn law_no_tracking_left(
    before: Parts,
    after: Parts,
    res: Result<usize, Error>,
    name: Seq<char>,
)
    requires
        rsids_removed(before, after, res),
        res is Ok,
        name == PART_DOCUMENT@ || name == PART_FOOTNOTES@ || name == PART_ENDNOTES@,
        is_plain_part(before, name),
        part_promised(after, name),
    ensures
        part(after, name) matches Some(data) ==> xml_readable(data) && no_tracking(
            xml_events(data),
        ),
        part(after, name) is Some == part(before, name) is Some,
{
    lemma_story_names();
    let f = |evs: Seq<Ev>| rsids_stripped(evs);
    let p0 = Pass { parts: before, count: 0, failed: None };
    let p1 = pass_part(p0, PART_DOCUMENT@, f);
    let p2 = pass_part(p1, PART_FOOTNOTES@, f);
    lemma_pass_part(p0, PART_DOCUMENT@, f);
    lemma_pass_part(p1, PART_FOOTNOTES@, f);
    lemma_pass_part(p2, PART_ENDNOTES@, f);
    assert(p1.failed is None && p2.failed is None);
    lemma_own_pass(p0, PART_DOCUMENT@);
    lemma_own_pass(p1, PART_FOOTNOTES@);
    lemma_own_pass(p2, PART_ENDNOTES@);
    assert(part(after, name) == part_after(before, name));
    if let Some(data) = part(before, name) {
        lemma_part_again(data, part(after, name)->0);
        lemma_none_counted(xml_events(part(after, name)->0));
    }
}

} // verus!
