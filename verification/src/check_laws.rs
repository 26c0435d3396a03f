//! What holds of a package in which no issue is found.

use vstd::prelude::*;

use crate::bytes::lit;
use crate::check::{
    check_lines, children_lines, children_state, children_step, duplicates, first_of, followed,
    holds_xml, ids_of, inner_target, is_body_child, is_rid, joined_path, key_values,
    law_clean_package, law_no_duplicates, missing_in, missing_targets, name_set, para_ids,
    parse_errors, rel_target, repeated, resolved_target, rid_lines, rids_from, segments,
    tag_values, times, unexpected, used_rids, without_id, ChildrenView,
};
use crate::names::{
    has_name, inserted, key_index, lemma_inserted, lemma_key_index, lookup, sorted, Pairs,
};
use crate::ns::{PART_DOCUMENT, PART_DOCUMENT_RELS};
use crate::package::{part, Parts};
use crate::text::{chars_at, contains_chars, ends_with, find_chars, utf8_lossy};
use crate::xml::{tag_attrs, tag_name, xml_events, xml_readable, At, Ev, EventKind};

verus! {

// ---------------------------------------------------------------------------
// Values of attributes
// ---------------------------------------------------------------------------

/// The `k`-th attribute has one of the keys and a value that is not empty.
pub open spec fn has_value(attrs: Seq<At>, keys: Seq<Seq<u8>>, k: int, v: Seq<char>) -> bool {
    &&& 0 <= k < attrs.len()
    &&& keys.contains(attrs[k].key)
    &&& utf8_lossy(attrs[k].value) == v
    &&& v.len() > 0
}

/// The event is a start or empty tag of the name `w:` and a local name, whose `k`-th attribute
/// has one of the keys and a value that is not empty.
pub open spec fn tag_has_value(
    e: Ev,
    local: &str,
    keys: Seq<Seq<u8>>,
    k: int,
    v: Seq<char>,
) -> bool {
    &&& e.kind == EventKind::Start || e.kind == EventKind::Empty
    &&& tag_name(e) == lit("w:") + lit(local)
    &&& has_value(tag_attrs(e, false), keys, k, v)
}

proof fn lemma_key_values(attrs: Seq<At>, keys: Seq<Seq<u8>>, v: Seq<char>)
    ensures
        key_values(attrs, keys).contains(v) <==> exists|k: int| #[trigger]
            has_value(attrs, keys, k, v),
    decreases attrs.len(),
{
    let all = key_values(attrs, keys);
    if attrs.len() > 0 {
        let init = attrs.drop_last();
        let n = attrs.len() - 1;
        lemma_key_values(init, keys, v);
        let before = key_values(init, keys);
        if before.contains(v) {
            let k = choose|k: int| #[trigger] has_value(init, keys, k, v);
            assert(has_value(attrs, keys, k, v));
            let p = choose|p: int| 0 <= p < before.len() && before[p] == v;
            assert(all[p] == v);
        }
        if exists|k: int| #[trigger] has_value(attrs, keys, k, v) {
            let k = choose|k: int| #[trigger] has_value(attrs, keys, k, v);
            if k < n {
                assert(has_value(init, keys, k, v));
            } else {
                assert(all[before.len() as int] == v);
            }
        }
        if all.contains(v) {
            let p = choose|p: int| 0 <= p < all.len() && all[p] == v;
            if p < before.len() {
                assert(before[p] == v);
            } else {
                assert(has_value(attrs, keys, n, v));
            }
        }
    }
}

/// The values that are collected are those of the tags of a name for one of the keys.
pub proof fn law_values_are_those_of_tags(
    events: Seq<Ev>,
    local: &str,
    keys: Seq<Seq<u8>>,
    v: Seq<char>,
)
    ensures
        tag_values(events, local, keys).contains(v) <==> exists|i: int, k: int|
            0 <= i < events.len() && #[trigger] tag_has_value(events[i], local, keys, k, v),
    decreases events.len(),
{
    let all = tag_values(events, local, keys);
    if events.len() > 0 {
        let init = events.drop_last();
        let e = events.last();
        let n = events.len() - 1;
        law_values_are_those_of_tags(init, local, keys, v);
        let before = tag_values(init, local, keys);
        let more = key_values(tag_attrs(e, false), keys);
        lemma_key_values(tag_attrs(e, false), keys, v);
        if before.contains(v) {
            let (i, k) = choose|i: int, k: int|
                0 <= i < init.len() && #[trigger] tag_has_value(init[i], local, keys, k, v);
            assert(tag_has_value(events[i], local, keys, k, v));
            let p = choose|p: int| 0 <= p < before.len() && before[p] == v;
            assert(all[p] == v);
        }
        if exists|i: int, k: int|
            0 <= i < events.len() && #[trigger] tag_has_value(events[i], local, keys, k, v) {
            let (i, k) = choose|i: int, k: int|
                0 <= i < events.len() && #[trigger] tag_has_value(events[i], local, keys, k, v);
            if i < n {
                assert(tag_has_value(init[i], local, keys, k, v));
            } else {
                assert(has_value(tag_attrs(e, false), keys, k, v));
                let q = choose|q: int| 0 <= q < more.len() && more[q] == v;
                assert(all[before.len() + q] == v);
            }
        }
        if all.contains(v) {
            let p = choose|p: int| 0 <= p < all.len() && all[p] == v;
            if p < before.len() {
                assert(before[p] == v);
            } else {
                assert(more[p - before.len()] == v);
                let k = choose|k: int| #[trigger] has_value(tag_attrs(e, false), keys, k, v);
                assert(tag_has_value(events[n], local, keys, k, v));
            }
        }
    }
}

/// The sequence holds a value twice.
pub open spec fn is_twice_in(values: Seq<Seq<char>>, v: Seq<char>) -> bool {
    exists|p: int, q: int| 0 <= p < q < values.len() && values[p] == v && values[q] == v
}

proof fn lemma_values_before(events: Seq<Ev>, local: &str, keys: Seq<Seq<u8>>, n: int)
    requires
        0 <= n <= events.len(),
    ensures
        tag_values(events.take(n), local, keys).is_prefix_of(tag_values(events, local, keys)),
    decreases events.len(),
{
    let all = tag_values(events, local, keys);
    if n == events.len() {
        assert(events.take(n) =~= events);
        assert(all.take(all.len() as int) =~= all);
    } else {
        let init = events.drop_last();
        lemma_values_before(init, local, keys, n);
        assert(init.take(n) =~= events.take(n));
        let some = tag_values(events.take(n), local, keys);
        let before = tag_values(init, local, keys);
        assert(all.take(some.len() as int) =~= before.take(some.len() as int));
    }
}

/// A value that two tags have is collected twice.
proof fn lemma_twice(
    events: Seq<Ev>,
    local: &str,
    keys: Seq<Seq<u8>>,
    i: int,
    a: int,
    j: int,
    b: int,
    v: Seq<char>,
)
    requires
        0 <= i < j < events.len(),
        tag_has_value(events[i], local, keys, a, v),
        tag_has_value(events[j], local, keys, b, v),
    ensures
        is_twice_in(tag_values(events, local, keys), v),
{
    let all = tag_values(events, local, keys);
    let first = events.take(j);
    assert(first[i] == events[i]);
    assert(tag_has_value(first[i], local, keys, a, v));
    law_values_are_those_of_tags(first, local, keys, v);
    let before = tag_values(first, local, keys);
    let p = choose|p: int| 0 <= p < before.len() && before[p] == v;
    let upto = events.take(j + 1);
    assert(upto.drop_last() =~= first);
    assert(upto.last() == events[j]);
    lemma_key_values(tag_attrs(events[j], false), keys, v);
    assert(has_value(tag_attrs(events[j], false), keys, b, v));
    let more = key_values(tag_attrs(events[j], false), keys);
    let q = choose|q: int| 0 <= q < more.len() && more[q] == v;
    lemma_values_before(events, local, keys, j + 1);
    let some = tag_values(upto, local, keys);
    assert(some == before + more);
    assert(some[p] == v);
    assert(some[before.len() + q] == v);
    assert(all.take(some.len() as int)[p] == all[p]);
    assert(all.take(some.len() as int)[before.len() + q] == all[before.len() + q]);
}

// ---------------------------------------------------------------------------
// Clean packages
// ---------------------------------------------------------------------------

/// In a document without issues no two bookmarks have the same id.
pub proof fn law_bookmarks_are_distinct(
    parts: Parts,
    i: int,
    a: int,
    j: int,
    b: int,
    v: Seq<char>,
)
    requires
        check_lines(parts).issues.len() == 0,
        ({
            let events = xml_events(part(parts, PART_DOCUMENT@)->0);
            &&& 0 <= i < j < events.len()
            &&& tag_has_value(events[i], "bookmarkStart", seq![lit("w:id")], a, v)
        }),
    ensures
        !tag_has_value(
            xml_events(part(parts, PART_DOCUMENT@)->0)[j],
            "bookmarkStart",
            seq![lit("w:id")],
            b,
            v,
        ),
{
    law_clean_package(parts);
    lemma_document_holds_xml();
    let events = xml_events(part(parts, PART_DOCUMENT@)->0);
    let keys = seq![lit("w:id")];
    let ids = tag_values(events, "bookmarkStart", keys);
    if tag_has_value(events[j], "bookmarkStart", keys, b, v) {
        lemma_twice(events, "bookmarkStart", keys, i, a, j, b, v);
        if duplicates(ids).len() == 0 {
            law_no_duplicates(ids);
        }
        assert(duplicates(ids).len() > 0);
        assert(first_of(duplicates(ids), 3).len() > 0);
        lemma_document_readable(parts);
    }
}

proof fn lemma_document_holds_xml()
    ensures
        holds_xml(PART_DOCUMENT@),
{
    reveal_strlit("word/document.xml");
    reveal_strlit(".xml");
    assert(PART_DOCUMENT@.subrange(13, 17) =~= ".xml"@);
}

proof fn lemma_document_readable(parts: Parts)
    requires
        check_lines(parts).issues.len() == 0,
    ensures
        part(parts, PART_DOCUMENT@) is Some,
        xml_readable(part(parts, PART_DOCUMENT@)->0),
{
    law_clean_package(parts);
}

/// In a package without issues no two paragraphs of a part have the same id.
pub proof fn law_paragraphs_of_a_part_are_distinct(
    parts: Parts,
    p: int,
    i: int,
    a: int,
    j: int,
    b: int,
    v: Seq<char>,
)
    requires
        check_lines(parts).issues.len() == 0,
        0 <= p < parts.len(),
        ends_with(parts[p].0, ".xml"@),
        0 <= i < j < xml_events(parts[p].1).len(),
        tag_has_value(xml_events(parts[p].1)[i], "p", seq![lit("w14:paraId")], a, v),
    ensures
        !tag_has_value(xml_events(parts[p].1)[j], "p", seq![lit("w14:paraId")], b, v),
{
    law_clean_package(parts);
    let events = xml_events(parts[p].1);
    let keys = seq![lit("w14:paraId")];
    if tag_has_value(events[j], "p", keys, b, v) {
        lemma_twice(events, "p", keys, i, a, j, b, v);
        let mine = ids_of(parts[p].1);
        let (x, y) = choose|x: int, y: int|
            0 <= x < y < mine.len() && mine[x] == v && mine[y] == v;
        let at = lemma_ids_placed(parts, p);
        let all = para_ids(parts);
        assert(all[at + x] == v && all[at + y] == v);
    }
}

/// In a package without issues no two paragraphs of different parts have the same id.
pub proof fn law_paragraphs_of_two_parts_are_distinct(
    parts: Parts,
    p: int,
    i: int,
    a: int,
    q: int,
    j: int,
    b: int,
    v: Seq<char>,
)
    requires
        check_lines(parts).issues.len() == 0,
        0 <= p < q < parts.len(),
        ends_with(parts[p].0, ".xml"@),
        ends_with(parts[q].0, ".xml"@),
        0 <= i < xml_events(parts[p].1).len(),
        0 <= j < xml_events(parts[q].1).len(),
        tag_has_value(xml_events(parts[p].1)[i], "p", seq![lit("w14:paraId")], a, v),
    ensures
        !tag_has_value(xml_events(parts[q].1)[j], "p", seq![lit("w14:paraId")], b, v),
{
    law_clean_package(parts);
    let keys = seq![lit("w14:paraId")];
    if tag_has_value(xml_events(parts[q].1)[j], "p", keys, b, v) {
        law_values_are_those_of_tags(xml_events(parts[p].1), "p", keys, v);
        law_values_are_those_of_tags(xml_events(parts[q].1), "p", keys, v);
        let one = ids_of(parts[p].1);
        let two = ids_of(parts[q].1);
        let x = choose|x: int| 0 <= x < one.len() && one[x] == v;
        let y = choose|y: int| 0 <= y < two.len() && two[y] == v;
        let s = lemma_ids_placed(parts, p);
        let t = lemma_ids_placed(parts, q);
        lemma_ids_in_order(parts, p, q, s, t);
        let all = para_ids(parts);
        assert(all[s + x] == v && all[t + y] == v);
    }
}

spec fn ids_before(parts: Parts, p: int) -> int {
    para_ids(parts.take(p)).len() as int
}

proof fn lemma_ids_placed(parts: Parts, p: int) -> (at: int)
    requires
        0 <= p < parts.len(),
        ends_with(parts[p].0, ".xml"@),
    ensures
        at == ids_before(parts, p),
        at + ids_of(parts[p].1).len() <= para_ids(parts).len(),
        forall|x: int|
            0 <= x < ids_of(parts[p].1).len() ==> #[trigger] para_ids(parts)[at + x] == ids_of(
                parts[p].1,
            )[x],
    decreases parts.len(),
{
    let all = para_ids(parts);
    let mine = ids_of(parts[p].1);
    let init = parts.drop_last();
    if p == parts.len() - 1 {
        assert(parts.take(p) =~= init);
        assert(all == para_ids(init) + mine);
        ids_before(parts, p)
    } else {
        let at = lemma_ids_placed(init, p);
        assert(init.take(p) =~= parts.take(p));
        assert forall|x: int| 0 <= x < mine.len() implies #[trigger] all[at + x] == mine[x] by {
            assert(para_ids(init)[at + x] == mine[x]);
        }
        at
    }
}

proof fn lemma_ids_in_order(parts: Parts, p: int, q: int, s: int, t: int)
    requires
        0 <= p < q < parts.len(),
        ends_with(parts[p].0, ".xml"@),
        s == ids_before(parts, p),
        t == ids_before(parts, q),
    ensures
        s + ids_of(parts[p].1).len() <= t,
{
    let first = parts.take(q);
    let at = lemma_ids_placed(first, p);
    assert(first.take(p) =~= parts.take(p));
    assert(first[p] == parts[p]);
}

/// The target of a relationship, where it points into the package.
pub open spec fn points_to(e: Ev, target: Seq<char>) -> bool {
    let attrs = tag_attrs(e, false);
    &&& e.kind == EventKind::Start || e.kind == EventKind::Empty
    &&& tag_name(e) == lit("Relationship")
    &&& exists|k: int|
        0 <= k < attrs.len() && (#[trigger] attrs[k]).key == lit("Target") && utf8_lossy(
            attrs[k].value,
        ) == target && forall|l: int|
            k < l < attrs.len() ==> (#[trigger] attrs[l]).key != lit("Target")
    &&& forall|k: int|
        0 <= k < attrs.len() ==> !((#[trigger] attrs[k]).key == lit("TargetMode") && attrs[k].value
            == lit("External"))
}

proof fn lemma_rel_target(attrs: Seq<At>, k: int)
    requires
        0 <= k < attrs.len(),
        attrs[k].key == lit("Target"),
        forall|l: int| k < l < attrs.len() ==> (#[trigger] attrs[l]).key != lit("Target"),
    ensures
        rel_target(attrs) == Some(utf8_lossy(attrs[k].value)),
    decreases attrs.len(),
{
    if k < attrs.len() - 1 {
        let init = attrs.drop_last();
        assert(attrs[attrs.len() - 1].key != lit("Target"));
        assert forall|l: int| k < l < init.len() implies (#[trigger] init[l]).key != lit(
            "Target",
        ) by {
            assert(init[l] == attrs[l]);
        }
        lemma_rel_target(init, k);
    }
}

proof fn lemma_none_missing(events: Seq<Ev>, name: Seq<char>, parts: Parts, i: int, t: Seq<char>)
    requires
        missing_in(events, name, parts).len() == 0,
        0 <= i < events.len(),
        points_to(events[i], t),
    ensures
        resolved_target(crate::check::rels_base(name), t).len() > 0 ==> part(
            parts,
            resolved_target(crate::check::rels_base(name), t),
        ) is Some,
    decreases events.len(),
{
    let init = events.drop_last();
    if i < init.len() {
        assert(init[i] == events[i]);
        lemma_none_missing(init, name, parts, i, t);
    } else {
        let attrs = tag_attrs(events[i], false);
        let k = choose|k: int|
            0 <= k < attrs.len() && (#[trigger] attrs[k]).key == lit("Target") && utf8_lossy(
                attrs[k].value,
            ) == t && forall|l: int|
                k < l < attrs.len() ==> (#[trigger] attrs[l]).key != lit("Target");
        lemma_rel_target(attrs, k);
        assert(inner_target(attrs) == Some(t));
    }
}

proof fn lemma_none_missing_in(some: Parts, parts: Parts, p: int)
    requires
        missing_targets(some, parts).len() == 0,
        0 <= p < some.len(),
        ends_with(some[p].0, ".rels"@),
    ensures
        missing_in(xml_events(some[p].1), some[p].0, parts).len() == 0,
    decreases some.len(),
{
    if p < some.len() - 1 {
        assert(some.drop_last()[p] == some[p]);
        lemma_none_missing_in(some.drop_last(), parts, p);
    }
}

/// In a package without issues every relationship that points into the package has a target
/// that is there.
pub proof fn law_targets_are_there(parts: Parts, p: int, i: int, t: Seq<char>)
    requires
        check_lines(parts).issues.len() == 0,
        0 <= p < parts.len(),
        ends_with(parts[p].0, ".rels"@),
        0 <= i < xml_events(parts[p].1).len(),
        points_to(xml_events(parts[p].1)[i], t),
    ensures
        ({
            let full = resolved_target(crate::check::rels_base(parts[p].0), t);
            full.len() > 0 ==> part(parts, full) is Some
        }),
{
    law_clean_package(parts);
    lemma_none_missing_in(parts, parts, p);
    lemma_none_missing(xml_events(parts[p].1), parts[p].0, parts, i, t);
}

// ---------------------------------------------------------------------------
// Paths
// ---------------------------------------------------------------------------

/// A name in a path: not empty, without slashes, and neither one nor two dots.
pub open spec fn is_step(s: Seq<char>) -> bool {
    s.len() > 0 && !s.contains('/') && s != "."@ && s != ".."@
}

proof fn lemma_segments(a: Seq<char>, b: Seq<char>)
    requires
        !b.contains('/'),
    ensures
        segments(a).len() > 0,
        segments((a + "/"@) + b) == segments(a).push(b),
    decreases b.len(),
{
    reveal_strlit("/");
    lemma_some_segment(a);
    let all = (a + "/"@) + b;
    if b.len() == 0 {
        assert(all =~= a + "/"@);
        assert(all.drop_last() =~= a);
        assert(all.last() == '/');
        assert(b =~= Seq::empty());
    } else {
        let init = b.drop_last();
        assert(!init.contains('/')) by {
            if init.contains('/') {
                let k = choose|k: int| 0 <= k < init.len() && init[k] == '/';
                assert(b[k] == '/');
            }
        }
        lemma_segments(a, init);
        assert(all.drop_last() =~= (a + "/"@) + init);
        assert(all.last() == b.last());
        assert(b[b.len() - 1] == b.last());
        assert(init.push(b.last()) =~= b);
        let before = segments((a + "/"@) + init);
        assert(before.drop_last() =~= segments(a));
        assert(before.last() == init);
    }
}

proof fn lemma_some_segment(a: Seq<char>)
    ensures
        segments(a).len() > 0,
    decreases a.len(),
{
    if a.len() > 0 {
        lemma_some_segment(a.drop_last());
    }
}

proof fn lemma_one_segment(a: Seq<char>)
    requires
        !a.contains('/'),
    ensures
        segments(a) == seq![a],
    decreases a.len(),
{
    if a.len() == 0 {
        assert(a =~= Seq::empty());
        assert(segments(a) =~= seq![a]);
    } else {
        let init = a.drop_last();
        assert(a[a.len() - 1] != '/') by {
            assert(a.contains(a[a.len() - 1]));
        }
        assert(!init.contains('/')) by {
            if init.contains('/') {
                let k = choose|k: int| 0 <= k < init.len() && init[k] == '/';
                assert(a[k] == '/');
            }
        }
        lemma_one_segment(init);
        assert(init.push(a.last()) =~= a);
        assert(segments(a) =~= seq![a]);
    }
}

/// A target that starts with a slash is seen from the root of the package, wherever it stands.
pub proof fn law_absolute_targets(base: Seq<char>, target: Seq<char>)
    ensures
        resolved_target(base, seq!['/'] + target) == target,
{
    let t = seq!['/'] + target;
    assert(t[0] == '/');
    assert(t.skip(1) =~= target);
}

/// A name seen from a directory with a name is in that directory; one behind two dots is
/// beside it.
pub proof fn law_relative_targets(dir: Seq<char>, name: Seq<char>)
    requires
        is_step(dir),
        is_step(name),
    ensures
        resolved_target(dir, name) == dir + "/"@ + name,
        resolved_target(Seq::empty(), name) == name,
        resolved_target(dir, ".."@ + "/"@ + name) == name,
{
    reveal_strlit("/");
    reveal_strlit("..");
    reveal_strlit(".");
    lemma_one_segment(dir);
    lemma_one_segment(name);
    lemma_segments(dir, name);
    assert(name[0] != '/') by {
        assert(name.contains(name[0]));
    }
    let one = seq![dir];
    let two = segments(dir).push(name);
    assert(two.drop_last() =~= one);
    assert(one.drop_last() =~= Seq::empty());
    reveal_with_fuel(followed, 4);
    assert(followed(one) =~= one);
    assert(followed(two) =~= two);
    reveal_with_fuel(joined_path, 3);
    assert(joined_path(two) =~= dir + "/"@ + name);
    assert(followed(seq![name]) =~= seq![name]) by {
        assert(seq![name].drop_last() =~= Seq::empty());
    }
    let up = ".."@ + "/"@ + name;
    assert(up[0] == '.');
    assert(!(".."@).contains('/'));
    lemma_segments(dir, ".."@);
    lemma_segments(dir + "/"@ + ".."@, name);
    assert(dir + "/"@ + up =~= (dir + "/"@ + ".."@) + "/"@ + name);
    let three = segments(dir).push(".."@).push(name);
    assert(three.drop_last() =~= segments(dir).push(".."@));
    assert(segments(dir).push(".."@).drop_last() =~= one);
    assert(followed(segments(dir).push(".."@)) =~= Seq::empty());
    assert(followed(three) =~= seq![name]);
}

// ---------------------------------------------------------------------------
// Children of the body
// ---------------------------------------------------------------------------

/// How many more elements have been opened than closed by the first `n` events.
pub open spec fn nesting(events: Seq<Ev>, n: int) -> int
    decreases n,
{
    if n <= 0 {
        0
    } else {
        nesting(events, n - 1) + match events[n - 1].kind {
            EventKind::Start => 1int,
            EventKind::End => -1int,
            _ => 0int,
        }
    }
}

/// Events that close what they open, and hold no body.
pub open spec fn is_balanced(events: Seq<Ev>) -> bool {
    &&& forall|n: int| 0 <= n <= events.len() ==> #[trigger] nesting(events, n) >= 0
    &&& nesting(events, events.len() as int) == 0
    &&& forall|i: int| 0 <= i < events.len() ==> tag_name(#[trigger] events[i]) != lit("w:body")
}

/// An element: an empty tag, or a start tag, what it holds, and an end tag.
pub open spec fn is_child(events: Seq<Ev>) -> bool {
    &&& events.len() > 0
    &&& tag_name(events[0]) != lit("w:body")
    &&& (events.len() == 1 && events[0].kind == EventKind::Empty) || (events.len() >= 2
        && events[0].kind == EventKind::Start && events.last().kind == EventKind::End
        && is_balanced(events.subrange(1, events.len() - 1)))
}

/// The events of the first `n` elements.
pub open spec fn children_events(children: Seq<Seq<Ev>>, n: int) -> Seq<Ev>
    decreases n,
{
    if n <= 0 {
        Seq::empty()
    } else {
        children_events(children, n - 1) + children[n - 1]
    }
}

proof fn lemma_body_name()
    ensures
        crate::check::w("body") == lit("w:body"),
{
    reveal_strlit("w:");
    reveal_strlit("body");
    reveal_strlit("w:body");
    vstd::utf8::is_ascii_chars_encode_utf8("w:"@);
    vstd::utf8::is_ascii_chars_encode_utf8("body"@);
    vstd::utf8::is_ascii_chars_encode_utf8("w:body"@);
    assert(lit("w:") + lit("body") =~= lit("w:body"));
}

proof fn lemma_children_push(events: Seq<Ev>, e: Ev)
    ensures
        children_state(events.push(e)) == children_step(children_state(events), e),
{
    assert(events.push(e).drop_last() =~= events);
}

proof fn lemma_balanced(before: Seq<Ev>, inner: Seq<Ev>, n: int)
    requires
        is_balanced(inner),
        0 <= n <= inner.len(),
        children_state(before).inside,
        children_state(before).depth == children_state(before).body_depth + 1,
    ensures
        children_state(before + inner.take(n)) == (ChildrenView {
            depth: children_state(before).depth + nesting(inner, n),
            ..children_state(before)
        }),
    decreases n,
{
    if n == 0 {
        assert(before + inner.take(0) =~= before);
    } else {
        lemma_balanced(before, inner, n - 1);
        lemma_body_name();
        let e = inner[n - 1];
        assert(before + inner.take(n) =~= (before + inner.take(n - 1)).push(e));
        lemma_children_push(before + inner.take(n - 1), e);
        assert(nesting(inner, n - 1) >= 0);
        assert(nesting(inner, n) >= 0);
        assert(tag_name(e) != lit("w:body"));
    }
}

proof fn lemma_child(before: Seq<Ev>, child: Seq<Ev>)
    requires
        is_child(child),
        children_state(before).inside,
        children_state(before).depth == children_state(before).body_depth,
    ensures
        children_state(before + child) == (ChildrenView {
            names: children_state(before).names.push(utf8_lossy(tag_name(child[0]))),
            ..children_state(before)
        }),
{
    lemma_body_name();
    let first = before.push(child[0]);
    lemma_children_push(before, child[0]);
    if child.len() == 1 {
        assert(before + child =~= first);
    } else {
        let inner = child.subrange(1, child.len() - 1);
        lemma_balanced(first, inner, inner.len() as int);
        assert(inner.take(inner.len() as int) =~= inner);
        lemma_children_push(first + inner, child.last());
        assert(before + child =~= (first + inner).push(child.last()));
    }
}

/// The children of a body are the elements that stand in it, in order, whatever they hold.
pub proof fn law_children_of_a_body(before: Seq<Ev>, body: Ev, children: Seq<Seq<Ev>>, n: int)
    requires
        is_start_of(body, "w:body"),
        0 <= n <= children.len(),
        forall|i: int| 0 <= i < children.len() ==> is_child(#[trigger] children[i]),
    ensures
        ({
            let a = children_state(before);
            let s = children_state(before.push(body) + children_events(children, n));
            &&& s.inside
            &&& s.depth == s.body_depth
            &&& s.names == a.names + Seq::new(
                n as nat,
                |i: int| utf8_lossy(tag_name(children[i][0])),
            )
        }),
    decreases n,
{
    lemma_body_name();
    let a = before.push(body);
    lemma_children_push(before, body);
    let names = children_state(before).names;
    if n == 0 {
        assert(a + children_events(children, 0) =~= a);
        assert(names + Seq::new(0, |i: int| utf8_lossy(tag_name(children[i][0]))) =~= names);
    } else {
        law_children_of_a_body(before, body, children, n - 1);
        let mid = a + children_events(children, n - 1);
        lemma_child(mid, children[n - 1]);
        assert(a + children_events(children, n) =~= mid + children[n - 1]);
        assert(names + Seq::new(n as nat, |i: int| utf8_lossy(tag_name(children[i][0]))) =~= (names
            + Seq::new((n - 1) as nat, |i: int| utf8_lossy(tag_name(children[i][0])))).push(
            utf8_lossy(tag_name(children[n - 1][0])),
        ));
    }
}

/// A start tag of a name.
pub open spec fn is_start_of(e: Ev, name: &str) -> bool {
    e.kind == EventKind::Start && tag_name(e) == lit(name)
}

proof fn lemma_none_unexpected(names: Seq<Seq<char>>, i: int)
    requires
        unexpected(names).len() == 0,
        0 <= i < names.len(),
    ensures
        is_body_child(names[i]),
    decreases names.len(),
{
    if i < names.len() - 1 {
        assert(names.drop_last()[i] == names[i]);
        lemma_none_unexpected(names.drop_last(), i);
    }
}

/// In a document without issues the children of the body are paragraphs, tables, bookmarks and
/// section properties, and section properties stand last.
pub proof fn law_clean_bodies(parts: Parts, i: int)
    requires
        check_lines(parts).issues.len() == 0,
        0 <= i < children_state(xml_events(part(parts, PART_DOCUMENT@)->0)).names.len(),
    ensures
        ({
            let names = children_state(xml_events(part(parts, PART_DOCUMENT@)->0)).names;
            let name = names[i];
            &&& name == "w:p"@ || name == "w:tbl"@ || name == "w:sectPr"@ || name
                == "w:bookmarkStart"@ || name == "w:bookmarkEnd"@
            &&& names.contains("w:sectPr"@) ==> names.last() == "w:sectPr"@
        }),
{
    lemma_document_readable(parts);
    let names = children_state(xml_events(part(parts, PART_DOCUMENT@)->0)).names;
    assert(children_lines(names).issues.len() == 0);
    lemma_none_unexpected(names, i);
}

// ---------------------------------------------------------------------------
// No false alarms
// ---------------------------------------------------------------------------

proof fn lemma_times_once(v: Seq<Seq<char>>, x: Seq<char>)
    requires
        v.no_duplicates(),
    ensures
        times(v, x) <= 1,
        !v.contains(x) ==> times(v, x) == 0,
    decreases v.len(),
{
    if v.len() > 0 {
        let init = v.drop_last();
        assert(init.no_duplicates()) by {
            assert forall|i: int, j: int|
                0 <= i < init.len() && 0 <= j < init.len() && i != j implies init[i]
                != init[j] by {
                assert(v[i] != v[j]);
            }
        }
        lemma_times_once(init, x);
        assert(v[v.len() - 1] == v.last());
        if v.last() == x && init.contains(x) {
            let k = choose|k: int| 0 <= k < init.len() && init[k] == x;
            assert(v[k] != v[v.len() - 1]);
        }
        if !v.contains(x) && init.contains(x) {
            let k = choose|k: int| 0 <= k < init.len() && init[k] == x;
            assert(v[k] == x);
        }
    }
}

proof fn lemma_none_repeated(names: Pairs<()>, v: Seq<Seq<char>>)
    requires
        v.no_duplicates(),
    ensures
        repeated(names, v).len() == 0,
    decreases names.len(),
{
    if names.len() > 0 {
        lemma_none_repeated(names.drop_last(), v);
        lemma_times_once(v, names.last().0);
    }
}

/// Ids that are all different are no issue.
pub proof fn law_distinct_ids_are_no_issue(v: Seq<Seq<char>>)
    requires
        v.no_duplicates(),
    ensures
        duplicates(v).len() == 0,
{
    lemma_none_repeated(name_set(v), v);
}

/// Parts that can be read are no issue.
pub proof fn law_readable_parts_are_no_issue(parts: Parts)
    requires
        forall|i: int|
            0 <= i < parts.len() && holds_xml((#[trigger] parts[i]).0) ==> xml_readable(parts[i].1),
    ensures
        parse_errors(parts).len() == 0,
    decreases parts.len(),
{
    if parts.len() > 0 {
        let init = parts.drop_last();
        assert forall|i: int|
            0 <= i < init.len() && holds_xml((#[trigger] init[i]).0) implies xml_readable(
            init[i].1,
        ) by {
            assert(init[i] == parts[i]);
        }
        law_readable_parts_are_no_issue(init);
        assert(parts[parts.len() - 1] == parts.last());
    }
}

/// A body whose children are all allowed, with section properties last, is no issue.
pub proof fn law_allowed_children_are_no_issue(names: Seq<Seq<char>>)
    requires
        forall|i: int|
            0 <= i < names.len() ==> (#[trigger] names[i]) == "w:p"@ || names[i] == "w:tbl"@
                || names[i] == "w:sectPr"@,
        names.contains("w:sectPr"@) ==> names.last() == "w:sectPr"@,
    ensures
        children_lines(names).issues.len() == 0,
{
    lemma_all_expected(names);
}

proof fn lemma_all_expected(names: Seq<Seq<char>>)
    requires
        forall|i: int|
            0 <= i < names.len() ==> (#[trigger] names[i]) == "w:p"@ || names[i] == "w:tbl"@
                || names[i] == "w:sectPr"@,
    ensures
        unexpected(names).len() == 0,
    decreases names.len(),
{
    if names.len() > 0 {
        let init = names.drop_last();
        assert forall|i: int| 0 <= i < init.len() implies (#[trigger] init[i]) == "w:p"@ || init[i]
            == "w:tbl"@ || init[i] == "w:sectPr"@ by {
            assert(init[i] == names[i]);
        }
        lemma_all_expected(init);
        assert(names[names.len() - 1] == names.last());
    }
}

// ---------------------------------------------------------------------------
// Relationship ids
// ---------------------------------------------------------------------------

/// An attribute that `needle` opens stands at `i` in the text, with a value that ends at the
/// quotation mark at `end`.
pub open spec fn has_attribute(s: Seq<char>, needle: Seq<char>, i: int, end: int) -> bool {
    &&& 0 <= i
    &&& i + needle.len() <= end < s.len()
    &&& s.subrange(i, i + needle.len()) == needle
    &&& s[end] == '"'
    &&& forall|k: int| i + needle.len() <= k < end ==> #[trigger] s[k] != '"'
}

/// No attribute that `needle` opens begins inside the value of another.
pub open spec fn values_are_apart(s: Seq<char>, needle: Seq<char>) -> bool {
    forall|i: int, end: int, j: int|
        #[trigger] has_attribute(s, needle, i, end) && #[trigger] chars_at(s, j, needle) && i < j
            ==> end <= j
}

proof fn lemma_find_from(s: Seq<char>, needle: Seq<char>, from: int, at: int)
    requires
        0 <= from <= at,
        chars_at(s, at, needle),
    ensures
        find_chars(s, needle, from) matches Some(p) && from <= p <= at && chars_at(s, p, needle),
    decreases at - from,
{
    if from < at && !chars_at(s, from, needle) {
        lemma_find_from(s, needle, from + 1, at);
    }
}

proof fn lemma_quote(s: Seq<char>, from: int, end: int)
    requires
        0 <= from <= end < s.len(),
        s[end] == '"',
    ensures
        find_chars(s, "\""@, from) matches Some(p) && from <= p <= end && s[p] == '"' && forall|k:
            int|
            from <= k < p ==> #[trigger] s[k] != '"',
    decreases end - from,
{
    reveal_strlit("\"");
    assert(s.subrange(from, from + 1)[0] == s[from]);
    if s[from] == '"' {
        assert(s.subrange(from, from + 1) =~= "\""@);
    } else {
        assert(!chars_at(s, from, "\""@));
        lemma_quote(s, from + 1, end);
    }
}

proof fn lemma_kept(s: Seq<char>, needle: Seq<char>, from: int, found: Pairs<()>, name: Seq<char>)
    requires
        sorted(found),
        has_name(found, name),
    ensures
        sorted(rids_from(s, needle, from, found)),
        has_name(rids_from(s, needle, from, found), name),
    decreases s.len() - from,
{
    if let Some(i) = find_chars(s, needle, from) {
        let start = i + needle.len();
        if let Some(end) = find_chars(s, "\""@, start) {
            if from < end <= s.len() && start <= end {
                let value = s.subrange(start, end);
                lemma_inserted(found, value, ());
                let next = if is_rid(value) {
                    inserted(found, value, ())
                } else {
                    found
                };
                if name != value {
                    assert(lookup(inserted(found, value, ()), name) == lookup(found, name));
                }
                lemma_kept(s, needle, end, next, name);
            }
        }
    }
}

proof fn lemma_sorted_rids(s: Seq<char>, needle: Seq<char>, from: int, found: Pairs<()>)
    requires
        sorted(found),
    ensures
        sorted(rids_from(s, needle, from, found)),
    decreases s.len() - from,
{
    if let Some(i) = find_chars(s, needle, from) {
        let start = i + needle.len();
        if let Some(end) = find_chars(s, "\""@, start) {
            if from < end <= s.len() && start <= end {
                let value = s.subrange(start, end);
                lemma_inserted(found, value, ());
                let next = if is_rid(value) {
                    inserted(found, value, ())
                } else {
                    found
                };
                lemma_sorted_rids(s, needle, end, next);
            }
        }
    }
}

proof fn lemma_found_rid(
    s: Seq<char>,
    needle: Seq<char>,
    from: int,
    found: Pairs<()>,
    i: int,
    end: int,
)
    requires
        sorted(found),
        needle.len() > 0,
        values_are_apart(s, needle),
        0 <= from <= i,
        has_attribute(s, needle, i, end),
        is_rid(s.subrange((i + needle.len()) as int, end)),
    ensures
        sorted(rids_from(s, needle, from, found)),
        has_name(
            rids_from(s, needle, from, found),
            s.subrange((i + needle.len()) as int, end),
        ),
    decreases s.len() - from,
{
    assert(chars_at(s, i, needle));
    lemma_find_from(s, needle, from, i);
    let p = find_chars(s, needle, from)->0;
    let start = p + needle.len();
    if p < i {
        assert(start <= end);
    }
    lemma_quote(s, start, end);
    let q = find_chars(s, "\""@, start)->0;
    let value = s.subrange(start, q);
    lemma_inserted(found, value, ());
    let next = if is_rid(value) {
        inserted(found, value, ())
    } else {
        found
    };
    assert(has_attribute(s, needle, p, q));
    if p == i {
        assert(q == end) by {
            if q < end {
                assert(s[q] != '"');
            }
        }
        lemma_kept(s, needle, q, next, value);
    } else {
        assert(q <= i);
        lemma_found_rid(s, needle, q, next, i, end);
    }
}

/// The relationship ids that a text uses are those of its three attributes, if no value holds
/// another.
pub proof fn law_used_ids_are_found(s: Seq<char>, n: int, i: int, end: int)
    requires
        0 <= n < 3,
        values_are_apart(s, opener(n)),
        has_attribute(s, opener(n), i, end),
        is_rid(s.subrange((i + opener(n).len()) as int, end)),
    ensures
        has_name(used_rids(s), s.subrange((i + opener(n).len()) as int, end)),
{
    reveal_strlit("r:id=\"");
    reveal_strlit("r:embed=\"");
    reveal_strlit("r:link=\"");
    let none: Pairs<()> = Seq::empty();
    let a = rids_from(s, opener(0), 0, none);
    let b = rids_from(s, opener(1), 0, a);
    let value = s.subrange((i + opener(n).len()) as int, end);
    lemma_sorted_rids(s, opener(0), 0, none);
    lemma_sorted_rids(s, opener(1), 0, a);
    if n == 0 {
        lemma_found_rid(s, opener(0), 0, none, i, end);
        lemma_kept(s, opener(1), 0, a, value);
        lemma_kept(s, opener(2), 0, b, value);
    } else if n == 1 {
        lemma_found_rid(s, opener(1), 0, a, i, end);
        lemma_kept(s, opener(2), 0, b, value);
    } else {
        lemma_found_rid(s, opener(2), 0, b, i, end);
    }
}

/// What opens an attribute with a relationship id.
pub open spec fn opener(n: int) -> Seq<char> {
    if n == 0 {
        "r:id=\""@
    } else if n == 1 {
        "r:embed=\""@
    } else {
        "r:link=\""@
    }
}

/// In a document without issues every relationship id that is used stands in the relationships.
pub proof fn law_used_ids_are_there(parts: Parts, name: Seq<char>)
    requires
        check_lines(parts).issues.len() == 0,
        part(parts, PART_DOCUMENT@) is Some,
        has_name(used_rids(utf8_lossy(part(parts, PART_DOCUMENT@)->0)), name),
    ensures
        part(parts, PART_DOCUMENT_RELS@) is Some,
        contains_chars(
            utf8_lossy(part(parts, PART_DOCUMENT_RELS@)->0),
            "Id=\""@ + name + "\""@,
        ),
{
    let used = used_rids(utf8_lossy(part(parts, PART_DOCUMENT@)->0));
    lemma_key_index(used, name, 0);
    let k = key_index(used, name, 0)->0;
    let rels = match part(parts, PART_DOCUMENT_RELS@) {
        Some(d) => Some(utf8_lossy(d)),
        None => None,
    };
    assert(rid_lines(used, rels).issues.len() == 0);
    if let Some(text) = rels {
        lemma_all_with_id(used, text, k);
    }
}

proof fn lemma_all_with_id(names: Pairs<()>, rels: Seq<char>, k: int)
    requires
        without_id(names, rels).len() == 0,
        0 <= k < names.len(),
    ensures
        contains_chars(rels, "Id=\""@ + names[k].0 + "\""@),
    decreases names.len(),
{
    if k < names.len() - 1 {
        assert(names.drop_last()[k] == names[k]);
        lemma_all_with_id(names.drop_last(), rels, k);
    }
}

} // verus!
