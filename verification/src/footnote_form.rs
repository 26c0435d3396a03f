//! The form of a paragraph once a format has been applied to the number in it.

use vstd::prelude::*;
use vstd::utf8::*;

use crate::bytes::lit;
use crate::footnote_format::{
    event, find_rpr, is_separator_event, separator_payload, separator_run, spliced,
};
use crate::text::{is_white, law_white_only, trimmed};
use crate::wellformed::{
    depth_after, ends_in_text, is_block, is_element, lemma_append, lemma_empty_block,
    lemma_enclose, lemma_encoded_without_less, lemma_next, lemma_no_block, lemma_part_next,
    lemma_part_start, lemma_plain_scan, lemma_prefix, lemma_push, lemma_quoted_scan, open_names,
    part_of_element, well_formed,
};
use crate::xml::{attr_bytes, is_end, is_start, name_end, tag_name, Ev, EventKind};

verus! {

/// Well-formed events in which every element is closed.
pub open spec fn is_closed(events: Seq<Ev>) -> bool {
    well_formed(events) && open_names(events) == Some(Seq::<Seq<u8>>::empty())
}

/// The same events behind two beginnings with the same open elements.
proof fn lemma_behind(p: Seq<Ev>, q: Seq<Ev>, c: Seq<Ev>, n: int)
    requires
        well_formed(p + c),
        well_formed(q),
        open_names(p) == open_names(q),
        ends_in_text(q) && c.len() > 0 ==> c[0].kind != EventKind::Text,
        0 <= n <= c.len(),
    ensures
        well_formed(q + c.take(n)),
        open_names(q + c.take(n)) == open_names(p + c.take(n)),
    decreases n,
{
    if n == 0 {
        assert(q + c.take(0) =~= q);
        assert(p + c.take(0) =~= p);
    } else {
        lemma_behind(p, q, c, n - 1);
        let all = p + c;
        let i = p.len() + n - 1;
        lemma_next(all, i);
        assert(all.take(i) =~= p + c.take(n - 1));
        assert(all.take(i + 1) =~= p + c.take(n));
        let e = c[n - 1];
        assert(all[i] == e);
        let before = q + c.take(n - 1);
        if e.kind == EventKind::Text {
            if n > 1 {
                assert(before.last() == c[n - 2]);
                assert(all.take(i).last() == c[n - 2]);
            } else {
                assert(before =~= q);
            }
        }
        lemma_push(before, e);
        assert(q + c.take(n) =~= before.push(e));
    }
}

/// Closed events replaced by others.
pub proof fn lemma_replace(a: Seq<Ev>, m: Seq<Ev>, new: Seq<Ev>, c: Seq<Ev>)
    requires
        well_formed(a + m + c),
        is_closed(m),
        is_closed(new),
        ends_in_text(a) && new.len() > 0 ==> new[0].kind != EventKind::Text,
        ends_in_text(a + new) && c.len() > 0 ==> c[0].kind != EventKind::Text,
    ensures
        well_formed(a + new + c),
        open_names(a + new + c) == open_names(a + m + c),
{
    let all = a + m + c;
    lemma_prefix(all, a.len() as int);
    assert(all.take(a.len() as int) =~= a);
    assert(ends_in_text(a) && m.len() > 0 ==> m[0].kind != EventKind::Text) by {
        reveal(well_formed);
        if a.len() > 0 && m.len() > 0 {
            let i = a.len() - 1;
            assert(all[i] == a.last());
            assert(all[i + 1] == m[0]);
        }
    }
    lemma_append(a, m, m.len() as int);
    lemma_append(a, new, new.len() as int);
    assert(m.take(m.len() as int) =~= m);
    assert(new.take(new.len() as int) =~= new);
    lemma_behind(a + m, a + new, c, c.len() as int);
    assert(c.take(c.len() as int) =~= c);
}

/// Whole elements put in somewhere.
pub proof fn lemma_insert(events: Seq<Ev>, i: int, block: Seq<Ev>)
    requires
        well_formed(events),
        0 <= i <= events.len(),
        is_block(block),
        block.len() > 0,
    ensures
        well_formed(spliced(events, i, i, block)),
        open_names(spliced(events, i, i, block)) == open_names(events),
{
    let none = Seq::<Ev>::empty();
    lemma_no_block();
    let a = events.take(i);
    let c = events.skip(i);
    assert(a + none + c =~= events);
    assert((a + block).last() == block.last());
    lemma_replace(a, none, block, c);
}

// ---------------------------------------------------------------------------
// Properties
// ---------------------------------------------------------------------------

/// The outermost open element is the one that comes first.
proof fn lemma_first_name(events: Seq<Ev>, n: int)
    requires
        well_formed(events),
        events.len() > 0,
        events[0].kind == EventKind::Start,
        forall|i: int| 0 < i <= events.len() ==> (#[trigger] open_names(events.take(i)))->0.len()
            > 0,
        0 < n <= events.len(),
    ensures
        open_names(events.take(n))->0[0] == tag_name(events[0]),
    decreases n,
{
    lemma_next(events, n - 1);
    assert(open_names(events.take(n))->0.len() > 0);
    if n == 1 {
        assert(events.take(0) =~= Seq::empty());
    } else {
        lemma_first_name(events, n - 1);
    }
}

/// Properties are found as whole elements, and the first are found.
pub proof fn lemma_find_element(
    events: Seq<Ev>,
    i: int,
    end: int,
    start: Option<int>,
    depth: int,
)
    requires
        well_formed(events),
        0 <= i,
        end <= events.len(),
        start is None ==> depth == 0,
        start matches Some(a) ==> 0 <= a < i <= events.len() && depth >= 1 && part_of_element(
            events.subrange(a, i),
            depth,
            "w:rPr",
            events.take(i),
        ),
    ensures
        find_rpr(events, i, end, start, depth) matches Some((a, b)) ==> {
            &&& a < b < end
            &&& is_element(events.subrange(a, b + 1), "w:rPr")
            &&& start matches Some(from) ==> a == from
            &&& start is None ==> i <= a && forall|k: int|
                i <= k < a ==> !is_start(#[trigger] events[k], "w:rPr")
        },
    decreases end - i,
{
    if i < end {
        lemma_next(events, i);
        let e = events[i];
        let before = events.take(i);
        assert(events.take(i + 1) == before.push(e));
        match start {
            None => {
                if is_start(e, "w:rPr") {
                    lemma_part_start("w:rPr", before, e);
                    assert(events.subrange(i, i + 1) =~= seq![e]);
                    lemma_find_element(events, i + 1, end, Some(i), 1);
                } else {
                    lemma_find_element(events, i + 1, end, None, 0);
                }
            },
            Some(a) => {
                let seg = events.subrange(a, i);
                lemma_part_next(seg, depth, "w:rPr", before, e);
                assert(events.subrange(a, i + 1) =~= seg.push(e));
                if e.kind == EventKind::End && depth == 1 {
                    assert forall|k: int| 0 < k <= seg.len() implies (#[trigger] open_names(
                        seg.take(k),
                    ))->0.len() > 0 by {
                        if k == seg.len() {
                            assert(seg.take(k) =~= seg);
                        }
                    }
                    lemma_first_name(seg, seg.len() as int);
                    assert(seg.take(seg.len() as int) =~= seg);
                    let names = open_names(before)->0;
                    assert(names.skip(names.len() - 1)[0] == names.last());
                    assert(is_end(e, "w:rPr"));
                } else {
                    lemma_find_element(events, i + 1, end, start, depth_after(depth, e));
                }
            },
        }
    }
}

// ---------------------------------------------------------------------------
// Separators
// ---------------------------------------------------------------------------

/// The contents of a run, whose names are apart from those of runs.
proof fn lemma_inside(events: Seq<Ev>, from: int, n: int)
    requires
        well_formed(events),
        0 < from,
        from + n <= events.len(),
        0 <= n,
        is_start(events[from - 1], "w:r"),
        forall|k: int|
            from <= k < from + n ==> !is_start(#[trigger] events[k], "w:r") && !is_end(
                events[k],
                "w:r",
            ),
    ensures
        ({
            let sub = events.subrange(from, from + n);
            let names = open_names(sub)->0;
            &&& well_formed(sub)
            &&& open_names(events.take(from + n))->0 == open_names(events.take(from))->0 + names
            &&& forall|k: int| 0 <= k < names.len() ==> #[trigger] names[k] != lit("w:r")
            &&& open_names(events.take(from))->0.len() > 0
            &&& open_names(events.take(from))->0.last() == lit("w:r")
        }),
    decreases n,
{
    let sub = events.subrange(from, from + n);
    lemma_next(events, from - 1);
    let outer = open_names(events.take(from))->0;
    if n == 0 {
        lemma_no_block();
        assert(sub =~= Seq::empty());
        assert(outer + Seq::<Seq<u8>>::empty() =~= outer);
    } else {
        lemma_inside(events, from, n - 1);
        let less = events.subrange(from, from + n - 1);
        let e = events[from + n - 1];
        lemma_next(events, from + n - 1);
        let names = open_names(less)->0;
        let all = open_names(events.take(from + n - 1))->0;
        assert(sub =~= less.push(e));
        if e.kind == EventKind::End {
            if names.len() == 0 {
                assert(all =~= outer);
            }
            assert(all.last() == names.last());
            assert(all.drop_last() =~= outer + names.drop_last());
        }
        if e.kind == EventKind::Start {
            assert(all.push(tag_name(e)) =~= outer + names.push(tag_name(e)));
        }
        if e.kind == EventKind::Text && less.len() > 0 {
            assert(less.last() == events.take(from + n - 1).last());
        }
        lemma_push(less, e);
    }
}

/// The contents of a run are closed.
pub proof fn lemma_run_inside(events: Seq<Ev>, start: int, end: int)
    requires
        well_formed(events),
        0 <= start < end < events.len(),
        is_start(events[start], "w:r"),
        is_end(events[end], "w:r"),
        forall|k: int|
            start < k < end ==> !is_start(#[trigger] events[k], "w:r") && !is_end(
                events[k],
                "w:r",
            ),
    ensures
        is_closed(events.subrange(start + 1, end)),
{
    lemma_inside(events, start + 1, end - start - 1);
    lemma_next(events, end);
    let names = open_names(events.subrange(start + 1, end))->0;
    let all = open_names(events.take(end))->0;
    if names.len() > 0 {
        assert(all.last() == names.last());
        assert(names[names.len() - 1] != lit("w:r"));
    }
    assert(names =~= Seq::empty());
    reveal(well_formed);
}

/// A name that stays when the events of a separator are taken out.
spec fn stays(name: Seq<u8>) -> bool {
    name != lit("w:t") && name != lit("w:tab")
}

/// Without the events of a separator, what is left is as closed as it was.
proof fn lemma_without(events: Seq<Ev>, n: int)
    requires
        well_formed(events),
        0 <= n <= events.len(),
    ensures
        ({
            let bare = events.take(n).filter(|e: Ev| !is_separator_event(e));
            &&& well_formed(bare)
            &&& open_names(bare)->0 == open_names(events.take(n))->0.filter(
                |x: Seq<u8>| stays(x),
            )
            &&& forall|i: int| 0 <= i < bare.len() ==> (#[trigger] bare[i]).kind != EventKind::Text
        }),
    decreases n,
{
    reveal(Seq::filter);
    let keep = |e: Ev| !is_separator_event(e);
    let left = |x: Seq<u8>| stays(x);
    let now = events.take(n);
    if n == 0 {
        lemma_no_block();
        assert(now =~= Seq::empty());
        assert(now.filter(keep) =~= Seq::empty());
        assert(Seq::<Seq<u8>>::empty().filter(left) =~= Seq::empty());
    } else {
        lemma_without(events, n - 1);
        lemma_next(events, n - 1);
        let before = events.take(n - 1);
        let e = events[n - 1];
        assert(now.drop_last() =~= before);
        let bare = before.filter(keep);
        let names = open_names(before)->0;
        if e.kind == EventKind::Start {
            assert(names.push(tag_name(e)).drop_last() =~= names);
        }
        if e.kind == EventKind::End {
            let kept = names.drop_last().filter(left);
            if stays(e.raw) {
                assert(names.filter(left) =~= kept.push(e.raw));
                assert(kept.push(e.raw).drop_last() =~= kept);
            }
        }
        if keep(e) {
            lemma_push(bare, e);
            assert(now.filter(keep) =~= bare.push(e));
        }
    }
}

/// The contents of a run without a separator.
pub proof fn lemma_bare_closed(inner: Seq<Ev>)
    requires
        is_closed(inner),
    ensures
        is_closed(inner.filter(|e: Ev| !is_separator_event(e))),
        !ends_in_text(inner.filter(|e: Ev| !is_separator_event(e))),
        ({
            let bare = inner.filter(|e: Ev| !is_separator_event(e));
            bare.len() > 0 ==> bare[0].kind != EventKind::Text
        }),
{
    let n = inner.len() as int;
    lemma_without(inner, n);
    assert(inner.take(n) =~= inner);
    reveal(Seq::filter);
    assert(Seq::<Seq<u8>>::empty().filter(|x: Seq<u8>| stays(x)) =~= Seq::empty());
    let bare = inner.filter(|e: Ev| !is_separator_event(e));
    if bare.len() > 0 {
        assert(bare[bare.len() - 1].kind != EventKind::Text);
    }
    reveal(well_formed);
}

/// What makes a run a separator is a whole element.
pub proof fn lemma_separator_block(text: Seq<char>)
    requires
        trimmed(text).len() == 0,
        text.len() > 0,
    ensures
        is_block(separator_payload(text)),
        separator_payload(text).len() > 0,
{
    let sep = separator_payload(text);
    let none = Seq::<u8>::empty();
    let name = lit("w:t");
    let tab = lit("w:tab");
    let more = attr_bytes(lit("xml:space"), lit("preserve"));
    reveal_strlit("w:t");
    reveal_strlit("w:tab");
    reveal_strlit(" ");
    reveal_strlit("xml:space");
    reveal_strlit("=\"");
    reveal_strlit("preserve");
    reveal_strlit("\"");
    is_ascii_chars_encode_utf8("w:t"@);
    is_ascii_chars_encode_utf8("w:tab"@);
    is_ascii_chars_encode_utf8(" "@);
    is_ascii_chars_encode_utf8("xml:space"@);
    is_ascii_chars_encode_utf8("=\""@);
    is_ascii_chars_encode_utf8("preserve"@);
    is_ascii_chars_encode_utf8("\""@);
    lemma_plain_scan(none, name);
    lemma_plain_scan(none, tab);
    assert(none + name =~= name);
    assert(none + tab =~= tab);
    reveal_with_fuel(name_end, 7);
    if text == "\t"@ {
        lemma_empty_block(sep[0]);
        assert(sep =~= seq![sep[0]]);
    } else {
        lemma_plain_scan(name, more.take(11));
        lemma_quoted_scan(name + more.take(11), 0x22, more.subrange(12, 20));
        let raw = name + more;
        assert(raw =~= ((name + more.take(11)).push(0x22) + more.subrange(12, 20)).push(0x22));
        assert(raw.last() == 0x22);
        assert(raw[3] == 0x20);
        assert(raw.take(3) =~= name);
        assert(name.take(3) =~= name);
        assert(!text.contains('<')) by {
            law_white_only(text);
            if text.contains('<') {
                let i = choose|i: int| 0 <= i < text.len() && text[i] == '<';
                assert(is_white(text[i]));
            }
        }
        lemma_encoded_without_less(text);
        lemma_enclose(sep[0], seq![sep[1]], sep[2]);
        assert(sep =~= seq![sep[0]] + seq![sep[1]] + seq![sep[2]]);
    }
}

/// A run that is a separator is a whole element.
pub proof fn lemma_separator_run_block(text: Seq<char>)
    requires
        trimmed(text).len() == 0,
        text.len() > 0,
    ensures
        is_block(separator_run(text)),
        separator_run(text).len() > 0,
{
    let none = Seq::<u8>::empty();
    let name = lit("w:r");
    reveal_strlit("w:r");
    is_ascii_chars_encode_utf8("w:r"@);
    lemma_plain_scan(none, name);
    assert(none + name =~= name);
    reveal_with_fuel(name_end, 5);
    assert(name.take(3) =~= name);
    lemma_separator_block(text);
    lemma_enclose(
        event(EventKind::Start, name),
        separator_payload(text),
        event(EventKind::End, name),
    );
}

} // verus!
