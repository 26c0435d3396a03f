//! Sequences of nested events, in which texts may stand side by side: what is left of a
//! document once tags have been taken out, and what is read where it has been written.

use vstd::prelude::*;

use crate::wellformed::{
    all_tokens, ends_in_text, is_token, lemma_emitted_push, lemma_next, lemma_no_block, lemma_push,
    open_names, well_formed,
};
use crate::xml::{emitted, emitted_all, tag_name, Ev, EventKind};

verus! {

/// Every event is read as one, and every end tag closes the innermost open element.
pub open spec fn nested(events: Seq<Ev>) -> bool {
    all_tokens(events) && open_names(events) is Some
}

/// The open elements after one more event.
pub open spec fn names_after(names: Seq<Seq<u8>>, e: Ev) -> Option<Seq<Seq<u8>>> {
    match e.kind {
        EventKind::Start => Some(names.push(tag_name(e))),
        EventKind::End => if names.len() > 0 && names.last() == e.raw {
            Some(names.drop_last())
        } else {
            None
        },
        _ => Some(names),
    }
}

/// Nested events with one more event.
pub proof fn lemma_nested_push(events: Seq<Ev>, e: Ev)
    requires
        nested(events),
        is_token(e),
        names_after(open_names(events)->0, e) is Some,
    ensures
        nested(events.push(e)),
        open_names(events.push(e)) == names_after(open_names(events)->0, e),
{
    let after = events.push(e);
    assert(after.drop_last() =~= events);
    assert forall|i: int| 0 <= i < after.len() implies is_token(#[trigger] after[i]) by {
        if i < events.len() {
            assert(after[i] == events[i]);
        }
    }
}

/// The next event of a well-formed sequence.
pub proof fn lemma_nested_next(events: Seq<Ev>, n: int)
    requires
        well_formed(events),
        0 <= n < events.len(),
    ensures
        events.take(n + 1) == events.take(n).push(events[n]),
        is_token(events[n]),
        open_names(events.take(n)) is Some,
        open_names(events.take(n + 1)) is Some,
        names_after(open_names(events.take(n))->0, events[n]) == open_names(events.take(n + 1)),
{
    reveal(well_formed);
    lemma_next(events, n);
}

/// Nothing is nested.
pub proof fn lemma_nested_none()
    ensures
        nested(Seq::<Ev>::empty()),
        open_names(Seq::<Ev>::empty()) == Some(Seq::<Seq<u8>>::empty()),
{
}

/// Texts that stand side by side as one.
pub open spec fn joined_step(s: Seq<Ev>, e: Ev) -> Seq<Ev> {
    if e.kind == EventKind::Text && ends_in_text(s) {
        s.drop_last().push(Ev { kind: EventKind::Text, raw: s.last().raw + e.raw })
    } else {
        s.push(e)
    }
}

/// The events with texts that stand side by side as one.
pub open spec fn joined(events: Seq<Ev>) -> Seq<Ev>
    decreases events.len(),
{
    if events.len() == 0 {
        Seq::empty()
    } else {
        joined_step(joined(events.drop_last()), events.last())
    }
}

/// Nested events, their texts joined, are well-formed and are written as they were. The
/// first event is the first of the events where no two texts come first.
pub proof fn lemma_joined(events: Seq<Ev>)
    requires
        nested(events),
    ensures
        well_formed(joined(events)),
        open_names(joined(events)) == open_names(events),
        emitted_all(joined(events)) == emitted_all(events),
        (joined(events).len() == 0) == (events.len() == 0),
        events.len() > 0 ==> joined(events)[0].kind == events[0].kind,
        events.len() > 0 && !(events.len() > 1 && events[0].kind == EventKind::Text
            && events[1].kind == EventKind::Text) ==> joined(events)[0] == events[0] && (
        events.len() > 1 && events[0].kind == EventKind::Text ==> joined(events).len() > 1),
    decreases events.len(),
{
    if events.len() == 0 {
        lemma_no_block();
    } else {
        let init = events.drop_last();
        let e = events.last();
        assert(all_tokens(init)) by {
            assert forall|i: int| 0 <= i < init.len() implies is_token(#[trigger] init[i]) by {
                assert(events[i] == init[i]);
            }
        }
        assert(is_token(events[events.len() - 1]));
        lemma_joined(init);
        let before = joined(init);
        if e.kind == EventKind::Text && ends_in_text(before) {
            let n = before.len() - 1;
            let short = before.take(n);
            lemma_next(before, n);
            assert(before.take(n + 1) =~= before);
            assert(before.drop_last() =~= short);
            let last = before.last();
            let text = Ev { kind: EventKind::Text, raw: last.raw + e.raw };
            assert(is_token(text)) by {
                if text.raw.contains(0x3c) {
                    let k = choose|k: int| 0 <= k < text.raw.len() && text.raw[k] == 0x3c;
                    if k < last.raw.len() {
                        assert(last.raw[k] == 0x3c);
                    } else {
                        assert(e.raw[k - last.raw.len()] == 0x3c);
                    }
                }
            }
            lemma_push(short, text);
            lemma_push(short, last);
            lemma_emitted_push(short, last);
            lemma_emitted_push(short, text);
            assert(emitted_all(joined(events)) =~= emitted_all(init) + emitted(e));
            if n > 0 {
                assert(joined(events)[0] == before[0]);
            }
            if init.len() == 1 {
                assert(before[0].kind == EventKind::Text);
            }
        } else {
            lemma_push(before, e);
            lemma_emitted_push(before, e);
            assert(joined(events) =~= before.push(e));
            if init.len() > 0 {
                assert(joined(events)[0] == before[0]);
            }
        }
    }
}

} // verus!
