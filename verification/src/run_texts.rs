//! The texts of the runs of a paragraph against its visible text.

use vstd::prelude::*;
use vstd::utf8::*;

use crate::bytes::lit;
use crate::error::Error;
use crate::joined::{lemma_nested_next, names_after};
use crate::ns::PART_DOCUMENT;
use crate::package::{part, Parts};
use crate::paragraph_runs::{
    event_text, extract_in_run, extract_state, extract_step, joined_text,
    paragraphs_extracted, paragraphs_view, ExtractView, ParagraphInfo, ParagraphView,
};
use crate::paragraph_text::{
    texts_extracted, texts_state, texts_step, texts_view, TextsView,
};
use crate::wellformed::{
    count_name, depth_after, lemma_count_name, lemma_first_counts, open_names, paragraphs_open,
    well_formed,
};
use crate::xml::{is_empty_tag, is_end, is_start, tag_name, xml_events, Ev, EventKind};

verus! {

/// The text of each paragraph, put together from its runs.
pub open spec fn texts_of_runs(paragraphs: Seq<ParagraphView>) -> Seq<Seq<char>> {
    paragraphs.map_values(|p: ParagraphView| joined_text(p.runs))
}

/// An event that counts as text in a paragraph whose extraction has come to `s`.
pub open spec fn is_text(s: ExtractView, e: Ev) -> bool {
    is_start(e, "w:t") || is_end(e, "w:t") || is_empty_tag(e, "w:tab") || is_empty_tag(e, "w:br")
        || (e.kind == EventKind::Text && s.in_text)
}

/// In a body paragraph, outside its properties, text stands in runs and not in the
/// properties of a run.
pub open spec fn is_in_place(s: ExtractView, e: Ev) -> bool {
    s.paragraph is Some && s.ppr_depth < 1 && is_text(s, e) ==> s.in_run && s.rpr_depth < 1
}

/// Every event is in its place.
pub open spec fn texts_stand_in_runs(events: Seq<Ev>) -> bool {
    forall|i: int|
        0 <= i < events.len() ==> is_in_place(extract_state(events.take(i)), #[trigger] events[i])
}

/// How many of the names are not `w:t`.
spec fn count_others(names: Seq<Seq<u8>>) -> int {
    names.len() - count_name(names, lit("w:t"))
}

/// Where the outermost open paragraph and the outermost open run stand among the open
/// elements.
struct Spots {
    paragraph: int,
    run: int,
}

spec fn spots(events: Seq<Ev>) -> Spots
    decreases events.len(),
{
    if events.len() == 0 {
        Spots { paragraph: 0, run: 0 }
    } else {
        let before = events.drop_last();
        let s = extract_state(before);
        let at = open_names(before)->0.len() as int;
        let e = events.last();
        Spots {
            paragraph: if s.paragraph is None {
                at
            } else {
                spots(before).paragraph
            },
            run: if !s.in_run {
                at
            } else {
                spots(before).run
            },
        }
    }
}

/// The run that is being read among the open elements.
spec fn run_placed(s: ExtractView, names: Seq<Seq<u8>>, at: Spots) -> bool {
    let there = names.take(names.len() - s.rpr_depth);
    let inner = there.skip(at.run);
    &&& at.paragraph < at.run < names.len() - s.rpr_depth
    &&& s.rpr_depth >= 0
    &&& names[at.run] == lit("w:r")
    &&& s.run_depth == count_others(inner)
    &&& s.in_text ==> count_name(inner, lit("w:t")) >= 1
}

/// The paragraph that is being read among the open elements.
spec fn placed(s: ExtractView, names: Seq<Seq<u8>>, at: Spots) -> bool {
    s.paragraph is Some ==> {
        &&& 0 <= at.paragraph < names.len()
        &&& names[at.paragraph] == lit("w:p")
        &&& s.nested == count_name(names.skip(at.paragraph + 1), lit("w:p"))
        &&& s.rpr_depth >= 0
        &&& s.ppr_depth >= 1 ==> !s.in_run
        &&& !s.in_run ==> s.rpr_depth == 0 && !s.in_text
        &&& s.in_run ==> run_placed(s, names, at)
    }
}

proof fn lemma_names()
    ensures
        lit("w:p") != lit("w:r"),
        lit("w:p") != lit("w:t"),
        lit("w:r") != lit("w:t"),
        lit("w:r") != lit("w:rPr"),
        lit("w:t") != lit("w:rPr"),
        lit("w:p") != lit("w:rPr"),
        lit("w:p") != lit("w:pPr"),
        lit("w:t") != lit("w:pPr"),
        lit("w:r") != lit("w:pPr"),
        lit("w:tab") != lit("w:footnoteReference"),
        lit("w:br") != lit("w:footnoteReference"),
        lit("w:tab") != lit("w:br"),
        lit("w:tab") != lit("w:pPr"),
        lit("w:br") != lit("w:pPr"),
        lit("w:tab") != lit("w:rPr"),
        lit("w:br") != lit("w:rPr"),
{
    reveal_strlit("w:p");
    reveal_strlit("w:r");
    reveal_strlit("w:t");
    reveal_strlit("w:rPr");
    reveal_strlit("w:pPr");
    reveal_strlit("w:tab");
    reveal_strlit("w:br");
    reveal_strlit("w:footnoteReference");
    is_ascii_chars_encode_utf8("w:p"@);
    is_ascii_chars_encode_utf8("w:r"@);
    is_ascii_chars_encode_utf8("w:t"@);
    is_ascii_chars_encode_utf8("w:rPr"@);
    is_ascii_chars_encode_utf8("w:pPr"@);
    is_ascii_chars_encode_utf8("w:tab"@);
    is_ascii_chars_encode_utf8("w:br"@);
    is_ascii_chars_encode_utf8("w:footnoteReference"@);
    assert(lit("w:p")[2] != lit("w:r")[2]);
    assert(lit("w:p")[2] != lit("w:t")[2]);
    assert(lit("w:r")[2] != lit("w:t")[2]);
    assert(lit("w:tab")[2] != lit("w:br")[2]);
    assert(lit("w:tab")[2] != lit("w:pPr")[2]);
    assert(lit("w:tab")[2] != lit("w:rPr")[2]);
    assert(lit("w:br")[2] != lit("w:rPr")[2]);
    assert(lit("w:br")[2] != lit("w:pPr")[2]);
    assert(lit("w:r").len() == 3 && lit("w:rPr").len() == 5);
    assert(lit("w:p").len() == 3 && lit("w:pPr").len() == 5);
    assert(lit("w:t").len() == 3);
    assert(lit("w:tab").len() == 5 && lit("w:br").len() == 4);
    assert(lit("w:footnoteReference").len() == 19);
}

/// The names behind some place after one more event that does not close what stands there.
proof fn lemma_behind(names: Seq<Seq<u8>>, k: int, name: Seq<u8>, e: Ev)
    requires
        0 <= k <= names.len(),
        names_after(names, e) is Some,
        e.kind == EventKind::End ==> k < names.len(),
    ensures
        ({
            let after = names_after(names, e)->0;
            let n = count_name(names.skip(k), name);
            &&& after.len() == depth_after(names.len() as int, e)
            &&& after.len() >= k
            &&& after.take(k) == names.take(k)
            &&& after.skip(k).len() == depth_after(names.len() - k, e)
            &&& count_name(after.skip(k), name) == (match e.kind {
                EventKind::Start => if tag_name(e) == name {
                    n + 1
                } else {
                    n
                },
                EventKind::End => if tag_name(e) == name {
                    n - 1
                } else {
                    n
                },
                _ => n,
            })
        }),
{
    let after = names_after(names, e)->0;
    assert(after.take(k) =~= names.take(k));
    match e.kind {
        EventKind::Start => {
            assert(after.skip(k) =~= names.skip(k).push(tag_name(e)));
            assert(names.skip(k).push(tag_name(e)).drop_last() =~= names.skip(k));
        },
        EventKind::End => {
            assert(after.skip(k) =~= names.skip(k).drop_last());
            assert(names.skip(k).last() == names.last());
        },
        _ => {},
    }
}

/// The spots after one more event.
spec fn next_spots(s: ExtractView, names: Seq<Seq<u8>>, at: Spots) -> Spots {
    Spots {
        paragraph: if s.paragraph is None {
            names.len() as int
        } else {
            at.paragraph
        },
        run: if !s.in_run {
            names.len() as int
        } else {
            at.run
        },
    }
}

proof fn lemma_one_other(names: Seq<Seq<u8>>)
    requires
        names.len() == 1,
        names[0] == lit("w:r"),
    ensures
        count_others(names) == 1,
{
    lemma_names();
    assert(names.drop_last() =~= Seq::empty());
    reveal_with_fuel(count_name, 2);
}

/// One more event in a run, outside its properties.
#[verifier::rlimit(60)]
proof fn lemma_in_run_placed(s: ExtractView, names: Seq<Seq<u8>>, at: Spots, e: Ev)
    requires
        run_placed(s, names, at),
        s.rpr_depth == 0,
        names_after(names, e) is Some,
        !(s.run_depth == 1 && is_end(e, "w:r")),
        0 <= at.paragraph,
    ensures
        run_placed(extract_in_run(s, e), names_after(names, e)->0, at),
        extract_in_run(s, e).rpr_depth == 0,
{
    assert(lit("w:r") != lit("w:t")) by {
        lemma_names();
    }
    let after = names_after(names, e)->0;
    let k = at.run;
    let t = extract_in_run(s, e);
    assert(t.rpr_depth == 0);
    assert(names.take(names.len() - s.rpr_depth) =~= names);
    assert(after.take(after.len() - t.rpr_depth) =~= after);
    assert(names.skip(k)[0] == names[k]);
    if e.kind == EventKind::End && names.len() == k + 1 {
        assert(names.last() == names[k]);
        lemma_one_other(names.skip(k));
    }
    lemma_behind(names, k, lit("w:t"), e);
    lemma_behind(names, k + 1, lit("w:t"), e);
    assert(after.take(k + 1)[k] == names.take(k + 1)[k]);
    lemma_count_name(names.skip(k), lit("w:t"));
}

/// The end tag of the run closes it, and all text in it has been closed.
proof fn lemma_run_ends(s: ExtractView, names: Seq<Seq<u8>>, at: Spots, e: Ev)
    requires
        run_placed(s, names, at),
        s.rpr_depth == 0,
        names_after(names, e) is Some,
        s.run_depth == 1,
        is_end(e, "w:r"),
        0 <= at.paragraph,
    ensures
        !s.in_text,
        names.len() == at.run + 1,
{
    lemma_names();
    let k = at.run;
    assert(names.take(names.len() as int) =~= names);
    let inner = names.skip(k);
    assert(inner[0] == names[k]);
    if inner.len() > 1 {
        assert(inner.last() == names.last());
        lemma_others(inner);
    } else {
        assert(inner.drop_last() =~= Seq::empty());
        reveal_with_fuel(count_name, 2);
    }
}

/// Where the first and the last name are not `w:t`, there are two such names.
proof fn lemma_others(names: Seq<Seq<u8>>)
    requires
        names.len() > 0,
        names[0] == lit("w:r"),
    ensures
        count_others(names) >= 1,
        names.len() > 1 && names.last() == lit("w:r") ==> count_others(names) >= 2,
    decreases names.len(),
{
    lemma_names();
    if names.len() > 1 {
        assert(names.drop_last()[0] == names[0]);
        lemma_others(names.drop_last());
    } else {
        assert(names.drop_last() =~= Seq::empty());
        reveal_with_fuel(count_name, 2);
    }
}

/// One more event keeps the places.
#[verifier::rlimit(60)]
proof fn lemma_placed(s: ExtractView, names: Seq<Seq<u8>>, at: Spots, e: Ev)
    requires
        placed(s, names, at),
        names_after(names, e) is Some,
    ensures
        placed(extract_step(s, e), names_after(names, e)->0, next_spots(s, names, at)),
        s.paragraph is Some && is_end(e, "w:p") && s.nested == 0 ==> !s.in_run,
{
    lemma_names();
    let after = names_after(names, e)->0;
    let t = extract_step(s, e);
    if s.paragraph is None {
        if is_start(e, "w:p") {
            assert(after.skip(names.len() as int + 1) =~= Seq::empty());
        }
    } else {
        let q = at.paragraph;
        assert(names.skip(q)[0] == names[q]);
        if is_end(e, "w:p") && s.nested == 0 {
            if s.in_run {
                let inner = names.skip(q + 1);
                assert(inner.last() == names.last());
                lemma_count_name(inner.drop_last(), lit("w:p"));
            }
        } else {
            if e.kind == EventKind::End && names.len() == q + 1 {
                assert(names.last() == names[q]);
                assert(names.skip(q + 1) =~= Seq::empty());
            }
            lemma_behind(names, q + 1, lit("w:p"), e);
            assert(after.take(q + 1)[q] == names.take(q + 1)[q]);
            let k = at.run;
            let there = names.take(names.len() - s.rpr_depth);
            if s.ppr_depth >= 1 {
            } else if s.rpr_depth >= 1 {
                assert(after.take(after.len() - t.rpr_depth) =~= there);
            } else if s.in_run {
                if s.run_depth == 1 && is_end(e, "w:r") {
                    lemma_run_ends(s, names, at, e);
                } else if s.run_depth == 1 && is_start(e, "w:rPr") {
                    assert(after.take(after.len() - t.rpr_depth) =~= there);
                } else if s.run_depth == 1 && is_empty_tag(e, "w:rPr") {
                } else {
                    lemma_in_run_placed(
                        ExtractView { nested: paragraphs_open(s.nested, e), ..s },
                        names,
                        at,
                        e,
                    );
                }
            } else if is_start(e, "w:r") {
                assert(after.take(after.len() as int) =~= after);
                assert(after.skip(names.len() as int) =~= seq![lit("w:r")]);
                assert(seq![lit("w:r")].drop_last() =~= Seq::empty());
                reveal_with_fuel(count_name, 2);
            }
        }
    }
}

/// The two extractions have come to the same texts.
spec fn agree(s: ExtractView, t: TextsView, names: Seq<Seq<u8>>, at: Spots) -> bool {
    &&& t.done == texts_of_runs(s.done)
    &&& match s.paragraph {
        None => t.depth == 0,
        Some(p) => {
            &&& t.depth == s.nested + 1
            &&& t.ppr_depth == s.ppr_depth
            &&& t.in_text == s.in_text
            &&& t.runs == (if s.in_run {
                count_name(names.skip(at.run), lit("w:r"))
            } else {
                0
            })
            &&& t.current == joined_text(p.runs) + (if s.in_run {
                s.run.text
            } else {
                Seq::empty()
            })
        },
    }
}

/// The open runs behind the outermost after one more event.
proof fn lemma_runs_follow(s: ExtractView, names: Seq<Seq<u8>>, at: Spots, e: Ev)
    requires
        run_placed(s, names, at),
        0 <= at.paragraph,
        names_after(names, e) is Some,
    ensures
        ({
            let n = count_name(names.skip(at.run), lit("w:r"));
            let after = names_after(names, e)->0;
            &&& n >= 1
            &&& after.len() >= at.run
            &&& count_name(after.skip(at.run), lit("w:r")) == (if is_start(e, "w:r") {
                n + 1
            } else if is_end(e, "w:r") {
                n - 1
            } else {
                n
            })
        }),
{
    lemma_behind(names, at.run, lit("w:r"), e);
    assert(names.skip(at.run)[0] == names[at.run]);
    lemma_first_counts(names.skip(at.run), lit("w:r"));
}

/// One more event keeps the texts the same.
#[verifier::rlimit(60)]
proof fn lemma_agree(s: ExtractView, t: TextsView, names: Seq<Seq<u8>>, at: Spots, e: Ev)
    requires
        agree(s, t, names, at),
        placed(s, names, at),
        names_after(names, e) is Some,
        is_in_place(s, e),
    ensures
        agree(
            extract_step(s, e),
            texts_step(t, e),
            names_after(names, e)->0,
            next_spots(s, names, at),
        ),
{
    lemma_names();
    lemma_placed(s, names, at, e);
    let s2 = extract_step(s, e);
    let t2 = texts_step(t, e);
    match s.paragraph {
        None => {
            let blank = joined_text(Seq::empty());
            assert(blank + Seq::<char>::empty() =~= Seq::<char>::empty());
            if is_empty_tag(e, "w:p") && !is_start(e, "w:p") {
                assert(texts_of_runs(s2.done) =~= texts_of_runs(s.done).push(Seq::empty()));
            }
        },
        Some(p) => {
            lemma_count_name(names.skip(at.paragraph + 1), lit("w:p"));
            if is_end(e, "w:p") && s.nested == 0 {
                assert(joined_text(p.runs) + Seq::<char>::empty() =~= joined_text(p.runs));
                assert(texts_of_runs(s2.done) =~= texts_of_runs(s.done).push(joined_text(p.runs)));
            } else if s.ppr_depth >= 1 {
            } else if s.rpr_depth >= 1 {
                lemma_runs_follow(s, names, at, e);
            } else if s.in_run {
                lemma_runs_follow(s, names, at, e);
                let before = joined_text(p.runs);
                if s.run_depth == 1 && is_end(e, "w:r") {
                    lemma_run_ends(s, names, at, e);
                    assert(names.drop_last().skip(at.run) =~= Seq::empty());
                    let more = p.runs.push(s.run);
                    assert(more.drop_last() =~= p.runs);
                    assert(joined_text(more) + Seq::<char>::empty() =~= before + s.run.text);
                } else {
                    assert(before + (s.run.text + "\t"@) =~= before + s.run.text + "\t"@);
                    assert(before + (s.run.text + "\n"@) =~= before + s.run.text + "\n"@);
                    let text = event_text(e);
                    assert(before + (s.run.text + text) =~= before + s.run.text + text);
                }
            } else {
                if is_start(e, "w:r") {
                    assert(names.push(lit("w:r")).skip(names.len() as int) =~= seq![lit("w:r")]);
                    assert(seq![lit("w:r")].drop_last() =~= Seq::empty());
                    reveal_with_fuel(count_name, 2);
                }
                assert(joined_text(p.runs) + Seq::<char>::empty() =~= joined_text(p.runs));
            }
        },
    }
}

proof fn lemma_texts_agree(events: Seq<Ev>, n: int)
    requires
        well_formed(events),
        texts_stand_in_runs(events),
        0 <= n <= events.len(),
    ensures
        placed(
            extract_state(events.take(n)),
            open_names(events.take(n))->0,
            spots(events.take(n)),
        ),
        agree(
            extract_state(events.take(n)),
            texts_state(events.take(n)),
            open_names(events.take(n))->0,
            spots(events.take(n)),
        ),
    decreases n,
{
    let now = events.take(n);
    if n == 0 {
        assert(now =~= Seq::empty());
        assert(texts_of_runs(Seq::empty()) =~= Seq::empty());
    } else {
        lemma_texts_agree(events, n - 1);
        lemma_nested_next(events, n - 1);
        let before = events.take(n - 1);
        let e = events[n - 1];
        assert(now.drop_last() =~= before);
        assert(now.last() == e);
        let s = extract_state(before);
        let names = open_names(before)->0;
        lemma_placed(s, names, spots(before), e);
        lemma_agree(s, texts_state(before), names, spots(before), e);
    }
}

/// The texts of the runs of a paragraph, one behind the other, are its visible text, and
/// both extractions find the same paragraphs. Left out are documents with visible text
/// outside runs or in the properties of a run, which only one of the two takes up.
pub proof fn law_runs_make_the_text(
    parts: Parts,
    texts: Result<Vec<String>, Error>,
    paragraphs: Result<Vec<ParagraphInfo>, Error>,
)
    requires
        texts_extracted(parts, texts),
        paragraphs_extracted(parts, paragraphs),
        part(parts, PART_DOCUMENT@) matches Some(doc) ==> texts_stand_in_runs(xml_events(doc)),
    ensures
        texts is Ok == paragraphs is Ok,
        texts is Ok ==> texts_view(texts->Ok_0@) == texts_of_runs(
            paragraphs_view(paragraphs->Ok_0@),
        ),
{
    if let Some(doc) = part(parts, PART_DOCUMENT@) {
        let events = xml_events(doc);
        let n = events.len() as int;
        assert(events.take(n) =~= events);
        lemma_texts_agree(events, n);
    }
}

} // verus!
