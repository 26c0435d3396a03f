//! Translated documents: the texts and runs that take the place of the old ones.

use vstd::prelude::*;
use vstd::std_specs::cmp::PartialEqSpecImpl;

use crate::align::format_transfer::{
    is_format_tag, law_text_is_kept, runs_text, source_view, target_view,
    transfer_format_via_words, transferred, FormattedView, SourceRun, TargetRun,
};
use crate::bytes::{bytes_eq, to_vec};
use crate::paragraph_runs::{
    byte_strings, joined_text, opt_bytes, paragraphs_view, runs_view, ParagraphInfo,
    ParagraphView, Run, RunView,
};
use crate::paragraph_text::texts_view;
use crate::style_mapper::opt_text;
use crate::text::{chars_of, trim, trimmed};

verus! {

// ---------------------------------------------------------------------------
// Texts
// ---------------------------------------------------------------------------

/// The translations of a vector.
pub open spec fn translations_view(v: Seq<Option<String>>) -> Seq<Option<Seq<char>>> {
    v.map_values(|t: Option<String>| opt_text(t))
}

/// A paragraph's translation, or its text where there is none.
pub open spec fn merged(originals: Seq<Seq<char>>, translations: Seq<Option<Seq<char>>>) -> Seq<
    Seq<char>,
> {
    Seq::new(
        if originals.len() < translations.len() {
            originals.len()
        } else {
            translations.len()
        },
        |i: int|
            match translations[i] {
                Some(t) => t,
                None => originals[i],
            },
    )
}

/// The translations, with the original where a translation failed.
pub fn merge_translations(originals: &[String], translations: &[Option<String>]) -> (r: Vec<String>)
    ensures
        texts_view(r@) == merged(texts_view(originals@), translations_view(translations@)),
{
    let ghost want = merged(texts_view(originals@), translations_view(translations@));
    let mut r: Vec<String> = Vec::new();
    let mut i: usize = 0;
    assert(texts_view(r@) =~= want.take(0));
    while i < originals.len() && i < translations.len()
        invariant
            i <= want.len(),
            want == merged(texts_view(originals@), translations_view(translations@)),
            texts_view(r@) == want.take(i as int),
        decreases want.len() - i,
    {
        let text = match &translations[i] {
            Some(t) => t.as_str().to_owned(),
            None => originals[i].as_str().to_owned(),
        };
        proof {
            assert(translations_view(translations@)[i as int] == opt_text(
                translations@[i as int],
            ));
            assert(texts_view(originals@)[i as int] == originals@[i as int]@);
            assert(want[i as int] == text@);
        }
        let ghost before = texts_view(r@);
        r.push(text);
        assert(texts_view(r@) =~= before.push(text@));
        i += 1;
        assert(texts_view(r@) =~= want.take(i as int));
    }
    assert(want.take(i as int) =~= want);
    r
}

// ---------------------------------------------------------------------------
// Runs
// ---------------------------------------------------------------------------

/// The format of a run: its properties, verbatim.
#[derive(Debug)]
pub struct FormatTag {
    pub rpr_xml: Option<Vec<u8>>,
}

impl View for FormatTag {
    type V = Option<Seq<u8>>;

    open spec fn view(&self) -> Option<Seq<u8>> {
        opt_bytes(self.rpr_xml)
    }
}

impl Clone for FormatTag {
    fn clone(&self) -> (r: Self)
        ensures
            r@ == self@,
    {
        FormatTag { rpr_xml: copy_opt(&self.rpr_xml) }
    }
}

impl PartialEq for FormatTag {
    fn eq(&self, other: &Self) -> (r: bool) {
        match (&self.rpr_xml, &other.rpr_xml) {
            (Some(a), Some(b)) => bytes_eq(a, b),
            (None, None) => true,
            _ => false,
        }
    }
}

impl PartialEqSpecImpl for FormatTag {
    open spec fn obeys_eq_spec() -> bool {
        true
    }

    open spec fn eq_spec(&self, other: &Self) -> bool {
        self@ == other@
    }
}

fn copy_opt(o: &Option<Vec<u8>>) -> (r: Option<Vec<u8>>)
    ensures
        opt_bytes(r) == opt_bytes(*o),
{
    match o {
        Some(v) => Some(to_vec(v)),
        None => None,
    }
}

fn copy_strings(v: &Vec<Vec<u8>>) -> (r: Vec<Vec<u8>>)
    ensures
        byte_strings(r@) == byte_strings(v@),
{
    let mut r: Vec<Vec<u8>> = Vec::new();
    push_strings(&mut r, v);
    assert(byte_strings(r@) =~= byte_strings(v@));
    r
}

fn push_strings(r: &mut Vec<Vec<u8>>, v: &Vec<Vec<u8>>)
    ensures
        byte_strings(final(r)@) == byte_strings(old(r)@) + byte_strings(v@),
{
    let ghost start = byte_strings(r@);
    let ghost all = byte_strings(v@);
    let mut i: usize = 0;
    assert(start + all.take(0) =~= start);
    while i < v.len()
        invariant
            i <= v@.len(),
            all == byte_strings(v@),
            byte_strings(r@) == start + all.take(i as int),
        decreases v@.len() - i,
    {
        let ghost before = byte_strings(r@);
        let b = to_vec(&v[i]);
        r.push(b);
        assert(byte_strings(r@) =~= before.push(b@));
        assert(all[i as int] == b@);
        i += 1;
        assert(byte_strings(r@) =~= start + all.take(i as int));
    }
    assert(all.take(i as int) =~= all);
}

fn copy_runs(v: &Vec<Run>) -> (r: Vec<Run>)
    ensures
        runs_view(r@) == runs_view(v@),
{
    let ghost all = runs_view(v@);
    let mut r: Vec<Run> = Vec::new();
    let mut i: usize = 0;
    assert(runs_view(r@) =~= all.take(0));
    while i < v.len()
        invariant
            i <= v@.len(),
            all == runs_view(v@),
            runs_view(r@) == all.take(i as int),
        decreases v@.len() - i,
    {
        let ghost before = runs_view(r@);
        let run = Run {
            text: v[i].text.as_str().to_owned(),
            rpr_xml: copy_opt(&v[i].rpr_xml),
            footnote_refs: copy_strings(&v[i].footnote_refs),
        };
        assert(run@ == v@[i as int]@);
        r.push(run);
        assert(runs_view(r@) =~= before.push(run@));
        i += 1;
        assert(runs_view(r@) =~= all.take(i as int));
    }
    assert(all.take(i as int) =~= all);
    r
}

fn copy_paragraph(p: &ParagraphInfo) -> (r: ParagraphInfo)
    ensures
        r@ == p@,
{
    ParagraphInfo {
        ppr_xml: copy_opt(&p.ppr_xml),
        runs: copy_runs(&p.runs),
        leading_bookmark_starts: copy_strings(&p.leading_bookmark_starts),
        trailing_bookmark_ends: copy_strings(&p.trailing_bookmark_ends),
    }
}

/// The runs of a paragraph as text with a format.
pub open spec fn formatted(runs: Seq<RunView>) -> Seq<FormattedView<Option<Seq<u8>>>> {
    runs.map_values(|r: RunView| FormattedView { text: r.text, format: r.rpr_xml })
}

/// Text with a format as runs of a paragraph.
pub open spec fn as_runs(v: Seq<FormattedView<Option<Seq<u8>>>>) -> Seq<RunView> {
    v.map_values(
        |r: FormattedView<Option<Seq<u8>>>|
            RunView { text: r.text, rpr_xml: r.format, footnote_refs: Seq::empty() },
    )
}

/// The footnote references of the first `k` runs.
pub open spec fn all_refs(runs: Seq<RunView>, k: int) -> Seq<Seq<u8>>
    decreases k,
{
    if k <= 0 {
        Seq::empty()
    } else {
        all_refs(runs, k - 1) + runs[k - 1].footnote_refs
    }
}

/// Runs with footnote references at the end of the last one, or in a run of their own where
/// there is none.
pub open spec fn with_refs(runs: Seq<RunView>, refs: Seq<Seq<u8>>) -> Seq<RunView> {
    if refs.len() == 0 {
        runs
    } else if runs.len() == 0 {
        seq![RunView { text: Seq::empty(), rpr_xml: None, footnote_refs: refs }]
    } else {
        let last = runs.last();
        runs.drop_last().push(RunView { footnote_refs: last.footnote_refs + refs, ..last })
    }
}

/// The runs of a translated paragraph. A translation with no aligned word has the format of
/// the first run.
pub open spec fn translated_runs(
    runs: Seq<RunView>,
    translation: Seq<char>,
    edges: Seq<(usize, usize)>,
) -> Seq<RunView> {
    let default_format = if runs.len() == 0 {
        None
    } else {
        Some(runs[0].rpr_xml)
    };
    with_refs(
        as_runs(transferred(formatted(runs), translation, edges, default_format)),
        all_refs(runs, runs.len() as int),
    )
}

/// A paragraph with its text replaced by a translation whose words are aligned with its
/// own.
pub open spec fn rebuilt(
    p: ParagraphView,
    translation: Seq<char>,
    edges: Seq<(usize, usize)>,
) -> ParagraphView {
    ParagraphView { runs: translated_runs(p.runs, translation, edges), ..p }
}

fn source_runs_of(runs: &Vec<Run>) -> (r: Vec<SourceRun<FormatTag>>)
    ensures
        source_view(r@) == formatted(runs_view(runs@)),
{
    let ghost want = formatted(runs_view(runs@));
    let mut r: Vec<SourceRun<FormatTag>> = Vec::new();
    let mut i: usize = 0;
    assert(source_view(r@) =~= want.take(0));
    while i < runs.len()
        invariant
            i <= runs@.len(),
            want == formatted(runs_view(runs@)),
            source_view(r@) == want.take(i as int),
        decreases runs@.len() - i,
    {
        let ghost before = source_view(r@);
        let run = SourceRun {
            text: runs[i].text.as_str().to_owned(),
            format_id: FormatTag { rpr_xml: copy_opt(&runs[i].rpr_xml) },
        };
        proof {
            assert(runs_view(runs@)[i as int] == runs@[i as int]@);
            assert(want[i as int] == run@);
        }
        r.push(run);
        assert(source_view(r@) =~= before.push(run@));
        i += 1;
        assert(source_view(r@) =~= want.take(i as int));
    }
    assert(want.take(i as int) =~= want);
    r
}

fn runs_of_targets(targets: &Vec<TargetRun<FormatTag>>) -> (r: Vec<Run>)
    ensures
        runs_view(r@) == as_runs(target_view(targets@)),
{
    let ghost want = as_runs(target_view(targets@));
    let mut r: Vec<Run> = Vec::new();
    let mut i: usize = 0;
    assert(runs_view(r@) =~= want.take(0));
    while i < targets.len()
        invariant
            i <= targets@.len(),
            want == as_runs(target_view(targets@)),
            runs_view(r@) == want.take(i as int),
        decreases targets@.len() - i,
    {
        let ghost before = runs_view(r@);
        let refs: Vec<Vec<u8>> = Vec::new();
        assert(byte_strings(refs@) =~= Seq::empty());
        let run = Run {
            text: targets[i].text.as_str().to_owned(),
            rpr_xml: copy_opt(&targets[i].format_id.rpr_xml),
            footnote_refs: refs,
        };
        proof {
            assert(target_view(targets@)[i as int] == targets@[i as int]@);
            assert(want[i as int] == run@);
        }
        r.push(run);
        assert(runs_view(r@) =~= before.push(run@));
        i += 1;
        assert(runs_view(r@) =~= want.take(i as int));
    }
    assert(want.take(i as int) =~= want);
    r
}

fn refs_of(runs: &Vec<Run>) -> (r: Vec<Vec<u8>>)
    ensures
        byte_strings(r@) == all_refs(runs_view(runs@), runs@.len() as int),
{
    let ghost all = runs_view(runs@);
    let mut r: Vec<Vec<u8>> = Vec::new();
    let mut i: usize = 0;
    assert(byte_strings(r@) =~= Seq::empty());
    while i < runs.len()
        invariant
            i <= runs@.len(),
            all == runs_view(runs@),
            byte_strings(r@) == all_refs(all, i as int),
        decreases runs@.len() - i,
    {
        assert(all[i as int] == runs@[i as int]@);
        push_strings(&mut r, &runs[i].footnote_refs);
        i += 1;
    }
    r
}

fn add_refs(runs: &mut Vec<Run>, refs: Vec<Vec<u8>>)
    ensures
        runs_view(final(runs)@) == with_refs(runs_view(old(runs)@), byte_strings(refs@)),
{
    let ghost before = runs_view(runs@);
    if refs.len() == 0 {
        return;
    }
    if runs.len() == 0 {
        let run = Run { text: String::new(), rpr_xml: None, footnote_refs: refs };
        assert(run.text@ =~= Seq::empty());
        runs.push(run);
        assert(runs_view(runs@) =~= with_refs(before, byte_strings(refs@)));
        return;
    }
    assert(before.last() == runs@.last()@);
    let mut last = runs.pop().unwrap();
    push_strings(&mut last.footnote_refs, &refs);
    runs.push(last);
    assert(runs_view(runs@) =~= with_refs(before, byte_strings(refs@)));
}

/// The paragraph with its text replaced by a translation whose words are aligned with its
/// own: each word has the format of its aligned word. Footnote references go to the end.
pub fn rebuild_paragraph(
    info: &ParagraphInfo,
    translation: &str,
    word_edges: &[(usize, usize)],
) -> (r: ParagraphInfo)
    ensures
        r@ == rebuilt(info@, translation@, word_edges@),
{
    let source = source_runs_of(&info.runs);
    let default_format = if info.runs.len() == 0 {
        None
    } else {
        assert(info@.runs[0] == info.runs@[0]@);
        Some(FormatTag { rpr_xml: copy_opt(&info.runs[0].rpr_xml) })
    };
    assert(is_format_tag::<FormatTag>());
    let targets = transfer_format_via_words(&source, translation, word_edges, default_format);
    let mut runs = runs_of_targets(&targets);
    add_refs(&mut runs, refs_of(&info.runs));
    ParagraphInfo {
        ppr_xml: copy_opt(&info.ppr_xml),
        runs,
        leading_bookmark_starts: copy_strings(&info.leading_bookmark_starts),
        trailing_bookmark_ends: copy_strings(&info.trailing_bookmark_ends),
    }
}

proof fn lemma_as_runs_text(v: Seq<FormattedView<Option<Seq<u8>>>>, k: int)
    requires
        0 <= k <= v.len(),
    ensures
        joined_text(as_runs(v).take(k)) == runs_text(v, k),
    decreases k,
{
    let upto = as_runs(v).take(k);
    if k > 0 {
        lemma_as_runs_text(v, k - 1);
        assert(upto.drop_last() =~= as_runs(v).take(k - 1));
    }
}

proof fn lemma_with_refs_text(runs: Seq<RunView>, refs: Seq<Seq<u8>>)
    ensures
        joined_text(with_refs(runs, refs)) == joined_text(runs),
{
    let after = with_refs(runs, refs);
    if refs.len() > 0 {
        if runs.len() == 0 {
            reveal_with_fuel(joined_text, 2);
            assert(joined_text(after) =~= joined_text(runs));
        } else {
            assert(after.drop_last() =~= runs.drop_last());
        }
    }
}

proof fn lemma_with_refs(runs: Seq<RunView>, refs: Seq<Seq<u8>>)
    requires
        forall|i: int| 0 <= i < runs.len() ==> (#[trigger] runs[i]).footnote_refs.len() == 0,
    ensures
        all_refs(with_refs(runs, refs), with_refs(runs, refs).len() as int) == refs,
{
    let after = with_refs(runs, refs);
    let n = after.len() as int;
    if refs.len() == 0 || runs.len() > 0 {
        let k = if refs.len() == 0 {
            n
        } else {
            n - 1
        };
        lemma_no_refs(after, k);
        if refs.len() > 0 {
            assert(runs[n - 1].footnote_refs =~= Seq::empty());
            assert(Seq::<Seq<u8>>::empty() + (runs[n - 1].footnote_refs + refs) =~= refs);
        } else {
            assert(refs =~= Seq::empty());
        }
    } else {
        assert(all_refs(after, 0) + refs =~= refs);
    }
}

proof fn lemma_no_refs(runs: Seq<RunView>, k: int)
    requires
        0 <= k <= runs.len(),
        forall|i: int| 0 <= i < k ==> (#[trigger] runs[i]).footnote_refs.len() == 0,
    ensures
        all_refs(runs, k) == Seq::<Seq<u8>>::empty(),
    decreases k,
{
    if k > 0 {
        lemma_no_refs(runs, k - 1);
        assert(runs[k - 1].footnote_refs.len() == 0);
        assert(all_refs(runs, k) =~= Seq::<Seq<u8>>::empty());
    }
}

/// A translated paragraph says its translation, all of it, and has all footnote references
/// of the original, in order.
pub proof fn law_translation_is_written(
    p: ParagraphView,
    translation: Seq<char>,
    edges: Seq<(usize, usize)>,
)
    requires
        p.runs.len() > 0,
    ensures
        joined_text(rebuilt(p, translation, edges).runs) == translation,
        all_refs(
            rebuilt(p, translation, edges).runs,
            rebuilt(p, translation, edges).runs.len() as int,
        ) == all_refs(p.runs, p.runs.len() as int),
{
    let default_format = Some(p.runs[0].rpr_xml);
    let source = formatted(p.runs);
    let out = transferred(source, translation, edges, default_format);
    law_text_is_kept(source, translation, edges, default_format);
    lemma_as_runs_text(out, out.len() as int);
    assert(as_runs(out).take(out.len() as int) =~= as_runs(out));
    lemma_with_refs_text(as_runs(out), all_refs(p.runs, p.runs.len() as int));
    lemma_with_refs(as_runs(out), all_refs(p.runs, p.runs.len() as int));
}

/// There is something to translate, and a translation of it.
pub open spec fn is_translated(p: ParagraphView, translation: Option<Seq<char>>) -> bool {
    translation is Some && trimmed(joined_text(p.runs)).len() > 0
}

/// Whether a paragraph is to be rebuilt: where it has text, and its translation did not
/// fail.
pub fn needs_rebuild(info: &ParagraphInfo, translation: &Option<String>) -> (r: bool)
    ensures
        r == is_translated(info@, opt_text(*translation)),
{
    translation.is_some() && trim(&chars_of(&info.full_text())).len() > 0
}

/// The edges of a paragraph; none where none are given.
pub open spec fn edges_at(edges: Seq<Vec<(usize, usize)>>, i: int) -> Seq<(usize, usize)> {
    if i < edges.len() {
        edges[i]@
    } else {
        Seq::empty()
    }
}

/// The translation of a paragraph, where there is one.
pub open spec fn translation_at(translations: Seq<Option<Seq<char>>>, i: int) -> Option<Seq<char>> {
    if i < translations.len() {
        translations[i]
    } else {
        None
    }
}

/// The paragraphs of a translated document. One without text, or whose translation failed,
/// stays as it is.
pub open spec fn rebuilt_all(
    paragraphs: Seq<ParagraphView>,
    translations: Seq<Option<Seq<char>>>,
    edges: Seq<Vec<(usize, usize)>>,
) -> Seq<ParagraphView> {
    Seq::new(
        paragraphs.len(),
        |i: int|
            if is_translated(paragraphs[i], translation_at(translations, i)) {
                rebuilt(paragraphs[i], translation_at(translations, i)->0, edges_at(edges, i))
            } else {
                paragraphs[i]
            },
    )
}

/// The paragraphs of a translated document, given for each its translation and the edges
/// between its words and those of the translation.
pub fn rebuild_paragraphs(
    paragraphs: &Vec<ParagraphInfo>,
    translations: &Vec<Option<String>>,
    word_edges: &Vec<Vec<(usize, usize)>>,
) -> (r: Vec<ParagraphInfo>)
    ensures
        paragraphs_view(r@) == rebuilt_all(
            paragraphs_view(paragraphs@),
            translations_view(translations@),
            word_edges@,
        ),
{
    let ghost want = rebuilt_all(
        paragraphs_view(paragraphs@),
        translations_view(translations@),
        word_edges@,
    );
    let none: Vec<(usize, usize)> = Vec::new();
    assert(none@ =~= Seq::empty());
    let mut r: Vec<ParagraphInfo> = Vec::new();
    let mut i: usize = 0;
    assert(paragraphs_view(r@) =~= want.take(0));
    while i < paragraphs.len()
        invariant
            i <= paragraphs@.len(),
            none@ == Seq::<(usize, usize)>::empty(),
            want == rebuilt_all(
                paragraphs_view(paragraphs@),
                translations_view(translations@),
                word_edges@,
            ),
            paragraphs_view(r@) == want.take(i as int),
        decreases paragraphs@.len() - i,
    {
        let info: &ParagraphInfo = &paragraphs[i];
        let edges: &Vec<(usize, usize)> = if i < word_edges.len() {
            &word_edges[i]
        } else {
            &none
        };
        proof {
            assert(paragraphs_view(paragraphs@)[i as int] == info@);
            if i < translations@.len() {
                assert(translations_view(translations@)[i as int] == opt_text(
                    translations@[i as int],
                ));
            }
        }
        let mut new: Option<ParagraphInfo> = None;
        if i < translations.len() {
            if needs_rebuild(info, &translations[i]) {
                if let Some(text) = &translations[i] {
                    new = Some(rebuild_paragraph(info, text, edges));
                }
            }
        }
        let p = match new {
            Some(p) => p,
            None => copy_paragraph(info),
        };
        assert(want[i as int] == p@);
        let ghost before = paragraphs_view(r@);
        r.push(p);
        assert(paragraphs_view(r@) =~= before.push(p@));
        i += 1;
        assert(paragraphs_view(r@) =~= want.take(i as int));
    }
    assert(want.take(i as int) =~= want);
    r
}

/// A translated paragraph keeps its properties and its bookmarks, and each of its runs has the
/// text and the format of a run of the translation.
pub proof fn law_translated_runs_have_their_formats(
    p: ParagraphView,
    translation: Seq<char>,
    edges: Seq<(usize, usize)>,
    k: int,
)
    requires
        p.runs.len() > 0,
        translation.len() > 0,
        0 <= k < transferred(formatted(p.runs), translation, edges, Some(p.runs[0].rpr_xml)).len(),
    ensures
        ({
            let new = rebuilt(p, translation, edges);
            let out = transferred(formatted(p.runs), translation, edges, Some(p.runs[0].rpr_xml));
            &&& new.ppr_xml == p.ppr_xml
            &&& new.leading_bookmark_starts == p.leading_bookmark_starts
            &&& new.trailing_bookmark_ends == p.trailing_bookmark_ends
            &&& new.runs.len() == out.len()
            &&& new.runs[k].text == out[k].text
            &&& new.runs[k].rpr_xml == out[k].format
        }),
{
}

/// What a transfer takes of a run is its text and its properties.
pub proof fn law_runs_are_transferred_with_their_properties(runs: Seq<RunView>, k: int)
    requires
        0 <= k < runs.len(),
    ensures
        formatted(runs).len() == runs.len(),
        formatted(runs)[k].text == runs[k].text,
        formatted(runs)[k].format == runs[k].rpr_xml,
{
}

/// Of a translated document every paragraph with text that has a translation says it; every
/// other paragraph stays as it was; and all stand in their order.
pub proof fn law_translated_documents(
    paragraphs: Seq<ParagraphView>,
    translations: Seq<Option<Seq<char>>>,
    edges: Seq<Vec<(usize, usize)>>,
    i: int,
)
    requires
        0 <= i < paragraphs.len(),
    ensures
        ({
            let all = rebuilt_all(paragraphs, translations, edges);
            let p = paragraphs[i];
            let has_text = trimmed(joined_text(p.runs)).len() > 0;
            &&& all.len() == paragraphs.len()
            &&& i >= translations.len() || translations[i] is None || !has_text ==> all[i] == p
            &&& i < translations.len() && translations[i] is Some && has_text && p.runs.len() > 0
                ==> joined_text(all[i].runs) == translations[i]->0 && all[i].ppr_xml == p.ppr_xml
        }),
{
    if i < translations.len() && translations[i] is Some && paragraphs[i].runs.len() > 0 {
        law_translation_is_written(paragraphs[i], translations[i]->0, edges_at(edges, i));
    }
}

/// Each text becomes its translation where there is one, and stays where there is none.
pub proof fn law_texts_become_their_translations(
    originals: Seq<Seq<char>>,
    translations: Seq<Option<Seq<char>>>,
    i: int,
)
    requires
        0 <= i < originals.len(),
        i < translations.len(),
    ensures
        i < merged(originals, translations).len(),
        merged(originals, translations).len() <= originals.len(),
        translations[i] matches Some(t) ==> merged(originals, translations)[i] == t,
        translations[i] is None ==> merged(originals, translations)[i] == originals[i],
{
}

} // verus!
