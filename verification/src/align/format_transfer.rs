//! Transfer of formatting from the runs of a text to its translation.
//!
//! Every character of the source belongs to a run; a word of the source has the format of
//! the run that holds most of it. A word of the translation has the format of the source
//! word it is aligned with; one that is aligned with none has that of the nearest aligned
//! word, to the left or else to the right, or else the default. Words are what white space
//! of ASCII separates; white space goes with the word before it.
//!
//! Formats are opaque tags that can be copied and compared.

use vstd::prelude::*;
use vstd::std_specs::cmp::PartialEqSpec;

use crate::align::subword::WordGroup;
use crate::align::text_alignment::TextAlignment;
use crate::paragraph_text::texts_view;
use crate::text::{chars_of, string_of};

verus! {

/// A run of the source: its text and format.
#[derive(Debug)]
pub struct SourceRun<F> {
    /// The text of the run.
    pub text: String,
    /// Its format.
    pub format_id: F,
}

/// A run of the translation.
#[derive(Debug)]
pub struct TargetRun<F> {
    /// The piece of the translation that the run covers.
    pub text: String,
    /// Its format, carried over from the source.
    pub format_id: F,
}

/// A run: its text and format.
#[verifier::ext_equal]
pub struct FormattedView<V> {
    pub text: Seq<char>,
    pub format: V,
}

impl<F: View> View for SourceRun<F> {
    type V = FormattedView<F::V>;

    open spec fn view(&self) -> FormattedView<F::V> {
        FormattedView { text: self.text@, format: self.format_id@ }
    }
}

impl<F: View> View for TargetRun<F> {
    type V = FormattedView<F::V>;

    open spec fn view(&self) -> FormattedView<F::V> {
        FormattedView { text: self.text@, format: self.format_id@ }
    }
}

/// The runs of a source.
pub open spec fn source_view<F: View>(v: Seq<SourceRun<F>>) -> Seq<FormattedView<F::V>> {
    v.map_values(|r: SourceRun<F>| r@)
}

/// The runs of a translation.
pub open spec fn target_view<F: View>(v: Seq<TargetRun<F>>) -> Seq<FormattedView<F::V>> {
    v.map_values(|r: TargetRun<F>| r@)
}

/// Copies of a format are the same format, and comparing two formats tells whether they
/// are the same.
pub open spec fn is_format_tag<F: View + Clone + PartialEq>() -> bool {
    &&& F::obeys_eq_spec()
    &&& forall|a: F, b: F| #[trigger] a.eq_spec(&b) <==> a@ == b@
    &&& forall|a: F, b: F| #[trigger] cloned(a, b) ==> a@ == b@
}

// ---------------------------------------------------------------------------
// Words
// ---------------------------------------------------------------------------

/// White space of ASCII.
pub open spec fn is_ascii_space(c: char) -> bool {
    c == ' ' || c == '\t' || c == '\n' || c == '\u{0C}' || c == '\r'
}

/// Words so far, and where the current word began.
pub struct SpansView {
    pub done: Seq<(int, int)>,
    pub start: Option<int>,
}

/// The words of the first `n` characters.
pub open spec fn spans_state(s: Seq<char>, n: int) -> SpansView
    decreases n,
{
    if n <= 0 {
        SpansView { done: Seq::empty(), start: None }
    } else {
        let before = spans_state(s, n - 1);
        if is_ascii_space(s[n - 1]) {
            match before.start {
                Some(at) => SpansView { done: before.done.push((at, n - 1)), start: None },
                None => before,
            }
        } else {
            match before.start {
                Some(_) => before,
                None => SpansView { start: Some(n - 1), ..before },
            }
        }
    }
}

/// The words of a text: where each begins and ends.
pub open spec fn word_spans(s: Seq<char>) -> Seq<(int, int)> {
    let all = spans_state(s, s.len() as int);
    match all.start {
        Some(at) => all.done.push((at, s.len() as int)),
        None => all.done,
    }
}

/// The words of a vector.
spec fn spans_view(v: Seq<(usize, usize)>) -> Seq<(int, int)> {
    v.map_values(|w: (usize, usize)| (w.0 as int, w.1 as int))
}

fn words(s: &[char]) -> (r: Vec<(usize, usize)>)
    ensures
        spans_view(r@) == word_spans(s@),
{
    let mut done: Vec<(usize, usize)> = Vec::new();
    let mut start: Option<usize> = None;
    let mut i: usize = 0;
    assert(spans_view(done@) =~= Seq::empty());
    while i < s.len()
        invariant
            i <= s@.len(),
            spans_view(done@) == spans_state(s@, i as int).done,
            spans_state(s@, i as int).start == (match start {
                Some(at) => Some(at as int),
                None => None,
            }),
        decreases s@.len() - i,
    {
        let c: char = s[i];
        if c == ' ' || c == '\t' || c == '\n' || c == '\u{0C}' || c == '\r' {
            if let Some(at) = start {
                let ghost before = done@;
                done.push((at, i));
                assert(spans_view(done@) =~= spans_view(before).push((at as int, i as int)));
                start = None;
            }
        } else if start.is_none() {
            start = Some(i);
        }
        i += 1;
    }
    if let Some(at) = start {
        let ghost before = done@;
        done.push((at, s.len()));
        assert(spans_view(done@) =~= spans_view(before).push((at as int, s@.len() as int)));
    }
    done
}

/// The words stand in order, none is empty, and none reaches beyond the text.
pub open spec fn spans_in_order(v: Seq<(int, int)>, end: int) -> bool {
    &&& forall|i: int| 0 <= i < v.len() ==> 0 <= (#[trigger] v[i]).0 < v[i].1 <= end
    &&& forall|i: int, j: int| 0 <= i < j < v.len() ==> (#[trigger] v[i]).1 <= (#[trigger] v[j]).0
}

proof fn lemma_spans_state(s: Seq<char>, n: int)
    requires
        0 <= n <= s.len(),
    ensures
        spans_in_order(spans_state(s, n).done, n),
        spans_state(s, n).start matches Some(at) ==> 0 <= at < n && (forall|i: int|
            0 <= i < spans_state(s, n).done.len() ==> (#[trigger] spans_state(s, n).done[i]).1
                <= at),
    decreases n,
{
    if n > 0 {
        lemma_spans_state(s, n - 1);
        let before = spans_state(s, n - 1).done;
        let after = spans_state(s, n).done;
        assert forall|i: int| 0 <= i < before.len() implies #[trigger] after[i] == before[i] by {}
    }
}

/// The words of a text stand in order, none is empty, and none reaches beyond the text.
pub proof fn law_words_in_order(s: Seq<char>)
    ensures
        spans_in_order(word_spans(s), s.len() as int),
{
    lemma_spans_state(s, s.len() as int);
    let all = spans_state(s, s.len() as int);
    if let Some(at) = all.start {
        let w = word_spans(s);
        assert forall|i: int| 0 <= i < all.done.len() implies #[trigger] w[i] == all.done[i] by {}
    }
}

// ---------------------------------------------------------------------------
// Formats of words
// ---------------------------------------------------------------------------

/// The text of the first `k` runs.
pub open spec fn runs_text<V>(runs: Seq<FormattedView<V>>, k: int) -> Seq<char>
    decreases k,
{
    if k <= 0 {
        Seq::empty()
    } else {
        runs_text(runs, k - 1) + runs[k - 1].text
    }
}

/// The run of each character of the first `k` runs.
pub open spec fn run_indices<V>(runs: Seq<FormattedView<V>>, k: int) -> Seq<int>
    decreases k,
{
    if k <= 0 {
        Seq::empty()
    } else {
        run_indices(runs, k - 1) + Seq::new(runs[k - 1].text.len(), |i: int| k - 1)
    }
}

/// How many of the characters from `from` to `to` belong to a run.
pub open spec fn chars_of_run(indices: Seq<int>, from: int, to: int, run: int) -> nat
    decreases to - from,
{
    if from >= to {
        0
    } else if indices[to - 1] == run {
        chars_of_run(indices, from, to - 1, run) + 1
    } else {
        chars_of_run(indices, from, to - 1, run)
    }
}

/// The run among the first `k` that holds most of the characters from `from` to `to`; the
/// last where several hold as many.
pub open spec fn main_run(indices: Seq<int>, from: int, to: int, k: int) -> int
    decreases k,
{
    if k <= 1 {
        0
    } else {
        let best = main_run(indices, from, to, k - 1);
        if chars_of_run(indices, from, to, k - 1) >= chars_of_run(indices, from, to, best) {
            k - 1
        } else {
            best
        }
    }
}

/// The format of a source word: that of the run that holds most of it.
pub open spec fn source_format<V>(runs: Seq<FormattedView<V>>, word: int) -> V {
    let n = runs.len() as int;
    let span = word_spans(runs_text(runs, n))[word];
    runs[main_run(run_indices(runs, n), span.0, span.1, n)].format
}

/// The source word that a word of the translation is aligned with: that of the first edge
/// that leads to it from a word of the source.
pub open spec fn aligned_source(
    edges: Seq<(usize, usize)>,
    sources: int,
    word: int,
    from: int,
) -> Option<int>
    decreases edges.len() - from,
{
    if from >= edges.len() {
        None
    } else if edges[from].1 == word && edges[from].0 < sources {
        Some(edges[from].0 as int)
    } else {
        aligned_source(edges, sources, word, from + 1)
    }
}

/// The format of the source word that a word of the translation is aligned with.
pub open spec fn aligned_format<V>(
    runs: Seq<FormattedView<V>>,
    edges: Seq<(usize, usize)>,
    word: int,
) -> Option<V> {
    let sources = word_spans(runs_text(runs, runs.len() as int)).len() as int;
    match aligned_source(edges, sources, word, 0) {
        Some(s) => Some(source_format(runs, s)),
        None => None,
    }
}

/// The format of the nearest aligned word before a word.
pub open spec fn left_format<V>(
    runs: Seq<FormattedView<V>>,
    edges: Seq<(usize, usize)>,
    word: int,
) -> Option<V>
    decreases word,
{
    if word <= 0 {
        None
    } else if aligned_format(runs, edges, word - 1) is Some {
        aligned_format(runs, edges, word - 1)
    } else {
        left_format(runs, edges, word - 1)
    }
}

/// The format of the nearest aligned word from `word` on, of `total` words.
pub open spec fn right_format<V>(
    runs: Seq<FormattedView<V>>,
    edges: Seq<(usize, usize)>,
    word: int,
    total: int,
) -> Option<V>
    decreases total - word,
{
    if word >= total {
        None
    } else if aligned_format(runs, edges, word) is Some {
        aligned_format(runs, edges, word)
    } else {
        right_format(runs, edges, word + 1, total)
    }
}

/// The format of a word of the translation.
pub open spec fn word_format<V>(
    runs: Seq<FormattedView<V>>,
    edges: Seq<(usize, usize)>,
    default_format: Option<V>,
    word: int,
    total: int,
) -> Option<V> {
    if aligned_format(runs, edges, word) is Some {
        aligned_format(runs, edges, word)
    } else if left_format(runs, edges, word) is Some {
        left_format(runs, edges, word)
    } else if right_format(runs, edges, word + 1, total) is Some {
        right_format(runs, edges, word + 1, total)
    } else {
        default_format
    }
}

// ---------------------------------------------------------------------------
// Runs of the translation
// ---------------------------------------------------------------------------

/// Runs with a piece added: to the last run where it has the same format.
pub open spec fn with_piece<V>(out: Seq<FormattedView<V>>, piece: Seq<char>, format: V) -> Seq<
    FormattedView<V>,
> {
    if out.len() > 0 && out.last().format == format {
        out.drop_last().push(FormattedView { text: out.last().text + piece, format })
    } else {
        out.push(FormattedView { text: piece, format })
    }
}

/// Runs with the white space before a word added: to the last run, or where there is none
/// with the word's format.
pub open spec fn with_gap<V>(out: Seq<FormattedView<V>>, gap: Seq<char>, format: V) -> Seq<
    FormattedView<V>,
> {
    if gap.len() == 0 {
        out
    } else if out.len() > 0 {
        with_piece(out, gap, out.last().format)
    } else {
        with_piece(out, gap, format)
    }
}

/// The end of the word before the `k`-th.
pub open spec fn end_before(spans: Seq<(int, int)>, k: int) -> int {
    if k <= 0 {
        0
    } else {
        spans[k - 1].1
    }
}

/// The runs up to the end of the first `k` words of the translation.
pub open spec fn runs_upto<V>(
    runs: Seq<FormattedView<V>>,
    target: Seq<char>,
    edges: Seq<(usize, usize)>,
    default_format: Option<V>,
    k: int,
) -> Seq<FormattedView<V>>
    decreases k,
{
    let spans = word_spans(target);
    if k <= 0 {
        Seq::empty()
    } else {
        let before = runs_upto(runs, target, edges, default_format, k - 1);
        let span = spans[k - 1];
        match word_format(runs, edges, default_format, k - 1, spans.len() as int) {
            None => before,
            Some(f) => with_piece(
                with_gap(before, target.subrange(end_before(spans, k - 1), span.0), f),
                target.subrange(span.0, span.1),
                f,
            ),
        }
    }
}

/// The format of a word where no word is aligned: the default, or else that of the first
/// run of the source.
pub open spec fn fallback_format<V>(
    runs: Seq<FormattedView<V>>,
    default_format: Option<V>,
) -> Option<V> {
    if default_format is Some || runs.len() == 0 {
        default_format
    } else {
        Some(runs[0].format)
    }
}

/// The runs of the translation.
pub open spec fn transferred<V>(
    runs: Seq<FormattedView<V>>,
    target: Seq<char>,
    edges: Seq<(usize, usize)>,
    default_format: Option<V>,
) -> Seq<FormattedView<V>> {
    transferred_or(runs, target, edges, fallback_format(runs, default_format))
}

/// The runs of the translation, given the format of a word where no word is aligned.
pub open spec fn transferred_or<V>(
    runs: Seq<FormattedView<V>>,
    target: Seq<char>,
    edges: Seq<(usize, usize)>,
    default_format: Option<V>,
) -> Seq<FormattedView<V>> {
    let spans = word_spans(target);
    let n = spans.len() as int;
    let out = runs_upto(runs, target, edges, default_format, n);
    let rest = target.subrange(end_before(spans, n), target.len() as int);
    if rest.len() == 0 {
        out
    } else if out.len() > 0 {
        with_piece(out, rest, out.last().format)
    } else {
        match default_format {
            Some(f) => with_piece(out, rest, f),
            None => out,
        }
    }
}

// ---------------------------------------------------------------------------
// Laws
// ---------------------------------------------------------------------------

proof fn lemma_runs_text_prefix<V>(a: Seq<FormattedView<V>>, b: Seq<FormattedView<V>>, k: int)
    requires
        0 <= k <= a.len(),
        k <= b.len(),
        forall|i: int| 0 <= i < k ==> a[i] == b[i],
    ensures
        runs_text(a, k) == runs_text(b, k),
    decreases k,
{
    if k > 0 {
        lemma_runs_text_prefix(a, b, k - 1);
    }
}

proof fn lemma_piece_text<V>(out: Seq<FormattedView<V>>, piece: Seq<char>, format: V)
    ensures
        runs_text(with_piece(out, piece, format), with_piece(out, piece, format).len() as int)
            == runs_text(out, out.len() as int) + piece,
{
    let after = with_piece(out, piece, format);
    let n = out.len() as int;
    if n > 0 && out.last().format == format {
        lemma_runs_text_prefix(after, out, n - 1);
        assert(runs_text(out, n - 1) + (out.last().text + piece) =~= (runs_text(out, n - 1)
            + out.last().text) + piece);
    } else {
        lemma_runs_text_prefix(after, out, n);
    }
}

proof fn lemma_runs_upto<V>(
    runs: Seq<FormattedView<V>>,
    target: Seq<char>,
    edges: Seq<(usize, usize)>,
    default_format: Option<V>,
    k: int,
)
    requires
        default_format is Some,
        0 <= k <= word_spans(target).len(),
    ensures
        ({
            let out = runs_upto(runs, target, edges, default_format, k);
            &&& runs_text(out, out.len() as int) == target.subrange(
                0,
                end_before(word_spans(target), k),
            )
            &&& k > 0 ==> out.len() > 0
        }),
    decreases k,
{
    let spans = word_spans(target);
    law_words_in_order(target);
    if k > 0 {
        lemma_runs_upto(runs, target, edges, default_format, k - 1);
        let before = runs_upto(runs, target, edges, default_format, k - 1);
        let f = word_format(runs, edges, default_format, k - 1, spans.len() as int)->0;
        let from = end_before(spans, k - 1);
        let span = spans[k - 1];
        if k > 1 {
            assert(spans[k - 2].1 <= span.0);
        }
        let gap = target.subrange(from, span.0);
        let word = target.subrange(span.0, span.1);
        let mid = with_gap(before, gap, f);
        if gap.len() > 0 {
            if before.len() > 0 {
                lemma_piece_text(before, gap, before.last().format);
            } else {
                lemma_piece_text(before, gap, f);
            }
        } else {
            assert(runs_text(before, before.len() as int) + gap =~= runs_text(
                before,
                before.len() as int,
            ));
        }
        lemma_piece_text(mid, word, f);
        assert(target.subrange(0, from) + gap + word =~= target.subrange(0, span.1));
    } else {
        assert(target.subrange(0, 0) =~= Seq::empty());
    }
}

/// The runs of the translation hold its text, all of it, once and in order, unless there is
/// no format for it: neither a default nor a run of the source.
pub proof fn law_text_is_kept<V>(
    runs: Seq<FormattedView<V>>,
    target: Seq<char>,
    edges: Seq<(usize, usize)>,
    default_format: Option<V>,
)
    requires
        default_format is Some || runs.len() > 0 || target.len() == 0,
    ensures
        ({
            let out = transferred(runs, target, edges, default_format);
            runs_text(out, out.len() as int) == target
        }),
{
    let spans = word_spans(target);
    let n = spans.len() as int;
    let fallback = fallback_format(runs, default_format);
    law_words_in_order(target);
    if target.len() == 0 {
        if n > 0 {
            assert(spans[0].0 < spans[0].1);
        }
        assert(target =~= Seq::empty());
    } else {
        lemma_runs_upto(runs, target, edges, fallback, n);
        let out = runs_upto(runs, target, edges, fallback, n);
        let from = end_before(spans, n);
        let rest = target.subrange(from, target.len() as int);
        assert(target.subrange(0, from) + rest =~= target);
        if rest.len() > 0 {
            if out.len() > 0 {
                lemma_piece_text(out, rest, out.last().format);
            } else {
                lemma_piece_text(out, rest, fallback->0);
            }
        } else {
            assert(target.subrange(0, from) =~= target);
        }
    }
}

/// Adjacent runs have different formats.
pub open spec fn is_merged<V>(out: Seq<FormattedView<V>>) -> bool {
    forall|i: int| 0 <= i && i + 1 < out.len() ==> (#[trigger] out[i]).format != out[i + 1].format
}

proof fn lemma_merged<V>(out: Seq<FormattedView<V>>, piece: Seq<char>, format: V)
    requires
        is_merged(out),
    ensures
        is_merged(with_piece(out, piece, format)),
{
    let after = with_piece(out, piece, format);
    assert forall|i: int| 0 <= i && i + 1 < after.len() implies (#[trigger] after[i]).format
        != after[i + 1].format by {
        if i + 1 < out.len() {
            assert(out[i].format != out[i + 1].format);
            assert(after[i].format == out[i].format);
            assert(after[i + 1].format == out[i + 1].format);
        }
    }
}

proof fn lemma_runs_upto_merged<V>(
    runs: Seq<FormattedView<V>>,
    target: Seq<char>,
    edges: Seq<(usize, usize)>,
    default_format: Option<V>,
    k: int,
)
    ensures
        is_merged(runs_upto(runs, target, edges, default_format, k)),
    decreases k,
{
    if k > 0 {
        lemma_runs_upto_merged(runs, target, edges, default_format, k - 1);
        let spans = word_spans(target);
        let before = runs_upto(runs, target, edges, default_format, k - 1);
        if let Some(f) = word_format(runs, edges, default_format, k - 1, spans.len() as int) {
            let span = spans[k - 1];
            let gap = target.subrange(end_before(spans, k - 1), span.0);
            if gap.len() > 0 {
                if before.len() > 0 {
                    lemma_merged(before, gap, before.last().format);
                } else {
                    lemma_merged(before, gap, f);
                }
            }
            lemma_merged(with_gap(before, gap, f), target.subrange(span.0, span.1), f);
        }
    }
}

/// Adjacent runs of the translation have different formats.
pub proof fn law_adjacent_runs_differ<V>(
    runs: Seq<FormattedView<V>>,
    target: Seq<char>,
    edges: Seq<(usize, usize)>,
    default_format: Option<V>,
)
    ensures
        is_merged(transferred(runs, target, edges, default_format)),
{
    let spans = word_spans(target);
    let n = spans.len() as int;
    let fallback = fallback_format(runs, default_format);
    lemma_runs_upto_merged(runs, target, edges, fallback, n);
    let out = runs_upto(runs, target, edges, fallback, n);
    let rest = target.subrange(end_before(spans, n), target.len() as int);
    if out.len() > 0 {
        lemma_merged(out, rest, out.last().format);
    } else if fallback is Some {
        lemma_merged(out, rest, fallback->0);
    }
}

// ---------------------------------------------------------------------------
// Transfer
// ---------------------------------------------------------------------------

spec fn indices_view(v: Seq<usize>) -> Seq<int> {
    v.map_values(|i: usize| i as int)
}

/// The text of the runs, and the run of each character.
fn source_chars<F: View>(runs: &[SourceRun<F>]) -> (r: (Vec<char>, Vec<usize>))
    ensures
        r.0@ == runs_text(source_view(runs@), runs@.len() as int),
        indices_view(r.1@) == run_indices(source_view(runs@), runs@.len() as int),
        r.0@.len() == r.1@.len(),
        forall|i: int| 0 <= i < r.1@.len() ==> #[trigger] r.1@[i] < runs@.len(),
{
    let ghost all = source_view(runs@);
    let mut text: Vec<char> = Vec::new();
    let mut indices: Vec<usize> = Vec::new();
    let mut i: usize = 0;
    assert(indices_view(indices@) =~= Seq::empty());
    while i < runs.len()
        invariant
            i <= runs@.len(),
            all == source_view(runs@),
            text@ == runs_text(all, i as int),
            indices_view(indices@) == run_indices(all, i as int),
            text@.len() == indices@.len(),
            forall|k: int| 0 <= k < indices@.len() ==> #[trigger] indices@[k] < runs@.len(),
        decreases runs@.len() - i,
    {
        assert(all[i as int] == runs@[i as int]@);
        let chars = chars_of(&runs[i].text);
        let ghost before = indices_view(indices@);
        let ghost text_before = text@;
        let mut k: usize = 0;
        assert(before + Seq::new(0, |j: int| i as int) =~= before);
        assert(text_before + chars@.take(0) =~= text_before);
        while k < chars.len()
            invariant
                k <= chars@.len(),
                i < runs@.len(),
                text@ == text_before + chars@.take(k as int),
                indices_view(indices@) == before + Seq::new(k as nat, |j: int| i as int),
                text@.len() == indices@.len(),
                forall|k: int| 0 <= k < indices@.len() ==> #[trigger] indices@[k] < runs@.len(),
            decreases chars@.len() - k,
        {
            let ghost filled = indices_view(indices@);
            text.push(chars[k]);
            indices.push(i);
            assert(indices_view(indices@) =~= filled.push(i as int));
            k += 1;
            assert(text@ =~= text_before + chars@.take(k as int));
            assert(indices_view(indices@) =~= before + Seq::new(k as nat, |j: int| i as int));
        }
        assert(chars@.take(k as int) =~= chars@);
        i += 1;
    }
    (text, indices)
}

fn count_of_run(indices: &Vec<usize>, from: usize, to: usize, run: usize) -> (n: usize)
    requires
        from <= to <= indices@.len(),
    ensures
        n == chars_of_run(indices_view(indices@), from as int, to as int, run as int),
{
    let mut n: usize = 0;
    let mut i: usize = from;
    while i < to
        invariant
            from <= i <= to <= indices@.len(),
            n <= i - from,
            n == chars_of_run(indices_view(indices@), from as int, i as int, run as int),
        decreases to - i,
    {
        assert(indices_view(indices@)[i as int] == indices@[i as int]);
        if indices[i] == run {
            n += 1;
        }
        i += 1;
    }
    n
}

fn find_main_run(indices: &Vec<usize>, from: usize, to: usize, runs: usize) -> (r: usize)
    requires
        from <= to <= indices@.len(),
        runs > 0,
    ensures
        r < runs,
        r == main_run(indices_view(indices@), from as int, to as int, runs as int),
{
    let mut best: usize = 0;
    let mut most: usize = count_of_run(indices, from, to, 0);
    let mut k: usize = 1;
    while k < runs
        invariant
            1 <= k <= runs,
            from <= to <= indices@.len(),
            best < k,
            best == main_run(indices_view(indices@), from as int, to as int, k as int),
            most == chars_of_run(indices_view(indices@), from as int, to as int, best as int),
        decreases runs - k,
    {
        let n: usize = count_of_run(indices, from, to, k);
        if n >= most {
            best = k;
            most = n;
        }
        k += 1;
    }
    best
}

fn find_aligned(edges: &[(usize, usize)], sources: usize, word: usize) -> (r: Option<usize>)
    ensures
        match r {
            Some(s) => aligned_source(edges@, sources as int, word as int, 0) == Some(s as int)
                && s < sources,
            None => aligned_source(edges@, sources as int, word as int, 0) is None,
        },
{
    let mut i: usize = 0;
    while i < edges.len()
        invariant
            i <= edges@.len(),
            aligned_source(edges@, sources as int, word as int, 0) == aligned_source(
                edges@,
                sources as int,
                word as int,
                i as int,
            ),
        decreases edges@.len() - i,
    {
        if edges[i].1 == word && edges[i].0 < sources {
            return Some(edges[i].0);
        }
        i += 1;
    }
    None
}

/// For each of the first words of the translation the run whose format its aligned source
/// word has.
spec fn is_aligned_run<V>(
    runs: Seq<FormattedView<V>>,
    edges: Seq<(usize, usize)>,
    word: int,
    run: Option<usize>,
) -> bool {
    match run {
        Some(r) => r < runs.len() && aligned_format(runs, edges, word) == Some(
            runs[r as int].format,
        ),
        None => aligned_format(runs, edges, word) is None,
    }
}

proof fn lemma_no_runs<V>(runs: Seq<FormattedView<V>>)
    ensures
        word_spans(runs_text(runs, runs.len() as int)).len() > 0 ==> runs.len() > 0,
{
}

/// For each word of the translation the run whose format its aligned source word has.
fn aligned_runs<F: View>(
    runs: &[SourceRun<F>],
    edges: &[(usize, usize)],
    total: usize,
) -> (r: Vec<Option<usize>>)
    ensures
        r@.len() == total,
        forall|k: int|
            0 <= k < total ==> is_aligned_run(source_view(runs@), edges@, k, #[trigger] r@[k]),
{
    let ghost all = source_view(runs@);
    let (text, indices) = source_chars(runs);
    let spans = words(&text);
    proof {
        law_words_in_order(text@);
        lemma_no_runs(all);
    }
    let mut r: Vec<Option<usize>> = Vec::new();
    let mut k: usize = 0;
    while k < total
        invariant
            k <= total,
            r@.len() == k,
            all == source_view(runs@),
            text@ == runs_text(all, runs@.len() as int),
            indices_view(indices@) == run_indices(all, runs@.len() as int),
            text@.len() == indices@.len(),
            spans_view(spans@) == word_spans(text@),
            spans_in_order(word_spans(text@), text@.len() as int),
            word_spans(text@).len() > 0 ==> runs@.len() > 0,
            forall|j: int| 0 <= j < k ==> is_aligned_run(all, edges@, j, #[trigger] r@[j]),
        decreases total - k,
    {
        let run: Option<usize> = match find_aligned(edges, spans.len(), k) {
            Some(s) => {
                assert(spans_view(spans@)[s as int] == (
                    spans@[s as int].0 as int,
                    spans@[s as int].1 as int,
                ));
                Some(find_main_run(&indices, spans[s].0, spans[s].1, runs.len()))
            },
            None => None,
        };
        assert(is_aligned_run(all, edges@, k as int, run));
        r.push(run);
        k += 1;
    }
    r
}

/// The run whose format a word has, or none where it has the default.
fn run_for_word(aligned: &Vec<Option<usize>>, word: usize) -> (r: Option<usize>)
    requires
        word < aligned@.len(),
    ensures
        ({
            let w = word as int;
            let left = last_some(aligned@, w);
            r == if aligned@[w] is Some {
                aligned@[w]
            } else if left is Some {
                left
            } else {
                first_some(aligned@, w + 1)
            }
        }),
{
    if aligned[word].is_some() {
        return aligned[word];
    }
    let mut k: usize = word;
    while k > 0
        invariant
            k <= word,
            word < aligned@.len(),
            aligned@[word as int] is None,
            last_some(aligned@, word as int) == last_some(aligned@, k as int),
        decreases k,
    {
        k -= 1;
        if aligned[k].is_some() {
            return aligned[k];
        }
    }
    let total: usize = aligned.len();
    assert(word < total);
    let mut k: usize = word + 1;
    while k < total
        invariant
            total == aligned@.len(),
            word < k <= total,
            aligned@[word as int] is None,
            last_some(aligned@, word as int) is None,
            first_some(aligned@, word + 1) == first_some(aligned@, k as int),
        decreases total - k,
    {
        if aligned[k].is_some() {
            return aligned[k];
        }
        k += 1;
    }
    None
}

spec fn last_some(v: Seq<Option<usize>>, k: int) -> Option<usize>
    decreases k,
{
    if k <= 0 {
        None
    } else if v[k - 1] is Some {
        v[k - 1]
    } else {
        last_some(v, k - 1)
    }
}

spec fn first_some(v: Seq<Option<usize>>, k: int) -> Option<usize>
    decreases v.len() - k,
{
    if k >= v.len() {
        None
    } else if v[k] is Some {
        v[k]
    } else {
        first_some(v, k + 1)
    }
}

spec fn run_format<V>(runs: Seq<FormattedView<V>>, run: Option<usize>) -> Option<V> {
    match run {
        Some(r) => Some(runs[r as int].format),
        None => None,
    }
}

proof fn lemma_last_some<V>(
    runs: Seq<FormattedView<V>>,
    edges: Seq<(usize, usize)>,
    aligned: Seq<Option<usize>>,
    k: int,
)
    requires
        0 <= k <= aligned.len(),
        forall|j: int|
            0 <= j < aligned.len() ==> is_aligned_run(runs, edges, j, #[trigger] aligned[j]),
    ensures
        left_format(runs, edges, k) == run_format(runs, last_some(aligned, k)),
        last_some(aligned, k) matches Some(r) ==> r < runs.len(),
    decreases k,
{
    if k > 0 {
        assert(is_aligned_run(runs, edges, k - 1, aligned[k - 1]));
        lemma_last_some(runs, edges, aligned, k - 1);
    }
}

proof fn lemma_first_some<V>(
    runs: Seq<FormattedView<V>>,
    edges: Seq<(usize, usize)>,
    aligned: Seq<Option<usize>>,
    k: int,
)
    requires
        0 <= k <= aligned.len(),
        forall|j: int|
            0 <= j < aligned.len() ==> is_aligned_run(runs, edges, j, #[trigger] aligned[j]),
    ensures
        right_format(runs, edges, k, aligned.len() as int) == run_format(
            runs,
            first_some(aligned, k),
        ),
        first_some(aligned, k) matches Some(r) ==> r < runs.len(),
    decreases aligned.len() - k,
{
    if k < aligned.len() {
        assert(is_aligned_run(runs, edges, k, aligned[k]));
        lemma_first_some(runs, edges, aligned, k + 1);
    }
}

/// The format of a word of the translation.
fn format_of_word<'a, F: View>(
    runs: &'a [SourceRun<F>],
    aligned: &Vec<Option<usize>>,
    fallback: Option<&'a F>,
    word: usize,
    edges: &[(usize, usize)],
) -> (r: Option<&'a F>)
    requires
        word < aligned@.len(),
        forall|k: int|
            0 <= k < aligned@.len() ==> is_aligned_run(
                source_view(runs@),
                edges@,
                k,
                #[trigger] aligned@[k],
            ),
    ensures
        ({
            let want = word_format(
                source_view(runs@),
                edges@,
                ref_view(fallback),
                word as int,
                aligned@.len() as int,
            );
            match r {
                Some(f) => want == Some(f@),
                None => want is None,
            }
        }),
{
    proof {
        let all = source_view(runs@);
        assert(is_aligned_run(all, edges@, word as int, aligned@[word as int]));
        lemma_last_some(all, edges@, aligned@, word as int);
        lemma_first_some(all, edges@, aligned@, word + 1);
    }
    match run_for_word(aligned, word) {
        Some(r) => {
            assert(source_view(runs@)[r as int] == runs@[r as int]@);
            Some(&runs[r].format_id)
        },
        None => fallback,
    }
}

/// An optional format that is borrowed.
spec fn ref_view<F: View>(f: Option<&F>) -> Option<F::V> {
    match f {
        Some(f) => Some(f@),
        None => None,
    }
}

/// The format of a word where no word is aligned.
fn find_fallback<'a, F: View>(runs: &'a [SourceRun<F>], default_format: &'a Option<F>) -> (r: Option<
    &'a F,
>)
    ensures
        ref_view(r) == fallback_format(source_view(runs@), format_view(*default_format)),
{
    match default_format {
        Some(f) => Some(f),
        None => {
            if runs.len() > 0 {
                assert(source_view(runs@)[0] == runs@[0]@);
                Some(&runs[0].format_id)
            } else {
                None
            }
        },
    }
}

/// An optional format.
pub open spec fn format_view<F: View>(f: Option<F>) -> Option<F::V> {
    match f {
        Some(f) => Some(f@),
        None => None,
    }
}

/// Adds a piece: to the last run where it has the same format.
fn push_or_merge<F: View + Clone + PartialEq>(
    out: &mut Vec<TargetRun<F>>,
    chunk: &[char],
    fmt: &F,
)
    requires
        is_format_tag::<F>(),
    ensures
        target_view(final(out)@) == with_piece(target_view(old(out)@), chunk@, fmt@),
{
    let ghost before = target_view(out@);
    let n: usize = out.len();
    if n > 0 {
        assert(before.last() == out@.last()@);
        if out[n - 1].format_id == *fmt {
            let ghost rest = out@.drop_last();
            let mut last = out.pop().unwrap();
            last.text.append(&string_of(chunk));
            out.push(last);
            assert(target_view(out@) =~= with_piece(before, chunk@, fmt@));
            return;
        }
    }
    let copy = fmt.clone();
    assert(cloned(*fmt, copy));
    out.push(TargetRun { text: string_of(chunk), format_id: copy });
    assert(target_view(out@) =~= with_piece(before, chunk@, fmt@));
}

/// Adds a piece to the last run.
fn push_to_last<F: View>(out: &mut Vec<TargetRun<F>>, chunk: &[char])
    requires
        old(out)@.len() > 0,
    ensures
        target_view(final(out)@) == with_piece(
            target_view(old(out)@),
            chunk@,
            target_view(old(out)@).last().format,
        ),
{
    let ghost before = target_view(out@);
    assert(before.last() == out@.last()@);
    let mut last = out.pop().unwrap();
    last.text.append(&string_of(chunk));
    out.push(last);
    assert(target_view(out@) =~= with_piece(before, chunk@, before.last().format));
}

/// The runs of a translation, in order, given the runs of the source and the edges between
/// source words and words of the translation.
pub fn transfer_format_via_words<F: View + Clone + PartialEq>(
    source_runs: &[SourceRun<F>],
    translated_text: &str,
    word_edges: &[(usize, usize)],
    default_format: Option<F>,
) -> (r: Vec<TargetRun<F>>)
    requires
        is_format_tag::<F>(),
    ensures
        target_view(r@) == transferred(
            source_view(source_runs@),
            translated_text@,
            word_edges@,
            format_view(default_format),
        ),
{
    let ghost runs = source_view(source_runs@);
    let usual = find_fallback(source_runs, &default_format);
    let ghost fallback = ref_view(usual);
    let target = chars_of(translated_text);
    let spans = words(&target);
    let n: usize = spans.len();
    let aligned = aligned_runs(source_runs, word_edges, n);
    proof {
        law_words_in_order(target@);
    }
    let ghost places = word_spans(target@);
    assert(places.len() == n);
    let mut out: Vec<TargetRun<F>> = Vec::new();
    let mut cursor: usize = 0;
    let mut k: usize = 0;
    assert(target_view(out@) =~= Seq::empty());
    while k < n
        invariant
            k <= n,
            n == spans@.len(),
            n == aligned@.len(),
            n == places.len(),
            is_format_tag::<F>(),
            runs == source_view(source_runs@),
            fallback == ref_view(usual),
            target@ == translated_text@,
            places == word_spans(target@),
            places == spans_view(spans@),
            spans_in_order(places, target@.len() as int),
            forall|j: int|
                0 <= j < aligned@.len() ==> is_aligned_run(
                    runs,
                    word_edges@,
                    j,
                    #[trigger] aligned@[j],
                ),
            cursor == end_before(places, k as int),
            cursor <= target@.len(),
            target_view(out@) == runs_upto(
                runs,
                translated_text@,
                word_edges@,
                fallback,
                k as int,
            ),
        decreases n - k,
    {
        let start: usize = spans[k].0;
        let end: usize = spans[k].1;
        proof {
            assert(places[k as int] == (start as int, end as int));
            if k > 0 {
                assert(places[k - 1].1 <= places[k as int].0);
            }
        }
        let format = format_of_word(source_runs, &aligned, usual, k, word_edges);
        if let Some(f) = format {
            let gap = vstd::slice::slice_subrange(target.as_slice(), cursor, start);
            if gap.len() > 0 {
                if out.len() > 0 {
                    push_to_last(&mut out, gap);
                } else {
                    push_or_merge(&mut out, gap, f);
                }
            }
            let word = vstd::slice::slice_subrange(target.as_slice(), start, end);
            push_or_merge(&mut out, word, f);
        }
        cursor = end;
        k += 1;
    }
    let rest = vstd::slice::slice_subrange(target.as_slice(), cursor, target.len());
    if rest.len() > 0 {
        if out.len() > 0 {
            push_to_last(&mut out, rest);
        } else if let Some(f) = usual {
            push_or_merge(&mut out, rest, f);
        }
    }
    out
}

// ---------------------------------------------------------------------------
// Translated runs
// ---------------------------------------------------------------------------

/// The runs of a translation, with the alignment that they were made by.
#[derive(Debug)]
pub struct TranslatedRuns<F> {
    /// The runs of the translation.
    pub runs: Vec<TargetRun<F>>,
    /// The edges between source words and words of the translation.
    pub word_edges: Vec<(usize, usize)>,
    /// The words of the source.
    pub src_words: Vec<String>,
    /// The words of the translation.
    pub tgt_words: Vec<String>,
}

/// The texts of words.
pub open spec fn word_texts(words: Seq<WordGroup>) -> Seq<Seq<char>> {
    words.map_values(|w: WordGroup| w.text@)
}

fn texts_of(words: &Vec<WordGroup>) -> (r: Vec<String>)
    ensures
        texts_view(r@) == word_texts(words@),
{
    let mut r: Vec<String> = Vec::new();
    let mut i: usize = 0;
    assert(texts_view(r@) =~= word_texts(words@).take(0));
    while i < words.len()
        invariant
            i <= words@.len(),
            texts_view(r@) == word_texts(words@).take(i as int),
        decreases words@.len() - i,
    {
        let ghost before = texts_view(r@);
        let text = words[i].text.as_str().to_owned();
        r.push(text);
        assert(texts_view(r@) =~= before.push(text@));
        i += 1;
        assert(texts_view(r@) =~= word_texts(words@).take(i as int));
    }
    assert(word_texts(words@).take(i as int) =~= word_texts(words@));
    r
}

/// Transfers the formatting of runs to a translation that is aligned with their text.
pub fn translate_runs<F: View + Clone + PartialEq>(
    source_runs: &[SourceRun<F>],
    translated_text: &str,
    alignment: TextAlignment,
    default_format: Option<F>,
) -> (r: TranslatedRuns<F>)
    requires
        is_format_tag::<F>(),
    ensures
        target_view(r.runs@) == transferred(
            source_view(source_runs@),
            translated_text@,
            alignment.word_edges@,
            format_view(default_format),
        ),
        r.word_edges == alignment.word_edges,
        texts_view(r.src_words@) == word_texts(alignment.src_words@),
        texts_view(r.tgt_words@) == word_texts(alignment.tgt_words@),
{
    let runs = transfer_format_via_words(
        source_runs,
        translated_text,
        &alignment.word_edges,
        default_format,
    );
    let src_words = texts_of(&alignment.src_words);
    let tgt_words = texts_of(&alignment.tgt_words);
    TranslatedRuns { runs, word_edges: alignment.word_edges, src_words, tgt_words }
}

} // verus!
