//! Which format each character of a translation has.

use vstd::prelude::*;

use crate::align::format_transfer::{
    aligned_format, aligned_source, chars_of_run, end_before, fallback_format, law_words_in_order,
    left_format, main_run, right_format, run_indices, runs_text, runs_upto, source_format,
    spans_in_order, spans_state, transferred, with_gap, with_piece, word_format, word_spans,
    FormattedView,
};

verus! {

// ---------------------------------------------------------------------------
// Words
// ---------------------------------------------------------------------------

/// A tabulator, a line feed, a form feed, a carriage return or a blank.
pub open spec fn is_blank(c: char) -> bool {
    let n = c as int;
    n == 9 || n == 10 || n == 12 || n == 13 || n == 32
}

/// The position is in one of the words.
pub open spec fn in_a_word(spans: Seq<(int, int)>, p: int) -> bool {
    exists|i: int| 0 <= i < spans.len() && (#[trigger] spans[i]).0 <= p < spans[i].1
}

proof fn lemma_spans(s: Seq<char>, n: int)
    requires
        0 <= n <= s.len(),
    ensures
        ({
            let st = spans_state(s, n);
            &&& forall|p: int|
                0 <= p < n ==> (in_a_word(st.done, p) || (st.start is Some && st.start->0 <= p)
                    <==> !is_blank(#[trigger] s[p]))
            &&& st.start matches Some(at) ==> 0 <= at < n
            &&& forall|i: int| 0 <= i < st.done.len() ==> 0 <= (#[trigger] st.done[i]).0
                < st.done[i].1 < n || st.done[i].1 == n
            &&& forall|i: int|
                0 <= i < st.done.len() ==> (#[trigger] st.done[i]).1 < n && is_blank(
                    s[st.done[i].1],
                )
            &&& forall|i: int, j: int|
                0 <= i < j < st.done.len() ==> (#[trigger] st.done[i]).1 < (#[trigger] st.done[j]).0
            &&& st.start matches Some(at) ==> forall|i: int|
                0 <= i < st.done.len() ==> (#[trigger] st.done[i]).1 < at
        }),
    decreases n,
{
    if n > 0 {
        lemma_spans(s, n - 1);
        let b = spans_state(s, n - 1);
        let st = spans_state(s, n);
        assert forall|i: int| 0 <= i < b.done.len() implies #[trigger] st.done[i] == b.done[i] by {}
        assert forall|p: int| 0 <= p < n implies (in_a_word(st.done, p) || (st.start is Some
            && st.start->0 <= p) <==> !is_blank(#[trigger] s[p])) by {
            if in_a_word(b.done, p) {
                let i = choose|i: int|
                    0 <= i < b.done.len() && (#[trigger] b.done[i]).0 <= p < b.done[i].1;
                assert(st.done[i].0 <= p < st.done[i].1);
            }
            if in_a_word(st.done, p) {
                let i = choose|i: int|
                    0 <= i < st.done.len() && (#[trigger] st.done[i]).0 <= p < st.done[i].1;
                if i < b.done.len() {
                    assert(b.done[i].0 <= p < b.done[i].1);
                }
            }
            if st.done.len() > b.done.len() {
                let i = b.done.len() as int;
                if b.start->0 <= p < n - 1 {
                    assert(st.done[i].0 <= p < st.done[i].1);
                }
            }
        }
    }
}

/// The words of a text are its longest stretches without white space: a position is in a word
/// exactly where no white space stands, and white space stands between two words.
pub proof fn law_words_are_what_white_space_separates(s: Seq<char>)
    ensures
        spans_in_order(word_spans(s), s.len() as int),
        forall|p: int|
            0 <= p < s.len() ==> (in_a_word(word_spans(s), p) <==> !is_blank(#[trigger] s[p])),
        forall|i: int, j: int|
            0 <= i < j < word_spans(s).len() ==> (#[trigger] word_spans(s)[i]).1 < (
            #[trigger] word_spans(s)[j]).0,
{
    let n = s.len() as int;
    law_words_in_order(s);
    lemma_spans(s, n);
    let st = spans_state(s, n);
    let w = word_spans(s);
    assert forall|i: int| 0 <= i < st.done.len() implies #[trigger] w[i] == st.done[i] by {}
    assert forall|p: int| 0 <= p < s.len() implies (in_a_word(w, p) <==> !is_blank(
        #[trigger] s[p],
    )) by {
        if in_a_word(st.done, p) {
            let i = choose|i: int|
                0 <= i < st.done.len() && (#[trigger] st.done[i]).0 <= p < st.done[i].1;
            assert(w[i].0 <= p < w[i].1);
        }
        if st.start is Some && st.start->0 <= p {
            assert(w[st.done.len() as int].0 <= p < w[st.done.len() as int].1);
        }
        if in_a_word(w, p) {
            let i = choose|i: int| 0 <= i < w.len() && (#[trigger] w[i]).0 <= p < w[i].1;
            if i < st.done.len() {
                assert(st.done[i].0 <= p < st.done[i].1);
            }
        }
    }
}

// ---------------------------------------------------------------------------
// Formats of source words
// ---------------------------------------------------------------------------

/// How many characters the first `k` runs have.
pub open spec fn chars_before<V>(runs: Seq<FormattedView<V>>, k: int) -> int
    decreases k,
{
    if k <= 0 {
        0
    } else {
        chars_before(runs, k - 1) + runs[k - 1].text.len()
    }
}

/// How many of the characters from `a` to `b` stand in a run.
pub open spec fn share<V>(runs: Seq<FormattedView<V>>, run: int, a: int, b: int) -> int {
    let from = chars_before(runs, run);
    let to = chars_before(runs, run + 1);
    let first = if a < from {
        from
    } else {
        a
    };
    let last = if b < to {
        b
    } else {
        to
    };
    if first < last {
        last - first
    } else {
        0
    }
}

proof fn lemma_indices<V>(runs: Seq<FormattedView<V>>, k: int)
    requires
        0 <= k <= runs.len(),
    ensures
        run_indices(runs, k).len() == chars_before(runs, k),
        runs_text(runs, k).len() == chars_before(runs, k),
        forall|p: int, r: int|
            0 <= p < chars_before(runs, k) && 0 <= r < k ==> (#[trigger] run_indices(runs, k)[p]
                == r <==> #[trigger] chars_before(runs, r) <= p < chars_before(runs, r + 1)),
        forall|p: int|
            0 <= p < chars_before(runs, k) ==> 0 <= #[trigger] run_indices(runs, k)[p] < k,
    decreases k,
{
    if k > 0 {
        lemma_indices(runs, k - 1);
        let before = run_indices(runs, k - 1);
        let all = run_indices(runs, k);
        assert forall|p: int, r: int|
            0 <= p < chars_before(runs, k) && 0 <= r < k implies (#[trigger] all[p] == r
            <==> #[trigger] chars_before(runs, r) <= p < chars_before(runs, r + 1)) by {
            if p < before.len() {
                assert(all[p] == before[p]);
                if r < k - 1 {
                    assert(before[p] == r <==> chars_before(runs, r) <= p < chars_before(
                        runs,
                        r + 1,
                    ));
                }
            } else {
                assert(all[p] == k - 1);
                lemma_chars_grow(runs, r + 1, k - 1);
            }
        }
        assert forall|p: int| 0 <= p < chars_before(runs, k) implies 0 <= #[trigger] all[p] < k by {
            if p < before.len() {
                assert(all[p] == before[p]);
            }
        }
    }
}

proof fn lemma_chars_grow<V>(runs: Seq<FormattedView<V>>, a: int, b: int)
    ensures
        a <= b ==> chars_before(runs, a) <= chars_before(runs, b),
        0 <= chars_before(runs, b),
    decreases b,
{
    if b > 0 {
        lemma_chars_grow(runs, a, b - 1);
    }
}

proof fn lemma_share<V>(runs: Seq<FormattedView<V>>, run: int, a: int, b: int)
    requires
        0 <= run < runs.len(),
        0 <= a <= b <= chars_before(runs, runs.len() as int),
    ensures
        chars_of_run(run_indices(runs, runs.len() as int), a, b, run) == share(runs, run, a, b),
    decreases b - a,
{
    lemma_chars_grow(runs, run, run + 1);
    if a < b {
        let n = runs.len() as int;
        lemma_share(runs, run, a, b - 1);
        lemma_indices(runs, n);
        assert(run_indices(runs, n)[b - 1] == run <==> chars_before(runs, run) <= b - 1
            < chars_before(runs, run + 1));
    }
}

proof fn lemma_main_run<V>(runs: Seq<FormattedView<V>>, a: int, b: int, k: int)
    requires
        1 <= k <= runs.len(),
        0 <= a <= b <= chars_before(runs, runs.len() as int),
    ensures
        ({
            let r = main_run(run_indices(runs, runs.len() as int), a, b, k);
            &&& 0 <= r < k
            &&& forall|q: int| 0 <= q < k ==> #[trigger] share(runs, q, a, b) <= share(runs, r, a, b)
            &&& forall|q: int|
                r < q < k ==> #[trigger] share(runs, q, a, b) < share(runs, r, a, b)
        }),
    decreases k,
{
    let indices = run_indices(runs, runs.len() as int);
    if k > 1 {
        lemma_main_run(runs, a, b, k - 1);
        let best = main_run(indices, a, b, k - 1);
        lemma_share(runs, best, a, b);
        lemma_share(runs, k - 1, a, b);
    }
}

/// A word of the source has the format of the run that holds more of its characters than any
/// later run, and no fewer than any earlier one.
pub proof fn law_source_words_have_the_format_of_most_of_them<V>(
    runs: Seq<FormattedView<V>>,
    word: int,
)
    requires
        0 <= word < word_spans(runs_text(runs, runs.len() as int)).len(),
    ensures
        exists|r: int|
            #![trigger runs[r]]
            {
                let span = word_spans(runs_text(runs, runs.len() as int))[word];
                &&& 0 <= r < runs.len()
                &&& source_format(runs, word) == runs[r].format
                &&& forall|q: int|
                    0 <= q < runs.len() ==> #[trigger] share(runs, q, span.0, span.1) <= share(
                        runs,
                        r,
                        span.0,
                        span.1,
                    )
                &&& forall|q: int|
                    r < q < runs.len() ==> #[trigger] share(runs, q, span.0, span.1) < share(
                        runs,
                        r,
                        span.0,
                        span.1,
                    )
            },
{
    let n = runs.len() as int;
    let text = runs_text(runs, n);
    law_words_in_order(text);
    lemma_indices(runs, n);
    let span = word_spans(text)[word];
    assert(span.0 < span.1 <= text.len());
    assert(n > 0);
    lemma_main_run(runs, span.0, span.1, n);
    let r = main_run(run_indices(runs, n), span.0, span.1, n);
    assert(source_format(runs, word) == runs[r].format);
}

/// The text of the source is that of its runs, one after the other.
pub proof fn law_source_is_the_text_of_its_runs<V>(runs: Seq<FormattedView<V>>, k: int, p: int)
    requires
        0 <= k < runs.len(),
        0 <= p < runs[k].text.len(),
    ensures
        ({
            let text = runs_text(runs, runs.len() as int);
            &&& text.len() == chars_before(runs, runs.len() as int)
            &&& text[chars_before(runs, k) + p] == runs[k].text[p]
        }),
{
    lemma_text_at(runs, runs.len() as int, k, p);
    lemma_indices(runs, runs.len() as int);
}

proof fn lemma_text_at<V>(runs: Seq<FormattedView<V>>, n: int, k: int, p: int)
    requires
        0 <= k < n <= runs.len(),
        0 <= p < runs[k].text.len(),
    ensures
        runs_text(runs, n)[chars_before(runs, k) + p] == runs[k].text[p],
    decreases n,
{
    lemma_indices(runs, n - 1);
    lemma_chars_grow(runs, k + 1, n - 1);
    lemma_chars_grow(runs, k, k);
    if k < n - 1 {
        lemma_text_at(runs, n - 1, k, p);
    }
}

// ---------------------------------------------------------------------------
// Formats of the words of a translation
// ---------------------------------------------------------------------------

/// An edge leads to the word from a word of the source.
pub open spec fn is_edge_to(edge: (usize, usize), sources: int, word: int) -> bool {
    edge.1 == word && edge.0 < sources
}

/// The word is aligned with a word of the source.
pub open spec fn is_aligned(edges: Seq<(usize, usize)>, sources: int, word: int) -> bool {
    exists|i: int| 0 <= i < edges.len() && is_edge_to(#[trigger] edges[i], sources, word)
}

/// How many words the source has.
pub open spec fn source_words<V>(runs: Seq<FormattedView<V>>) -> int {
    word_spans(runs_text(runs, runs.len() as int)).len() as int
}

proof fn lemma_aligned(edges: Seq<(usize, usize)>, sources: int, word: int, from: int)
    requires
        0 <= from,
    ensures
        match aligned_source(edges, sources, word, from) {
            Some(s) => exists|i: int|
                from <= i < edges.len() && is_edge_to(#[trigger] edges[i], sources, word)
                    && edges[i].0 == s && forall|j: int|
                    from <= j < i ==> !is_edge_to(#[trigger] edges[j], sources, word),
            None => forall|i: int|
                from <= i < edges.len() ==> !is_edge_to(#[trigger] edges[i], sources, word),
        },
    decreases edges.len() - from,
{
    if from < edges.len() {
        if is_edge_to(edges[from], sources, word) {
            assert(edges[from].0 == aligned_source(edges, sources, word, from)->0);
        } else {
            lemma_aligned(edges, sources, word, from + 1);
            if let Some(s) = aligned_source(edges, sources, word, from + 1) {
                let i = choose|i: int|
                    from + 1 <= i < edges.len() && is_edge_to(#[trigger] edges[i], sources, word)
                        && edges[i].0 == s && forall|j: int|
                        from + 1 <= j < i ==> !is_edge_to(#[trigger] edges[j], sources, word);
                assert(is_edge_to(edges[i], sources, word));
            }
        }
    }
}

/// A word with an edge has the format of the source word that its first edge comes from.
pub proof fn law_aligned_words<V>(
    runs: Seq<FormattedView<V>>,
    edges: Seq<(usize, usize)>,
    default_format: Option<V>,
    word: int,
    total: int,
    i: int,
)
    requires
        0 <= i < edges.len(),
        is_edge_to(edges[i], source_words(runs), word),
        forall|j: int| 0 <= j < i ==> !is_edge_to(#[trigger] edges[j], source_words(runs), word),
    ensures
        word_format(runs, edges, default_format, word, total) == Some(
            source_format(runs, edges[i].0 as int),
        ),
{
    lemma_aligned(edges, source_words(runs), word, 0);
}

proof fn lemma_is_aligned<V>(runs: Seq<FormattedView<V>>, edges: Seq<(usize, usize)>, word: int)
    ensures
        aligned_format(runs, edges, word) is Some <==> is_aligned(edges, source_words(runs), word),
{
    lemma_aligned(edges, source_words(runs), word, 0);
}

proof fn lemma_left<V>(runs: Seq<FormattedView<V>>, edges: Seq<(usize, usize)>, j: int, word: int)
    requires
        0 <= j < word,
        aligned_format(runs, edges, j) is Some,
        forall|k: int| j < k < word ==> #[trigger] aligned_format(runs, edges, k) is None,
    ensures
        left_format(runs, edges, word) == aligned_format(runs, edges, j),
    decreases word - j,
{
    if j < word - 1 {
        assert(aligned_format(runs, edges, word - 1) is None);
        lemma_left(runs, edges, j, word - 1);
    }
}

proof fn lemma_no_left<V>(runs: Seq<FormattedView<V>>, edges: Seq<(usize, usize)>, word: int)
    requires
        forall|k: int| 0 <= k < word ==> #[trigger] aligned_format(runs, edges, k) is None,
    ensures
        left_format(runs, edges, word) is None,
    decreases word,
{
    if word > 0 {
        assert(aligned_format(runs, edges, word - 1) is None);
        lemma_no_left(runs, edges, word - 1);
    }
}

proof fn lemma_right<V>(
    runs: Seq<FormattedView<V>>,
    edges: Seq<(usize, usize)>,
    from: int,
    j: int,
    total: int,
)
    requires
        from <= j < total,
        aligned_format(runs, edges, j) is Some,
        forall|k: int| from <= k < j ==> #[trigger] aligned_format(runs, edges, k) is None,
    ensures
        right_format(runs, edges, from, total) == aligned_format(runs, edges, j),
    decreases j - from,
{
    if from < j {
        assert(aligned_format(runs, edges, from) is None);
        lemma_right(runs, edges, from + 1, j, total);
    }
}

proof fn lemma_no_right<V>(
    runs: Seq<FormattedView<V>>,
    edges: Seq<(usize, usize)>,
    from: int,
    total: int,
)
    requires
        forall|k: int| from <= k < total ==> #[trigger] aligned_format(runs, edges, k) is None,
    ensures
        right_format(runs, edges, from, total) is None,
    decreases total - from,
{
    if from < total {
        assert(aligned_format(runs, edges, from) is None);
        lemma_no_right(runs, edges, from + 1, total);
    }
}

/// A word without an edge has the format of the nearest aligned word before it.
pub proof fn law_nearest_word_before<V>(
    runs: Seq<FormattedView<V>>,
    edges: Seq<(usize, usize)>,
    default_format: Option<V>,
    j: int,
    word: int,
    total: int,
)
    requires
        0 <= j < word < total,
        is_aligned(edges, source_words(runs), j),
        forall|k: int| j < k <= word ==> !#[trigger] is_aligned(edges, source_words(runs), k),
    ensures
        word_format(runs, edges, default_format, word, total) == word_format(
            runs,
            edges,
            default_format,
            j,
            total,
        ),
{
    lemma_is_aligned(runs, edges, j);
    lemma_is_aligned(runs, edges, word);
    assert(!is_aligned(edges, source_words(runs), word));
    assert forall|k: int| j < k < word implies #[trigger] aligned_format(runs, edges, k) is None by {
        assert(!is_aligned(edges, source_words(runs), k));
        lemma_is_aligned(runs, edges, k);
    }
    lemma_left(runs, edges, j, word);
}

/// A word without an edge and without an aligned word before it has the format of the nearest
/// aligned word after it.
pub proof fn law_nearest_word_after<V>(
    runs: Seq<FormattedView<V>>,
    edges: Seq<(usize, usize)>,
    default_format: Option<V>,
    word: int,
    j: int,
    total: int,
)
    requires
        0 <= word < j < total,
        is_aligned(edges, source_words(runs), j),
        forall|k: int| 0 <= k < j ==> !#[trigger] is_aligned(edges, source_words(runs), k),
    ensures
        word_format(runs, edges, default_format, word, total) == word_format(
            runs,
            edges,
            default_format,
            j,
            total,
        ),
{
    lemma_is_aligned(runs, edges, j);
    assert forall|k: int| 0 <= k < j implies #[trigger] aligned_format(runs, edges, k) is None by {
        assert(!is_aligned(edges, source_words(runs), k));
        lemma_is_aligned(runs, edges, k);
    }
    assert(aligned_format(runs, edges, word) is None);
    lemma_no_left(runs, edges, word);
    lemma_right(runs, edges, word + 1, j, total);
}

/// Where no word is aligned, every word has the default format.
pub proof fn law_no_aligned_words<V>(
    runs: Seq<FormattedView<V>>,
    edges: Seq<(usize, usize)>,
    default_format: Option<V>,
    word: int,
    total: int,
)
    requires
        0 <= word < total,
        forall|k: int| 0 <= k < total ==> !#[trigger] is_aligned(edges, source_words(runs), k),
    ensures
        word_format(runs, edges, default_format, word, total) == default_format,
{
    assert forall|k: int| 0 <= k < total implies #[trigger] aligned_format(
        runs,
        edges,
        k,
    ) is None by {
        assert(!is_aligned(edges, source_words(runs), k));
        lemma_is_aligned(runs, edges, k);
    }
    assert(aligned_format(runs, edges, word) is None);
    lemma_no_left(runs, edges, word);
    lemma_no_right(runs, edges, word + 1, total);
}

// ---------------------------------------------------------------------------
// Formats of the characters of a translation
// ---------------------------------------------------------------------------

/// The format of each character of the first `k` runs.
pub open spec fn formats<V>(runs: Seq<FormattedView<V>>, k: int) -> Seq<V>
    decreases k,
{
    if k <= 0 {
        Seq::empty()
    } else {
        formats(runs, k - 1) + Seq::new(runs[k - 1].text.len(), |i: int| runs[k - 1].format)
    }
}

spec fn all_formats<V>(runs: Seq<FormattedView<V>>) -> Seq<V> {
    formats(runs, runs.len() as int)
}

proof fn lemma_formats_prefix<V>(a: Seq<FormattedView<V>>, b: Seq<FormattedView<V>>, k: int)
    requires
        0 <= k <= a.len(),
        k <= b.len(),
        forall|i: int| 0 <= i < k ==> a[i] == b[i],
    ensures
        formats(a, k) == formats(b, k),
    decreases k,
{
    if k > 0 {
        lemma_formats_prefix(a, b, k - 1);
    }
}

proof fn lemma_piece_formats<V>(out: Seq<FormattedView<V>>, piece: Seq<char>, format: V)
    ensures
        all_formats(with_piece(out, piece, format)) == all_formats(out) + Seq::new(
            piece.len(),
            |i: int| format,
        ),
{
    let after = with_piece(out, piece, format);
    let n = out.len() as int;
    if n > 0 && out.last().format == format {
        lemma_formats_prefix(after, out, n - 1);
        assert(all_formats(after) =~= all_formats(out) + Seq::new(piece.len(), |i: int| format));
    } else {
        lemma_formats_prefix(after, out, n);
        assert(all_formats(after) =~= all_formats(out) + Seq::new(piece.len(), |i: int| format));
    }
}

/// What the `k`-th word adds: white space with the format of what stands before it, or where
/// nothing does of the word, and the word with its own.
proof fn lemma_word_added<V>(
    runs: Seq<FormattedView<V>>,
    target: Seq<char>,
    edges: Seq<(usize, usize)>,
    default_format: Option<V>,
    k: int,
)
    requires
        default_format is Some,
        0 < k <= word_spans(target).len(),
    ensures
        ({
            let spans = word_spans(target);
            let before = runs_upto(runs, target, edges, default_format, k - 1);
            let out = runs_upto(runs, target, edges, default_format, k);
            let f = word_format(runs, edges, default_format, k - 1, spans.len() as int);
            let g = if before.len() > 0 {
                before.last().format
            } else {
                f->0
            };
            let from = end_before(spans, k - 1);
            &&& f is Some
            &&& 0 <= from <= spans[k - 1].0 < spans[k - 1].1 <= target.len()
            &&& out.len() > 0
            &&& out.last().format == f->0
            &&& all_formats(out) == all_formats(before) + Seq::new(
                (spans[k - 1].0 - from) as nat,
                |i: int| g,
            ) + Seq::new((spans[k - 1].1 - spans[k - 1].0) as nat, |i: int| f->0)
        }),
{
    let spans = word_spans(target);
    law_words_in_order(target);
    let before = runs_upto(runs, target, edges, default_format, k - 1);
    let f = word_format(runs, edges, default_format, k - 1, spans.len() as int)->0;
    let span = spans[k - 1];
    let from = end_before(spans, k - 1);
    if k > 1 {
        assert(spans[k - 2].1 <= span.0);
        assert(spans[k - 2].0 < spans[k - 2].1);
    }
    let gap = target.subrange(from, span.0);
    let word = target.subrange(span.0, span.1);
    let g = if before.len() > 0 {
        before.last().format
    } else {
        f
    };
    let mid = with_gap(before, gap, f);
    let gaps = Seq::new(gap.len(), |i: int| g);
    if gap.len() > 0 {
        lemma_piece_formats(before, gap, g);
    } else {
        assert(all_formats(before) + gaps =~= all_formats(before));
    }
    lemma_piece_formats(mid, word, f);
}

/// The word that a position belongs to: white space goes with the word before it, and what
/// stands before all words with the first.
pub open spec fn belongs_to(spans: Seq<(int, int)>, w: int, p: int) -> bool {
    &&& 0 <= w < spans.len()
    &&& w == 0 || spans[w].0 <= p
    &&& w + 1 < spans.len() ==> p < spans[w + 1].0
}

proof fn lemma_formatted_len<V>(
    runs: Seq<FormattedView<V>>,
    target: Seq<char>,
    edges: Seq<(usize, usize)>,
    default_format: Option<V>,
    k: int,
)
    requires
        default_format is Some,
        0 <= k <= word_spans(target).len(),
    ensures
        all_formats(runs_upto(runs, target, edges, default_format, k)).len() == end_before(
            word_spans(target),
            k,
        ),
    decreases k,
{
    if k > 0 {
        lemma_formatted_len(runs, target, edges, default_format, k - 1);
        lemma_word_added(runs, target, edges, default_format, k);
    }
}

proof fn lemma_formatted<V>(
    runs: Seq<FormattedView<V>>,
    target: Seq<char>,
    edges: Seq<(usize, usize)>,
    default_format: Option<V>,
    k: int,
    w: int,
    p: int,
)
    requires
        default_format is Some,
        0 <= k <= word_spans(target).len(),
        belongs_to(word_spans(target), w, p),
        0 <= p < end_before(word_spans(target), k),
    ensures
        Some(all_formats(runs_upto(runs, target, edges, default_format, k))[p]) == word_format(
            runs,
            edges,
            default_format,
            w,
            word_spans(target).len() as int,
        ),
    decreases k,
{
    let spans = word_spans(target);
    law_words_in_order(target);
    lemma_formatted_len(runs, target, edges, default_format, k - 1);
    lemma_word_added(runs, target, edges, default_format, k);
    let from = end_before(spans, k - 1);
    if p < from {
        lemma_formatted(runs, target, edges, default_format, k - 1, w, p);
    } else {
        if k > 1 {
            lemma_word_added(runs, target, edges, default_format, k - 1);
        }
        lemma_owner(spans, target.len() as int, k, w, p);
    }
}

proof fn lemma_owner(spans: Seq<(int, int)>, end: int, k: int, w: int, p: int)
    requires
        spans_in_order(spans, end),
        0 < k <= spans.len(),
        belongs_to(spans, w, p),
        end_before(spans, k - 1) <= p < spans[k - 1].1,
    ensures
        p >= spans[k - 1].0 || k == 1 ==> w == k - 1,
        p < spans[k - 1].0 && k > 1 ==> w == k - 2,
{
    if w > k - 1 {
        assert(spans[k - 1].1 <= spans[w].0);
    }
    if w < k - 2 {
        assert(spans[w + 1].1 <= spans[k - 2].0 || w + 1 == k - 2);
        assert(spans[w + 1].0 < spans[w + 1].1);
        assert(spans[k - 2].0 < spans[k - 2].1);
    }
}

/// The runs of a translation give every character of a word the format of the word, and white
/// space the format of the word before it, or of the first word. Where the translation is
/// white space alone it has the default format. The default is the one that is given, or else
/// the format of the first run of the source.
pub proof fn law_characters_have_the_formats_of_words<V>(
    runs: Seq<FormattedView<V>>,
    target: Seq<char>,
    edges: Seq<(usize, usize)>,
    default_format: Option<V>,
    p: int,
)
    requires
        default_format is Some || runs.len() > 0,
        0 <= p < target.len(),
    ensures
        ({
            let out = transferred(runs, target, edges, default_format);
            let f = formats(out, out.len() as int);
            let spans = word_spans(target);
            let n = spans.len() as int;
            let usual = if default_format is Some {
                default_format
            } else {
                Some(runs[0].format)
            };
            &&& f.len() == target.len()
            &&& n == 0 ==> Some(f[p]) == usual
            &&& forall|w: int| #[trigger]
                belongs_to(spans, w, p) ==> Some(f[p]) == word_format(runs, edges, usual, w, n)
        }),
{
    let spans = word_spans(target);
    let n = spans.len() as int;
    let usual = if default_format is Some {
        default_format
    } else {
        Some(runs[0].format)
    };
    assert(fallback_format(runs, default_format) == usual);
    law_words_in_order(target);
    let part = runs_upto(runs, target, edges, usual, n);
    let from = end_before(spans, n);
    let rest = target.subrange(from, target.len() as int);
    let out = transferred(runs, target, edges, default_format);
    let rest_format = if part.len() > 0 {
        part.last().format
    } else {
        usual->0
    };
    let tail = Seq::new(rest.len(), |i: int| rest_format);
    if rest.len() > 0 {
        lemma_piece_formats(part, rest, rest_format);
    } else {
        assert(all_formats(part) + tail =~= all_formats(part));
    }
    let f = all_formats(out);
    assert(f == all_formats(part) + tail);
    lemma_formatted_len(runs, target, edges, usual, n);
    if n > 0 {
        lemma_word_added(runs, target, edges, usual, n);
    }
    assert forall|w: int| #[trigger] belongs_to(spans, w, p) implies Some(f[p]) == word_format(
        runs,
        edges,
        usual,
        w,
        n,
    ) by {
        if p < from {
            lemma_formatted(runs, target, edges, usual, n, w, p);
        } else if w < n - 1 {
            if w + 1 < n - 1 {
                assert(spans[w + 1].1 <= spans[n - 1].0);
            }
            assert(spans[w + 1].0 < spans[w + 1].1);
        }
    }
}

} // verus!
