//! Alignment of two texts, given their tokens and the similarities between them.

use vstd::prelude::*;

use crate::align::algorithm::{
    extract_edges, extracted_edges, AlignmentEdge, Strategy, NO_SIM,
};
use crate::align::errors::Error;
use crate::align::subword::{
    group_subwords_to_words, grouped, words_view, TokenizerKind, WordGroup, WordView,
};
use crate::paragraph_text::texts_view;

verus! {

/// The alignment of two texts, between their tokens and between their words.
#[derive(Debug)]
pub struct TextAlignment {
    /// The tokens of the source, with their markers.
    pub src_tokens: Vec<String>,
    /// The tokens of the target.
    pub tgt_tokens: Vec<String>,
    /// The words of the source.
    pub src_words: Vec<WordGroup>,
    /// The words of the target.
    pub tgt_words: Vec<WordGroup>,
    /// The edges between tokens.
    pub edges: Vec<AlignmentEdge>,
    /// The edges between words: those that some edge between their tokens connects.
    pub word_edges: Vec<(usize, usize)>,
}

/// The word among the first `k` that has a token; the last where several have it.
pub open spec fn word_of(words: Seq<WordView>, token: usize, k: int) -> Option<int>
    decreases k,
{
    if k <= 0 {
        None
    } else if words[k - 1].tokens.contains(token) {
        Some(k - 1)
    } else {
        word_of(words, token, k - 1)
    }
}

/// The words that an edge connects. An edge of a special token connects none.
pub open spec fn word_edge(src: Seq<WordView>, tgt: Seq<WordView>, e: AlignmentEdge) -> Option<
    (usize, usize),
> {
    match (word_of(src, e.src, src.len() as int), word_of(tgt, e.tgt, tgt.len() as int)) {
        (Some(s), Some(t)) => Some((s as usize, t as usize)),
        _ => None,
    }
}

/// The edges between words for the first `k` edges between tokens, each once, in the order
/// of their first occurrence.
pub open spec fn collapsed(
    src: Seq<WordView>,
    tgt: Seq<WordView>,
    edges: Seq<AlignmentEdge>,
    k: int,
) -> Seq<(usize, usize)>
    decreases k,
{
    if k <= 0 {
        Seq::empty()
    } else {
        let before = collapsed(src, tgt, edges, k - 1);
        match word_edge(src, tgt, edges[k - 1]) {
            Some(e) => if before.contains(e) {
                before
            } else {
                before.push(e)
            },
            None => before,
        }
    }
}

fn has_token(tokens: &Vec<usize>, token: usize) -> (r: bool)
    ensures
        r == tokens@.contains(token),
{
    let mut i: usize = 0;
    while i < tokens.len()
        invariant
            i <= tokens@.len(),
            forall|j: int| 0 <= j < i ==> tokens@[j] != token,
        decreases tokens@.len() - i,
    {
        if tokens[i] == token {
            return true;
        }
        i += 1;
    }
    false
}

fn find_word(words: &Vec<WordGroup>, token: usize) -> (r: Option<usize>)
    ensures
        match r {
            Some(i) => word_of(words_view(words@), token, words@.len() as int) == Some(i as int),
            None => word_of(words_view(words@), token, words@.len() as int) is None,
        },
{
    let mut k: usize = words.len();
    while k > 0
        invariant
            k <= words@.len(),
            word_of(words_view(words@), token, words@.len() as int) == word_of(
                words_view(words@),
                token,
                k as int,
            ),
        decreases k,
    {
        assert(words_view(words@)[k - 1] == words@[k - 1]@);
        k -= 1;
        if has_token(&words[k].token_indices, token) {
            return Some(k);
        }
    }
    None
}

fn has_pair(pairs: &Vec<(usize, usize)>, s: usize, t: usize) -> (r: bool)
    ensures
        r == pairs@.contains((s, t)),
{
    let mut i: usize = 0;
    while i < pairs.len()
        invariant
            i <= pairs@.len(),
            forall|j: int| 0 <= j < i ==> pairs@[j] != (s, t),
        decreases pairs@.len() - i,
    {
        if pairs[i].0 == s && pairs[i].1 == t {
            assert(pairs@[i as int] == (s, t));
            return true;
        }
        i += 1;
    }
    false
}

/// The edges between words for the edges between tokens.
pub fn collapse_edges(
    src_words: &Vec<WordGroup>,
    tgt_words: &Vec<WordGroup>,
    edges: &Vec<AlignmentEdge>,
) -> (r: Vec<(usize, usize)>)
    ensures
        r@ == collapsed(
            words_view(src_words@),
            words_view(tgt_words@),
            edges@,
            edges@.len() as int,
        ),
{
    let mut r: Vec<(usize, usize)> = Vec::new();
    let mut i: usize = 0;
    while i < edges.len()
        invariant
            i <= edges@.len(),
            r@ == collapsed(words_view(src_words@), words_view(tgt_words@), edges@, i as int),
        decreases edges@.len() - i,
    {
        let s = find_word(src_words, edges[i].src);
        let t = find_word(tgt_words, edges[i].tgt);
        if let (Some(s), Some(t)) = (s, t) {
            if !has_pair(&r, s, t) {
                r.push((s, t));
            }
        }
        i += 1;
    }
    r
}

/// The edges between words hold no pair twice.
pub proof fn law_word_edges_are_distinct(
    src: Seq<WordView>,
    tgt: Seq<WordView>,
    edges: Seq<AlignmentEdge>,
    k: int,
)
    requires
        0 <= k <= edges.len(),
    ensures
        collapsed(src, tgt, edges, k).no_duplicates(),
    decreases k,
{
    if k > 0 {
        law_word_edges_are_distinct(src, tgt, edges, k - 1);
    }
}

/// A pair of words is connected exactly where some edge between tokens connects them.
pub proof fn law_word_edges_are_connected(
    src: Seq<WordView>,
    tgt: Seq<WordView>,
    edges: Seq<AlignmentEdge>,
    k: int,
    pair: (usize, usize),
)
    requires
        0 <= k <= edges.len(),
    ensures
        collapsed(src, tgt, edges, k).contains(pair) <==> exists|i: int|
            0 <= i < k && #[trigger] word_edge(src, tgt, edges[i]) == Some(pair),
    decreases k,
{
    if k > 0 {
        law_word_edges_are_connected(src, tgt, edges, k - 1, pair);
        let before = collapsed(src, tgt, edges, k - 1);
        let after = collapsed(src, tgt, edges, k);
        let e = word_edge(src, tgt, edges[k - 1]);
        if before.contains(pair) {
            let p = choose|p: int| 0 <= p < before.len() && before[p] == pair;
            assert(after[p] == pair);
            let i = choose|i: int|
                0 <= i < k - 1 && #[trigger] word_edge(src, tgt, edges[i]) == Some(pair);
            assert(word_edge(src, tgt, edges[i]) == Some(pair));
        }
        if e == Some(pair) && !before.contains(pair) {
            assert(after[before.len() as int] == pair);
        }
        if after.contains(pair) && !before.contains(pair) {
            let p = choose|p: int| 0 <= p < after.len() && after[p] == pair;
            assert(p == before.len()) by {
                if p < before.len() {
                    assert(before[p] == pair);
                }
            }
            assert(e == Some(pair));
        }
    }
}

/// Aligns two texts, given their tokens and the similarities between them. A text without
/// tokens cannot be aligned.
pub fn align_tokens(
    src_tokens: Vec<String>,
    tgt_tokens: Vec<String>,
    kind: TokenizerKind,
    matrix: &[i64],
    strategy: Strategy,
) -> (res: Result<TextAlignment, Error>)
    requires
        src_tokens@.len() * tgt_tokens@.len() <= matrix@.len(),
        strategy matches Strategy::Itermax { min_sim } ==> min_sim > NO_SIM,
    ensures
        match res {
            Ok(a) => {
                &&& src_tokens@.len() > 0 && tgt_tokens@.len() > 0
                &&& a.src_tokens == src_tokens
                &&& a.tgt_tokens == tgt_tokens
                &&& words_view(a.src_words@) == grouped(
                    texts_view(src_tokens@),
                    kind,
                    src_tokens@.len() as int,
                )
                &&& words_view(a.tgt_words@) == grouped(
                    texts_view(tgt_tokens@),
                    kind,
                    tgt_tokens@.len() as int,
                )
                &&& a.edges@ == extracted_edges(
                    matrix@,
                    src_tokens@.len() as int,
                    tgt_tokens@.len() as int,
                    strategy,
                )
                &&& a.word_edges@ == collapsed(
                    words_view(a.src_words@),
                    words_view(a.tgt_words@),
                    a.edges@,
                    a.edges@.len() as int,
                )
            },
            Err(e) => if src_tokens@.len() == 0 {
                e == Error::Untokenizable("source text")
            } else {
                tgt_tokens@.len() == 0 && e == Error::Untokenizable("target text")
            },
        },
{
    if src_tokens.len() == 0 {
        return Err(Error::Untokenizable("source text"));
    }
    if tgt_tokens.len() == 0 {
        return Err(Error::Untokenizable("target text"));
    }
    let edges = extract_edges(matrix, src_tokens.len(), tgt_tokens.len(), strategy);
    let src_words = group_subwords_to_words(&src_tokens, kind);
    let tgt_words = group_subwords_to_words(&tgt_tokens, kind);
    let word_edges = collapse_edges(&src_words, &tgt_words, &edges);
    Ok(TextAlignment { src_tokens, tgt_tokens, src_words, tgt_words, edges, word_edges })
}

proof fn lemma_word_of(words: Seq<WordView>, token: usize, k: int, w: int)
    requires
        0 <= w < k <= words.len(),
        words[w].tokens.contains(token),
        forall|v: int| 0 <= v < k && v != w ==> !(#[trigger] words[v]).tokens.contains(token),
    ensures
        word_of(words, token, k) == Some(w),
    decreases k,
{
    if w < k - 1 {
        assert(!words[k - 1].tokens.contains(token));
        lemma_word_of(words, token, k - 1, w);
    }
}

/// An edge between two tokens connects the words that have them.
pub proof fn law_edges_connect_the_words_of_their_tokens(
    src: Seq<WordView>,
    tgt: Seq<WordView>,
    e: AlignmentEdge,
    s: int,
    t: int,
)
    requires
        src.len() <= usize::MAX,
        tgt.len() <= usize::MAX,
        0 <= s < src.len(),
        0 <= t < tgt.len(),
        src[s].tokens.contains(e.src),
        tgt[t].tokens.contains(e.tgt),
        forall|v: int| 0 <= v < src.len() && v != s ==> !(#[trigger] src[v]).tokens.contains(e.src),
        forall|v: int| 0 <= v < tgt.len() && v != t ==> !(#[trigger] tgt[v]).tokens.contains(e.tgt),
    ensures
        word_edge(src, tgt, e) == Some((s as usize, t as usize)),
{
    lemma_word_of(src, e.src, src.len() as int, s);
    lemma_word_of(tgt, e.tgt, tgt.len() as int, t);
}

} // verus!
