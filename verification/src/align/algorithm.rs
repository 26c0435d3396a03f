//! Extraction of an alignment from a similarity matrix.
//!
//! A matrix of `m` source tokens and `n` target tokens is laid out row by row. A
//! similarity is an integer: whatever the scale, only the order of the similarities
//! counts. [`NO_SIM`] stands below every similarity.

use vstd::prelude::*;

use crate::align::errors::Error;

verus! {

/// Below every similarity.
pub const NO_SIM: i64 = i64::MIN;

/// An edge of an alignment between two tokens.
#[derive(Debug, Clone, Copy, PartialEq, Eq, Structural)]
pub struct AlignmentEdge {
    /// The source token.
    pub src: usize,
    /// The target token.
    pub tgt: usize,
    /// Their similarity.
    pub sim: i64,
}

/// A way to extract an alignment.
#[derive(Debug, Clone, Copy, PartialEq, Eq, Structural)]
pub enum Strategy {
    /// Each source token with its most similar target token.
    ArgmaxSrcToTgt,
    /// Each target token with its most similar source token.
    ArgmaxTgtToSrc,
    /// The pairs that are each other's most similar token.
    Intersection,
    /// The most similar pair again and again, each token once.
    Itermax {
        /// Less similar pairs are left out.
        min_sim: i64,
    },
}

// ---------------------------------------------------------------------------
// Shape
// ---------------------------------------------------------------------------

/// The first row that has not `dim` entries, from `from` on.
pub open spec fn ragged_row(lens: Seq<usize>, dim: usize, from: int) -> Option<int>
    decreases lens.len() - from,
{
    if from >= lens.len() {
        None
    } else if lens[from] != dim {
        Some(from)
    } else {
        ragged_row(lens, dim, from + 1)
    }
}

/// The error for a ragged row.
pub open spec fn ragged(lens: Seq<usize>, dim: usize) -> Option<Error> {
    match ragged_row(lens, dim, 0) {
        Some(row) => Some(
            Error::Ragged { row: row as usize, got: lens[row], expected: dim },
        ),
        None => None,
    }
}

/// What is wrong with two embedding matrices, given the lengths of their rows.
pub open spec fn shape_error(src: Seq<usize>, tgt: Seq<usize>) -> Option<Error> {
    if src.len() == 0 || tgt.len() == 0 {
        Some(Error::Empty { src: src.len() as usize, tgt: tgt.len() as usize })
    } else if src[0] != tgt[0] {
        Some(Error::DimMismatch { src_dim: src[0], tgt_dim: tgt[0] })
    } else if ragged(src, src[0]) is Some {
        ragged(src, src[0])
    } else {
        ragged(tgt, src[0])
    }
}

fn find_ragged(lens: &[usize], dim: usize) -> (r: Option<Error>)
    ensures
        r == ragged(lens@, dim),
{
    let mut i: usize = 0;
    while i < lens.len()
        invariant
            i <= lens@.len(),
            ragged_row(lens@, dim, 0) == ragged_row(lens@, dim, i as int),
        decreases lens@.len() - i,
    {
        if lens[i] != dim {
            return Some(Error::Ragged { row: i, got: lens[i], expected: dim });
        }
        i += 1;
    }
    None
}

/// The common dimension of two embedding matrices, given the lengths of their rows.
pub fn check_shape(src: &[usize], tgt: &[usize]) -> (res: Result<usize, Error>)
    ensures
        match res {
            Ok(dim) => shape_error(src@, tgt@) is None && dim == src@[0],
            Err(e) => shape_error(src@, tgt@) == Some(e),
        },
{
    if src.len() == 0 || tgt.len() == 0 {
        return Err(Error::Empty { src: src.len(), tgt: tgt.len() });
    }
    let dim: usize = src[0];
    if dim != tgt[0] {
        return Err(Error::DimMismatch { src_dim: dim, tgt_dim: tgt[0] });
    }
    if let Some(e) = find_ragged(src, dim) {
        return Err(e);
    }
    if let Some(e) = find_ragged(tgt, dim) {
        return Err(e);
    }
    Ok(dim)
}

// ---------------------------------------------------------------------------
// Argmax
// ---------------------------------------------------------------------------

/// The similarity of source token `i` and target token `j`.
pub open spec fn cell(matrix: Seq<i64>, n: int, i: int, j: int) -> i64 {
    matrix[i * n + j]
}

/// The last of the most similar among the first `k` targets of source token `i`.
pub open spec fn best_target(matrix: Seq<i64>, n: int, i: int, k: int) -> int
    decreases k,
{
    if k <= 1 {
        0
    } else {
        let b = best_target(matrix, n, i, k - 1);
        if cell(matrix, n, i, k - 1) >= cell(matrix, n, i, b) {
            k - 1
        } else {
            b
        }
    }
}

/// The first of the most similar among the first `k` sources of target token `j`.
pub open spec fn best_source(matrix: Seq<i64>, n: int, j: int, k: int) -> int
    decreases k,
{
    if k <= 1 {
        0
    } else {
        let b = best_source(matrix, n, j, k - 1);
        if cell(matrix, n, k - 1, j) > cell(matrix, n, b, j) {
            k - 1
        } else {
            b
        }
    }
}

/// The edge between two tokens.
pub open spec fn edge(matrix: Seq<i64>, n: int, i: int, j: int) -> AlignmentEdge {
    AlignmentEdge { src: i as usize, tgt: j as usize, sim: cell(matrix, n, i, j) }
}

/// Each source token with the last of its most similar target tokens.
pub open spec fn source_edges(matrix: Seq<i64>, m: int, n: int) -> Seq<AlignmentEdge> {
    if n == 0 {
        Seq::empty()
    } else {
        Seq::new(m as nat, |i: int| edge(matrix, n, i, best_target(matrix, n, i, n)))
    }
}

/// Each target token with the first of its most similar source tokens. Without source
/// tokens the edges lead to token zero, with no similarity.
pub open spec fn target_edges(matrix: Seq<i64>, m: int, n: int) -> Seq<AlignmentEdge> {
    Seq::new(
        n as nat,
        |j: int|
            if m == 0 {
                AlignmentEdge { src: 0, tgt: j as usize, sim: NO_SIM }
            } else {
                edge(matrix, n, best_source(matrix, n, j, m), j)
            },
    )
}

proof fn lemma_cell_index(m: int, n: int, i: int, j: int)
    by (nonlinear_arith)
    requires
        0 <= i < m,
        0 <= j < n,
    ensures
        0 <= i * n <= i * n + j,
        i * n + j < m * n,
{
}

/// No target of `i` among the first `k` is more similar than the best, and none after the
/// best is as similar.
pub proof fn lemma_best_target(matrix: Seq<i64>, n: int, i: int, k: int)
    requires
        k >= 1,
    ensures
        0 <= best_target(matrix, n, i, k) < k,
        forall|j: int|
            0 <= j < k ==> #[trigger] cell(matrix, n, i, j) <= cell(
                matrix,
                n,
                i,
                best_target(matrix, n, i, k),
            ),
        forall|j: int|
            best_target(matrix, n, i, k) < j < k ==> #[trigger] cell(matrix, n, i, j) < cell(
                matrix,
                n,
                i,
                best_target(matrix, n, i, k),
            ),
    decreases k,
{
    if k > 1 {
        lemma_best_target(matrix, n, i, k - 1);
    }
}

/// No source of `j` among the first `k` is more similar than the best, and none before
/// the best is as similar.
pub proof fn lemma_best_source(matrix: Seq<i64>, n: int, j: int, k: int)
    requires
        k >= 1,
    ensures
        0 <= best_source(matrix, n, j, k) < k,
        forall|i: int|
            0 <= i < k ==> #[trigger] cell(matrix, n, i, j) <= cell(
                matrix,
                n,
                best_source(matrix, n, j, k),
                j,
            ),
        forall|i: int|
            0 <= i < best_source(matrix, n, j, k) ==> #[trigger] cell(matrix, n, i, j) < cell(
                matrix,
                n,
                best_source(matrix, n, j, k),
                j,
            ),
    decreases k,
{
    if k > 1 {
        lemma_best_source(matrix, n, j, k - 1);
    }
}

fn read_cell(matrix: &[i64], m: usize, n: usize, i: usize, j: usize) -> (v: i64)
    requires
        m * n <= matrix@.len(),
        i < m,
        j < n,
    ensures
        v == cell(matrix@, n as int, i as int, j as int),
{
    let total: usize = matrix.len();
    proof {
        lemma_cell_index(m as int, n as int, i as int, j as int);
    }
    assert(i * n + j < total);
    matrix[i * n + j]
}

/// For each source token its most similar target token, by source token. Among equals the
/// last is taken.
pub fn argmax_src_to_tgt(matrix: &[i64], m: usize, n: usize) -> (r: Vec<AlignmentEdge>)
    requires
        m * n <= matrix@.len(),
    ensures
        r@ == source_edges(matrix@, m as int, n as int),
{
    let mut r: Vec<AlignmentEdge> = Vec::new();
    if n == 0 {
        assert(r@ =~= source_edges(matrix@, m as int, n as int));
        return r;
    }
    let mut i: usize = 0;
    while i < m
        invariant
            i <= m,
            n > 0,
            m * n <= matrix@.len(),
            r@ == source_edges(matrix@, i as int, n as int),
        decreases m - i,
    {
        let mut best: usize = 0;
        let mut sim: i64 = read_cell(matrix, m, n, i, 0);
        let mut j: usize = 1;
        while j < n
            invariant
                i < m,
                1 <= j <= n,
                m * n <= matrix@.len(),
                best < n,
                best == best_target(matrix@, n as int, i as int, j as int),
                sim == cell(matrix@, n as int, i as int, best as int),
            decreases n - j,
        {
            let v: i64 = read_cell(matrix, m, n, i, j);
            if v >= sim {
                best = j;
                sim = v;
            }
            j += 1;
        }
        r.push(AlignmentEdge { src: i, tgt: best, sim });
        i += 1;
        assert(r@ =~= source_edges(matrix@, i as int, n as int));
    }
    r
}

/// For each target token its most similar source token, by target token. Among equals the
/// first is taken.
pub fn argmax_tgt_to_src(matrix: &[i64], m: usize, n: usize) -> (r: Vec<AlignmentEdge>)
    requires
        m * n <= matrix@.len(),
    ensures
        r@ == target_edges(matrix@, m as int, n as int),
{
    let mut r: Vec<AlignmentEdge> = Vec::new();
    let mut j: usize = 0;
    while j < n
        invariant
            j <= n,
            m * n <= matrix@.len(),
            r@ == target_edges(matrix@, m as int, n as int).take(j as int),
        decreases n - j,
    {
        let mut best: usize = 0;
        let mut sim: i64 = NO_SIM;
        let mut i: usize = 0;
        while i < m
            invariant
                j < n,
                i <= m,
                m * n <= matrix@.len(),
                best == best_source(matrix@, n as int, j as int, i as int),
                i == 0 ==> sim == NO_SIM,
                i > 0 ==> best < m && sim == cell(matrix@, n as int, best as int, j as int),
            decreases m - i,
        {
            let v: i64 = read_cell(matrix, m, n, i, j);
            if v > sim {
                best = i;
                sim = v;
            }
            i += 1;
        }
        r.push(AlignmentEdge { src: best, tgt: j, sim });
        j += 1;
        assert(r@ =~= target_edges(matrix@, m as int, n as int).take(j as int));
    }
    assert(target_edges(matrix@, m as int, n as int).take(n as int) =~= target_edges(
        matrix@,
        m as int,
        n as int,
    ));
    r
}

/// Tokens `i` and `j` are each other's most similar token.
pub open spec fn mutual(matrix: Seq<i64>, m: int, n: int, i: int, j: int) -> bool {
    best_target(matrix, n, i, n) == j && best_source(matrix, n, j, m) == i
}

/// The edges among the first `k` sources that are best in both directions.
pub open spec fn mutual_edges(matrix: Seq<i64>, m: int, n: int, k: int) -> Seq<AlignmentEdge>
    decreases k,
{
    if k <= 0 || n == 0 {
        Seq::empty()
    } else {
        let before = mutual_edges(matrix, m, n, k - 1);
        let j = best_target(matrix, n, k - 1, n);
        if mutual(matrix, m, n, k - 1, j) {
            before.push(edge(matrix, n, k - 1, j))
        } else {
            before
        }
    }
}

/// The edges that are best in both directions, by source token.
pub fn intersection(matrix: &[i64], m: usize, n: usize) -> (r: Vec<AlignmentEdge>)
    requires
        m * n <= matrix@.len(),
    ensures
        r@ == mutual_edges(matrix@, m as int, n as int, m as int),
{
    let s2t = argmax_src_to_tgt(matrix, m, n);
    let t2s = argmax_tgt_to_src(matrix, m, n);
    let mut r: Vec<AlignmentEdge> = Vec::new();
    if n == 0 {
        assert(r@ =~= mutual_edges(matrix@, m as int, n as int, m as int));
        return r;
    }
    let mut i: usize = 0;
    while i < m
        invariant
            i <= m,
            n > 0,
            s2t@ == source_edges(matrix@, m as int, n as int),
            t2s@ == target_edges(matrix@, m as int, n as int),
            r@ == mutual_edges(matrix@, m as int, n as int, i as int),
        decreases m - i,
    {
        let e: AlignmentEdge = s2t[i];
        proof {
            lemma_best_target(matrix@, n as int, i as int, n as int);
            lemma_best_source(matrix@, n as int, e.tgt as int, m as int);
        }
        if t2s[e.tgt].src == e.src {
            r.push(e);
        }
        i += 1;
    }
    r
}

/// An edge of the intersection is the best match in its row and in its column.
pub proof fn law_intersection_is_mutually_best(matrix: Seq<i64>, m: int, n: int, k: int, e: int)
    requires
        0 <= k <= m <= usize::MAX,
        0 < n <= usize::MAX,
        0 <= e < mutual_edges(matrix, m, n, k).len(),
    ensures
        ({
            let x = mutual_edges(matrix, m, n, k)[e];
            &&& x.src < m && x.tgt < n
            &&& x.sim == cell(matrix, n, x.src as int, x.tgt as int)
            &&& forall|j: int| 0 <= j < n ==> #[trigger] cell(matrix, n, x.src as int, j) <= x.sim
            &&& forall|i: int| 0 <= i < m ==> #[trigger] cell(matrix, n, i, x.tgt as int) <= x.sim
        }),
    decreases k,
{
    let before = mutual_edges(matrix, m, n, k - 1);
    if e < before.len() {
        law_intersection_is_mutually_best(matrix, m, n, k - 1, e);
    } else {
        let j = best_target(matrix, n, k - 1, n);
        lemma_best_target(matrix, n, k - 1, n);
        lemma_best_source(matrix, n, j, m);
    }
}

// ---------------------------------------------------------------------------
// Iterative maximum
// ---------------------------------------------------------------------------

/// The better of a pair of tokens and what was found before it: the later only where it is
/// more similar.
pub open spec fn better(
    matrix: Seq<i64>,
    n: int,
    found: Option<(int, int)>,
    i: int,
    j: int,
) -> Option<(int, int)> {
    let than = match found {
        Some((a, b)) => cell(matrix, n, a, b),
        None => NO_SIM,
    };
    if cell(matrix, n, i, j) > than {
        Some((i, j))
    } else {
        found
    }
}

/// The best pair among `found` and the pairs of source `i` with the unused of the first
/// `k` targets.
pub open spec fn best_in_row(
    matrix: Seq<i64>,
    n: int,
    cols: Seq<bool>,
    found: Option<(int, int)>,
    i: int,
    k: int,
) -> Option<(int, int)>
    decreases k,
{
    if k <= 0 {
        found
    } else {
        let before = best_in_row(matrix, n, cols, found, i, k - 1);
        if cols[k - 1] {
            before
        } else {
            better(matrix, n, before, i, k - 1)
        }
    }
}

/// The best pair of an unused one of the first `k` sources with an unused target.
pub open spec fn best_pair(
    matrix: Seq<i64>,
    n: int,
    rows: Seq<bool>,
    cols: Seq<bool>,
    k: int,
) -> Option<(int, int)>
    decreases k,
{
    if k <= 0 {
        None
    } else {
        let before = best_pair(matrix, n, rows, cols, k - 1);
        if rows[k - 1] {
            before
        } else {
            best_in_row(matrix, n, cols, before, k - 1, n)
        }
    }
}

/// How many tokens are unused.
pub open spec fn unused(v: Seq<bool>) -> nat
    decreases v.len(),
{
    if v.len() == 0 {
        0
    } else if v.last() {
        unused(v.drop_last())
    } else {
        unused(v.drop_last()) + 1
    }
}

/// Using a token leaves one less unused.
pub proof fn lemma_unused(v: Seq<bool>, i: int)
    requires
        0 <= i < v.len(),
        !v[i],
    ensures
        unused(v.update(i, true)) + 1 == unused(v),
    decreases v.len(),
{
    let w = v.update(i, true);
    if i == v.len() - 1 {
        assert(w.drop_last() =~= v.drop_last());
    } else {
        assert(w.drop_last() =~= v.drop_last().update(i, true));
        lemma_unused(v.drop_last(), i);
    }
}

proof fn lemma_best_in_row(
    matrix: Seq<i64>,
    n: int,
    cols: Seq<bool>,
    found: Option<(int, int)>,
    i: int,
    k: int,
)
    requires
        0 <= k <= n,
        cols.len() == n,
        found matches Some(f) ==> cell(matrix, n, f.0, f.1) > NO_SIM,
    ensures
        match best_in_row(matrix, n, cols, found, i, k) {
            Some(p) => cell(matrix, n, p.0, p.1) > NO_SIM && (found == Some(p) || (p.0 == i && 0
                <= p.1 < k && !cols[p.1])) && (found matches Some(f) ==> cell(matrix, n, f.0, f.1)
                <= cell(matrix, n, p.0, p.1)) && forall|j: int|
                0 <= j < k && !cols[j] ==> #[trigger] cell(matrix, n, i, j) <= cell(
                    matrix,
                    n,
                    p.0,
                    p.1,
                ),
            None => found is None && forall|j: int|
                0 <= j < k && !cols[j] ==> #[trigger] cell(matrix, n, i, j) == NO_SIM,
        },
    decreases k,
{
    if k > 0 {
        lemma_best_in_row(matrix, n, cols, found, i, k - 1);
    }
}

/// The best pair is unused on both sides, and no unused pair is more similar.
proof fn lemma_best_pair(matrix: Seq<i64>, n: int, rows: Seq<bool>, cols: Seq<bool>, k: int)
    requires
        0 <= k <= rows.len(),
        cols.len() == n,
    ensures
        match best_pair(matrix, n, rows, cols, k) {
            Some(p) => 0 <= p.0 < k && 0 <= p.1 < n && !rows[p.0] && !cols[p.1] && cell(
                matrix,
                n,
                p.0,
                p.1,
            ) > NO_SIM && forall|i: int, j: int|
                0 <= i < k && 0 <= j < n && !rows[i] && !cols[j] ==> #[trigger] cell(
                    matrix,
                    n,
                    i,
                    j,
                ) <= cell(matrix, n, p.0, p.1),
            None => forall|i: int, j: int|
                0 <= i < k && 0 <= j < n && !rows[i] && !cols[j] ==> #[trigger] cell(
                    matrix,
                    n,
                    i,
                    j,
                ) == NO_SIM,
        },
    decreases k,
{
    if k > 0 {
        lemma_best_pair(matrix, n, rows, cols, k - 1);
        if !rows[k - 1] {
            lemma_best_in_row(
                matrix,
                n,
                cols,
                best_pair(matrix, n, rows, cols, k - 1),
                k - 1,
                n,
            );
        }
    }
}

/// The edges that are picked from unused tokens: the best pair, as long as it is similar
/// enough, and then those picked without its two tokens.
pub open spec fn picked(
    matrix: Seq<i64>,
    n: int,
    min_sim: i64,
    rows: Seq<bool>,
    cols: Seq<bool>,
) -> Seq<AlignmentEdge>
    decreases unused(rows),
{
    match best_pair(matrix, n, rows, cols, rows.len() as int) {
        None => Seq::empty(),
        Some((i, j)) => if cell(matrix, n, i, j) < min_sim || !(0 <= i < rows.len() && !rows[i]) {
            Seq::empty()
        } else {
            proof {
                lemma_unused(rows, i);
            }
            seq![edge(matrix, n, i, j)] + picked(
                matrix,
                n,
                min_sim,
                rows.update(i, true),
                cols.update(j, true),
            )
        },
    }
}

/// The first edge of source `i`.
pub open spec fn edge_of_source(edges: Seq<AlignmentEdge>, i: int, from: int) -> Option<
    AlignmentEdge,
>
    decreases edges.len() - from,
{
    if from >= edges.len() {
        None
    } else if edges[from].src == i {
        Some(edges[from])
    } else {
        edge_of_source(edges, i, from + 1)
    }
}

/// The edges of the first `m` sources, by source.
pub open spec fn by_source(edges: Seq<AlignmentEdge>, m: int) -> Seq<AlignmentEdge>
    decreases m,
{
    if m <= 0 {
        Seq::empty()
    } else {
        match edge_of_source(edges, m - 1, 0) {
            Some(e) => by_source(edges, m - 1).push(e),
            None => by_source(edges, m - 1),
        }
    }
}

/// All tokens are unused.
pub open spec fn all_unused(k: int) -> Seq<bool> {
    Seq::new(k as nat, |i: int| false)
}

/// The one-to-one alignment of the most similar pairs, by source token.
pub open spec fn itermax_edges(matrix: Seq<i64>, m: int, n: int, min_sim: i64) -> Seq<
    AlignmentEdge,
> {
    by_source(picked(matrix, n, min_sim, all_unused(m), all_unused(n)), m)
}

fn no_marks(k: usize) -> (r: Vec<bool>)
    ensures
        r@ == all_unused(k as int),
{
    let mut r: Vec<bool> = Vec::new();
    let mut i: usize = 0;
    while i < k
        invariant
            i <= k,
            r@ == all_unused(i as int),
        decreases k - i,
    {
        r.push(false);
        i += 1;
        assert(r@ =~= all_unused(i as int));
    }
    assert(r@ =~= all_unused(k as int));
    r
}

fn find_best_pair(matrix: &[i64], m: usize, n: usize, rows: &Vec<bool>, cols: &Vec<bool>) -> (r:
    Option<(usize, usize, i64)>)
    requires
        m * n <= matrix@.len(),
        rows@.len() == m,
        cols@.len() == n,
    ensures
        match r {
            Some((i, j, sim)) => best_pair(matrix@, n as int, rows@, cols@, m as int) == Some(
                (i as int, j as int),
            ) && i < m && j < n && sim == cell(matrix@, n as int, i as int, j as int),
            None => best_pair(matrix@, n as int, rows@, cols@, m as int) is None,
        },
{
    let mut best: (usize, usize) = (0, 0);
    let mut sim: i64 = NO_SIM;
    let mut i: usize = 0;
    let ghost mut found: Option<(int, int)> = None;
    while i < m
        invariant
            i <= m,
            m * n <= matrix@.len(),
            rows@.len() == m,
            cols@.len() == n,
            found == best_pair(matrix@, n as int, rows@, cols@, i as int),
            match found {
                Some(p) => p == (best.0 as int, best.1 as int) && best.0 < m && best.1 < n && sim
                    == cell(matrix@, n as int, p.0, p.1) && sim > NO_SIM,
                None => sim == NO_SIM,
            },
        decreases m - i,
    {
        if !rows[i] {
            let ghost before = found;
            let mut j: usize = 0;
            while j < n
                invariant
                    i < m,
                    j <= n,
                    m * n <= matrix@.len(),
                    rows@.len() == m,
                    cols@.len() == n,
                    found == best_in_row(matrix@, n as int, cols@, before, i as int, j as int),
                    match found {
                        Some(p) => p == (best.0 as int, best.1 as int) && best.0 < m && best.1 < n
                            && sim == cell(matrix@, n as int, p.0, p.1) && sim > NO_SIM,
                        None => sim == NO_SIM,
                    },
                decreases n - j,
            {
                if !cols[j] {
                    let v: i64 = read_cell(matrix, m, n, i, j);
                    if v > sim {
                        best = (i, j);
                        sim = v;
                        proof {
                            found = Some((i as int, j as int));
                        }
                    }
                }
                j += 1;
            }
        }
        i += 1;
    }
    if sim == NO_SIM {
        return None;
    }
    Some((best.0, best.1, sim))
}

fn sort_by_source(edges: &Vec<AlignmentEdge>, m: usize) -> (r: Vec<AlignmentEdge>)
    ensures
        r@ == by_source(edges@, m as int),
{
    let mut r: Vec<AlignmentEdge> = Vec::new();
    let mut i: usize = 0;
    while i < m
        invariant
            i <= m,
            r@ == by_source(edges@, i as int),
        decreases m - i,
    {
        let mut k: usize = 0;
        while k < edges.len() && edges[k].src != i
            invariant
                k <= edges@.len(),
                edge_of_source(edges@, i as int, 0) == edge_of_source(edges@, i as int, k as int),
            decreases edges@.len() - k,
        {
            k += 1;
        }
        if k < edges.len() {
            r.push(edges[k]);
        }
        i += 1;
    }
    r
}

/// The most similar pair of tokens again and again, each token once, as long as a pair is
/// at least `min_sim` similar. By source token.
pub fn itermax(matrix: &[i64], m: usize, n: usize, min_sim: i64) -> (r: Vec<AlignmentEdge>)
    requires
        m * n <= matrix@.len(),
        min_sim > NO_SIM,
    ensures
        r@ == itermax_edges(matrix@, m as int, n as int, min_sim),
{
    let mut rows = no_marks(m);
    let mut cols = no_marks(n);
    let mut out: Vec<AlignmentEdge> = Vec::new();
    let ghost want = picked(matrix@, n as int, min_sim, rows@, cols@);
    assert(out@ + want =~= want);
    loop
        invariant
            m * n <= matrix@.len(),
            rows@.len() == m,
            cols@.len() == n,
            out@ + picked(matrix@, n as int, min_sim, rows@, cols@) == want,
        ensures
            out@ == want,
        decreases unused(rows@),
    {
        proof {
            lemma_best_pair(matrix@, n as int, rows@, cols@, m as int);
        }
        let best = find_best_pair(matrix, m, n, &rows, &cols);
        let (i, j, sim): (usize, usize, i64) = match best {
            Some(b) => b,
            None => {
                assert(out@ =~= want);
                break;
            },
        };
        if sim < min_sim {
            assert(out@ =~= want);
            break;
        }
        let ghost before = out@;
        let ghost used = rows@;
        let ghost taken = cols@;
        proof {
            lemma_unused(rows@, i as int);
        }
        out.push(AlignmentEdge { src: i, tgt: j, sim });
        rows.set(i, true);
        cols.set(j, true);
        assert(out@ + picked(matrix@, n as int, min_sim, rows@, cols@) =~= before + picked(
            matrix@,
            n as int,
            min_sim,
            used,
            taken,
        ));
    }
    sort_by_source(&out, m)
}

/// No two edges share a source or a target.
pub open spec fn one_to_one(edges: Seq<AlignmentEdge>) -> bool {
    forall|a: int, b: int|
        0 <= a < b < edges.len() ==> (#[trigger] edges[a]).src != (#[trigger] edges[b]).src
            && edges[a].tgt != edges[b].tgt
}

proof fn lemma_picked(
    matrix: Seq<i64>,
    n: int,
    min_sim: i64,
    rows: Seq<bool>,
    cols: Seq<bool>,
)
    requires
        cols.len() == n,
        rows.len() <= usize::MAX,
        n <= usize::MAX,
    ensures
        one_to_one(picked(matrix, n, min_sim, rows, cols)),
        forall|k: int|
            0 <= k < picked(matrix, n, min_sim, rows, cols).len() ==> {
                let e = #[trigger] picked(matrix, n, min_sim, rows, cols)[k];
                e.src < rows.len() && e.tgt < n && !rows[e.src as int] && !cols[e.tgt as int]
                    && e.sim >= min_sim && e.sim == cell(matrix, n, e.src as int, e.tgt as int)
            },
    decreases unused(rows),
{
    lemma_best_pair(matrix, n, rows, cols, rows.len() as int);
    if let Some((i, j)) = best_pair(matrix, n, rows, cols, rows.len() as int) {
        if cell(matrix, n, i, j) >= min_sim {
            lemma_unused(rows, i);
            let rest = picked(matrix, n, min_sim, rows.update(i, true), cols.update(j, true));
            lemma_picked(matrix, n, min_sim, rows.update(i, true), cols.update(j, true));
            let all = picked(matrix, n, min_sim, rows, cols);
            assert(all == seq![edge(matrix, n, i, j)] + rest);
            assert forall|k: int| 1 <= k < all.len() implies #[trigger] all[k] == rest[k - 1] by {}
            assert forall|k: int| 0 <= k < rest.len() implies (#[trigger] rest[k]).src != i
                && rest[k].tgt != j && !rows[rest[k].src as int] && !cols[rest[k].tgt as int] by {}
        }
    }
}

proof fn lemma_by_source(edges: Seq<AlignmentEdge>, m: int)
    requires
        0 <= m,
        one_to_one(edges),
    ensures
        one_to_one(by_source(edges, m)),
        forall|a: int, b: int|
            0 <= a < b < by_source(edges, m).len() ==> (#[trigger] by_source(edges, m)[a]).src < (
            #[trigger] by_source(edges, m)[b]).src,
        forall|a: int|
            0 <= a < by_source(edges, m).len() ==> (#[trigger] by_source(edges, m)[a]).src < m
                && edges.contains(by_source(edges, m)[a]),
    decreases m,
{
    if m > 0 {
        lemma_by_source(edges, m - 1);
        lemma_edge_of_source(edges, m - 1, 0);
        let before = by_source(edges, m - 1);
        let after = by_source(edges, m);
        if let Some(e) = edge_of_source(edges, m - 1, 0) {
            assert forall|a: int, b: int| 0 <= a < b < after.len() implies (
            #[trigger] after[a]).src != (#[trigger] after[b]).src && after[a].tgt != after[b].tgt
                && after[a].src < after[b].src by {
                assert(after[a] == before[a]);
                if b < before.len() {
                    assert(after[b] == before[b]);
                } else {
                    let p = choose|p: int| 0 <= p < edges.len() && edges[p] == before[a];
                    let q = choose|q: int| 0 <= q < edges.len() && edges[q] == e;
                    assert(p != q);
                    if p < q {
                        assert(edges[p].tgt != edges[q].tgt);
                    } else {
                        assert(edges[q].tgt != edges[p].tgt);
                    }
                }
            }
            assert forall|a: int| 0 <= a < after.len() implies (#[trigger] after[a]).src < m
                && edges.contains(after[a]) by {
                if a < before.len() {
                    assert(after[a] == before[a]);
                }
            }
        }
    }
}

proof fn lemma_edge_of_source(edges: Seq<AlignmentEdge>, i: int, from: int)
    requires
        0 <= from,
    ensures
        edge_of_source(edges, i, from) matches Some(e) ==> e.src == i && edges.contains(e),
    decreases edges.len() - from,
{
    if from < edges.len() && edges[from].src != i {
        lemma_edge_of_source(edges, i, from + 1);
    }
}

/// The iterative maximum is one-to-one, ascends by source token, and holds only pairs that
/// are at least `min_sim` similar.
pub proof fn law_itermax_is_one_to_one(matrix: Seq<i64>, m: int, n: int, min_sim: i64)
    requires
        0 <= m <= usize::MAX,
        0 <= n <= usize::MAX,
    ensures
        one_to_one(itermax_edges(matrix, m, n, min_sim)),
        forall|a: int, b: int|
            0 <= a < b < itermax_edges(matrix, m, n, min_sim).len() ==> (#[trigger] itermax_edges(
                matrix,
                m,
                n,
                min_sim,
            )[a]).src < (#[trigger] itermax_edges(matrix, m, n, min_sim)[b]).src,
        forall|a: int|
            0 <= a < itermax_edges(matrix, m, n, min_sim).len() ==> {
                let e = #[trigger] itermax_edges(matrix, m, n, min_sim)[a];
                e.src < m && e.tgt < n && e.sim >= min_sim && e.sim == cell(
                    matrix,
                    n,
                    e.src as int,
                    e.tgt as int,
                )
            },
{
    let rows = all_unused(m);
    let cols = all_unused(n);
    let edges = picked(matrix, n, min_sim, rows, cols);
    lemma_picked(matrix, n, min_sim, rows, cols);
    lemma_by_source(edges, m);
    let all = itermax_edges(matrix, m, n, min_sim);
    assert forall|a: int| 0 <= a < all.len() implies ({
        let e = #[trigger] all[a];
        e.src < m && e.tgt < n && e.sim >= min_sim && e.sim == cell(
            matrix,
            n,
            e.src as int,
            e.tgt as int,
        )
    }) by {
        let p = choose|p: int| 0 <= p < edges.len() && edges[p] == all[a];
        assert(edges[p] == all[a]);
    }
}

/// The edges that a strategy extracts.
pub open spec fn extracted_edges(matrix: Seq<i64>, m: int, n: int, strategy: Strategy) -> Seq<
    AlignmentEdge,
> {
    match strategy {
        Strategy::ArgmaxSrcToTgt => source_edges(matrix, m, n),
        Strategy::ArgmaxTgtToSrc => target_edges(matrix, m, n),
        Strategy::Intersection => mutual_edges(matrix, m, n, m),
        Strategy::Itermax { min_sim } => itermax_edges(matrix, m, n, min_sim),
    }
}

/// Extracts an alignment.
pub fn extract_edges(matrix: &[i64], m: usize, n: usize, strategy: Strategy) -> (r: Vec<
    AlignmentEdge,
>)
    requires
        m * n <= matrix@.len(),
        strategy matches Strategy::Itermax { min_sim } ==> min_sim > NO_SIM,
    ensures
        r@ == extracted_edges(matrix@, m as int, n as int, strategy),
{
    match strategy {
        Strategy::ArgmaxSrcToTgt => argmax_src_to_tgt(matrix, m, n),
        Strategy::ArgmaxTgtToSrc => argmax_tgt_to_src(matrix, m, n),
        Strategy::Intersection => intersection(matrix, m, n),
        Strategy::Itermax { min_sim } => itermax(matrix, m, n, min_sim),
    }
}

/// Each source token has one edge, to the last of the target tokens that none is more similar
/// to it than.
pub proof fn law_sources_go_to_their_best_target(matrix: Seq<i64>, m: int, n: int, i: int)
    requires
        0 <= i < m <= usize::MAX,
        0 < n <= usize::MAX,
    ensures
        source_edges(matrix, m, n).len() == m,
        ({
            let e = source_edges(matrix, m, n)[i];
            &&& e.src == i
            &&& 0 <= e.tgt < n
            &&& e.sim == matrix[i * n + e.tgt]
            &&& forall|j: int| 0 <= j < n ==> #[trigger] matrix[i * n + j] <= e.sim
            &&& forall|j: int| e.tgt < j < n ==> #[trigger] matrix[i * n + j] < e.sim
        }),
{
    lemma_best_target(matrix, n, i, n);
    let e = source_edges(matrix, m, n)[i];
    assert forall|j: int| 0 <= j < n implies #[trigger] matrix[i * n + j] <= e.sim by {
        assert(cell(matrix, n, i, j) <= e.sim);
    }
    assert forall|j: int| e.tgt < j < n implies #[trigger] matrix[i * n + j] < e.sim by {
        assert(cell(matrix, n, i, j) < e.sim);
    }
}

/// Each target token has one edge, from the first of the source tokens that none is more
/// similar to it than.
pub proof fn law_targets_come_from_their_best_source(matrix: Seq<i64>, m: int, n: int, j: int)
    requires
        0 < m <= usize::MAX,
        0 <= j < n <= usize::MAX,
    ensures
        target_edges(matrix, m, n).len() == n,
        ({
            let e = target_edges(matrix, m, n)[j];
            &&& e.tgt == j
            &&& 0 <= e.src < m
            &&& e.sim == matrix[e.src * n + j]
            &&& forall|i: int| 0 <= i < m ==> #[trigger] matrix[i * n + j] <= e.sim
            &&& forall|i: int| 0 <= i < e.src ==> #[trigger] matrix[i * n + j] < e.sim
        }),
{
    lemma_best_source(matrix, n, j, m);
    let e = target_edges(matrix, m, n)[j];
    assert forall|i: int| 0 <= i < m implies #[trigger] matrix[i * n + j] <= e.sim by {
        assert(cell(matrix, n, i, j) <= e.sim);
    }
    assert forall|i: int| 0 <= i < e.src implies #[trigger] matrix[i * n + j] < e.sim by {
        assert(cell(matrix, n, i, j) < e.sim);
    }
}

/// Two tokens that are more similar to each other than either is to any other are in the
/// intersection.
pub proof fn law_best_pairs_are_in_the_intersection(matrix: Seq<i64>, m: int, n: int, i: int, j: int)
    requires
        0 <= i < m <= usize::MAX,
        0 <= j < n <= usize::MAX,
        forall|k: int| 0 <= k < n && k != j ==> #[trigger] matrix[i * n + k] < matrix[i * n + j],
        forall|k: int| 0 <= k < m && k != i ==> #[trigger] matrix[k * n + j] < matrix[i * n + j],
    ensures
        mutual_edges(matrix, m, n, m).contains(
            AlignmentEdge { src: i as usize, tgt: j as usize, sim: matrix[i * n + j] },
        ),
{
    lemma_best_target(matrix, n, i, n);
    lemma_best_source(matrix, n, j, m);
    let t = best_target(matrix, n, i, n);
    let s = best_source(matrix, n, j, m);
    assert(cell(matrix, n, i, j) <= cell(matrix, n, i, t));
    assert(cell(matrix, n, i, j) <= cell(matrix, n, s, j));
    if t != j {
        assert(matrix[i * n + t] < matrix[i * n + j]);
    }
    if s != i {
        assert(matrix[s * n + j] < matrix[i * n + j]);
    }
    lemma_mutual_edge(matrix, m, n, i, j, m);
}

proof fn lemma_mutual_edge(matrix: Seq<i64>, m: int, n: int, i: int, j: int, k: int)
    requires
        0 <= i < k <= m,
        n > 0,
        mutual(matrix, m, n, i, j),
    ensures
        mutual_edges(matrix, m, n, k).contains(edge(matrix, n, i, j)),
    decreases k,
{
    let all = mutual_edges(matrix, m, n, k);
    let before = mutual_edges(matrix, m, n, k - 1);
    if i == k - 1 {
        assert(all[before.len() as int] == edge(matrix, n, i, j));
    } else {
        lemma_mutual_edge(matrix, m, n, i, j, k - 1);
        let p = choose|p: int| 0 <= p < before.len() && before[p] == edge(matrix, n, i, j);
        assert(all[p] == edge(matrix, n, i, j));
    }
}

/// An edge of the alignment takes a token of the pair, and is at least as similar.
pub open spec fn is_taken(edges: Seq<AlignmentEdge>, i: int, j: int, sim: i64) -> bool {
    exists|k: int|
        0 <= k < edges.len() && (#[trigger] edges[k]).sim >= sim && (edges[k].src == i
            || edges[k].tgt == j)
}

proof fn lemma_taken(
    matrix: Seq<i64>,
    n: int,
    min_sim: i64,
    rows: Seq<bool>,
    cols: Seq<bool>,
    i: int,
    j: int,
)
    requires
        cols.len() == n,
        rows.len() <= usize::MAX,
        n <= usize::MAX,
        0 <= i < rows.len(),
        0 <= j < n,
        !rows[i],
        !cols[j],
        cell(matrix, n, i, j) >= min_sim,
        cell(matrix, n, i, j) > NO_SIM,
    ensures
        is_taken(picked(matrix, n, min_sim, rows, cols), i, j, cell(matrix, n, i, j)),
    decreases unused(rows),
{
    lemma_best_pair(matrix, n, rows, cols, rows.len() as int);
    let sim = cell(matrix, n, i, j);
    let all = picked(matrix, n, min_sim, rows, cols);
    match best_pair(matrix, n, rows, cols, rows.len() as int) {
        None => {
            assert(cell(matrix, n, i, j) == NO_SIM);
        },
        Some((a, b)) => {
            assert(sim <= cell(matrix, n, a, b));
            lemma_unused(rows, a);
            let rest = picked(matrix, n, min_sim, rows.update(a, true), cols.update(b, true));
            assert(all == seq![edge(matrix, n, a, b)] + rest);
            if a == i || b == j {
                assert(all[0].sim >= sim);
            } else {
                lemma_taken(
                    matrix,
                    n,
                    min_sim,
                    rows.update(a, true),
                    cols.update(b, true),
                    i,
                    j,
                );
                let k = choose|k: int|
                    0 <= k < rest.len() && (#[trigger] rest[k]).sim >= sim && (rest[k].src == i
                        || rest[k].tgt == j);
                assert(all[k + 1] == rest[k]);
            }
        },
    }
}

proof fn lemma_source_kept(edges: Seq<AlignmentEdge>, m: int, k: int)
    requires
        one_to_one(edges),
        0 <= k < edges.len(),
        edges[k].src < m,
    ensures
        by_source(edges, m).contains(edges[k]),
    decreases m,
{
    let all = by_source(edges, m);
    if edges[k].src == m - 1 {
        lemma_only_edge(edges, k, 0);
        assert(all[all.len() - 1] == edges[k]);
    } else {
        lemma_source_kept(edges, m - 1, k);
        let before = by_source(edges, m - 1);
        let p = choose|p: int| 0 <= p < before.len() && before[p] == edges[k];
        assert(all[p] == edges[k]);
    }
}

proof fn lemma_only_edge(edges: Seq<AlignmentEdge>, k: int, from: int)
    requires
        one_to_one(edges),
        0 <= from <= k < edges.len(),
    ensures
        edge_of_source(edges, edges[k].src as int, from) == Some(edges[k]),
    decreases k - from,
{
    if from < k {
        assert(edges[from].src != edges[k].src);
        lemma_only_edge(edges, k, from + 1);
    }
}

/// The iterative maximum takes the most similar pairs first: a pair that is similar enough is
/// left out only for an edge that is at least as similar and has one of its tokens.
pub proof fn law_itermax_takes_the_most_similar_first(
    matrix: Seq<i64>,
    m: int,
    n: int,
    min_sim: i64,
    i: int,
    j: int,
)
    requires
        0 <= i < m <= usize::MAX,
        0 <= j < n <= usize::MAX,
        matrix[i * n + j] >= min_sim,
        matrix[i * n + j] > NO_SIM,
    ensures
        is_taken(itermax_edges(matrix, m, n, min_sim), i, j, matrix[i * n + j]),
{
    let rows = all_unused(m);
    let cols = all_unused(n);
    let edges = picked(matrix, n, min_sim, rows, cols);
    let sim = cell(matrix, n, i, j);
    lemma_picked(matrix, n, min_sim, rows, cols);
    lemma_taken(matrix, n, min_sim, rows, cols, i, j);
    let k = choose|k: int|
        0 <= k < edges.len() && (#[trigger] edges[k]).sim >= sim && (edges[k].src == i
            || edges[k].tgt == j);
    lemma_source_kept(edges, m, k);
    let all = itermax_edges(matrix, m, n, min_sim);
    let p = choose|p: int| 0 <= p < all.len() && all[p] == edges[k];
    assert(all[p].sim >= sim);
}

proof fn lemma_ragged_row(lens: Seq<usize>, dim: usize, from: int)
    requires
        0 <= from,
    ensures
        match ragged_row(lens, dim, from) {
            Some(row) => from <= row < lens.len() && lens[row] != dim && forall|i: int|
                from <= i < row ==> #[trigger] lens[i] == dim,
            None => forall|i: int| from <= i < lens.len() ==> #[trigger] lens[i] == dim,
        },
    decreases lens.len() - from,
{
    if from < lens.len() {
        lemma_ragged_row(lens, dim, from + 1);
    }
}

/// Two embedding matrices fit exactly where both have rows and all rows are of one length; of
/// the rows that are of another, the first is told, with both lengths.
pub proof fn law_shapes(src: Seq<usize>, tgt: Seq<usize>)
    ensures
        shape_error(src, tgt) is None <==> src.len() > 0 && tgt.len() > 0 && (forall|i: int|
            0 <= i < src.len() ==> #[trigger] src[i] == src[0]) && (forall|i: int|
            0 <= i < tgt.len() ==> #[trigger] tgt[i] == src[0]),
        shape_error(src, tgt) matches Some(Error::Ragged { row, got, expected }) ==> {
            let lens = if forall|i: int| 0 <= i < src.len() ==> #[trigger] src[i] == src[0] {
                tgt
            } else {
                src
            };
            &&& expected == src[0] && got != expected
            &&& lens.len() <= usize::MAX ==> row < lens.len() && lens[row as int] == got
            &&& lens.len() <= usize::MAX ==> forall|i: int|
                0 <= i < row ==> #[trigger] lens[i] == expected
        },
{
    if src.len() > 0 {
        lemma_ragged_row(src, src[0], 0);
        lemma_ragged_row(tgt, src[0], 0);
        if let Some(row) = ragged_row(src, src[0], 0) {
            assert(src[row] != src[0]);
        }
        if let Some(row) = ragged_row(tgt, src[0], 0) {
            assert(tgt[row] != src[0]);
        }
        if tgt.len() > 0 && src[0] != tgt[0] {
            assert(tgt[0] != src[0]);
        }
    }
}

/// The intersection holds the edges that stand in both directions.
pub proof fn law_intersection_is_of_both_directions(
    matrix: Seq<i64>,
    m: int,
    n: int,
    e: AlignmentEdge,
)
    requires
        0 < m <= usize::MAX,
        0 < n <= usize::MAX,
    ensures
        mutual_edges(matrix, m, n, m).contains(e) <==> source_edges(matrix, m, n).contains(e)
            && target_edges(matrix, m, n).contains(e),
{
    let mutuals = mutual_edges(matrix, m, n, m);
    let sources = source_edges(matrix, m, n);
    let targets = target_edges(matrix, m, n);
    if mutuals.contains(e) {
        lemma_mutual_only(matrix, m, n, m, e);
        let i = e.src as int;
        let j = e.tgt as int;
        assert(sources[i] == e);
        assert(targets[j] == e);
    }
    if sources.contains(e) && targets.contains(e) {
        let i = choose|i: int| 0 <= i < sources.len() && sources[i] == e;
        let j = choose|j: int| 0 <= j < targets.len() && targets[j] == e;
        lemma_best_target(matrix, n, i, n);
        lemma_best_source(matrix, n, j, m);
        lemma_mutual_edge(matrix, m, n, i, j, m);
    }
}

proof fn lemma_mutual_only(matrix: Seq<i64>, m: int, n: int, k: int, e: AlignmentEdge)
    requires
        0 <= k <= m <= usize::MAX,
        0 < n <= usize::MAX,
        mutual_edges(matrix, m, n, k).contains(e),
    ensures
        e.src < m && e.tgt < n,
        mutual(matrix, m, n, e.src as int, e.tgt as int),
        e == edge(matrix, n, e.src as int, e.tgt as int),
    decreases k,
{
    let all = mutual_edges(matrix, m, n, k);
    let p = choose|p: int| 0 <= p < all.len() && all[p] == e;
    if k > 0 {
        let before = mutual_edges(matrix, m, n, k - 1);
        if p < before.len() {
            assert(before[p] == e);
            lemma_mutual_only(matrix, m, n, k - 1, e);
        } else {
            lemma_best_target(matrix, n, k - 1, n);
        }
    }
}

/// How similar what was found is.
spec fn found_sim(matrix: Seq<i64>, n: int, found: Option<(int, int)>) -> i64 {
    match found {
        Some((a, b)) => cell(matrix, n, a, b),
        None => NO_SIM,
    }
}

/// The first of the most similar pairs.
pub open spec fn is_first_best(matrix: Seq<i64>, m: int, n: int, i: int, j: int) -> bool {
    &&& 0 <= i < m && 0 <= j < n
    &&& matrix[i * n + j] > NO_SIM
    &&& forall|a: int, b: int|
        0 <= a < m && 0 <= b < n ==> #[trigger] matrix[a * n + b] <= matrix[i * n + j]
    &&& forall|a: int, b: int|
        0 <= a < m && 0 <= b < n && (a < i || a == i && b < j) ==> #[trigger] matrix[a * n + b]
            < matrix[i * n + j]
}

proof fn lemma_row_found(
    matrix: Seq<i64>,
    m: int,
    n: int,
    i: int,
    j: int,
    found: Option<(int, int)>,
    a: int,
    k: int,
)
    requires
        is_first_best(matrix, m, n, i, j),
        0 <= a < m,
        0 <= k <= n,
        a <= i ==> found_sim(matrix, n, found) < cell(matrix, n, i, j),
        a > i ==> found == Some((i, j)),
    ensures
        ({
            let now = best_in_row(matrix, n, all_unused(n), found, a, k);
            if a > i || a == i && k > j {
                now == Some((i, j))
            } else {
                found_sim(matrix, n, now) < cell(matrix, n, i, j)
            }
        }),
    decreases k,
{
    if k > 0 {
        lemma_row_found(matrix, m, n, i, j, found, a, k - 1);
        assert(matrix[a * n + (k - 1)] <= matrix[i * n + j]);
        if a < i || a == i && k - 1 < j {
            assert(matrix[a * n + (k - 1)] < matrix[i * n + j]);
        }
    }
}

proof fn lemma_pair_found(matrix: Seq<i64>, m: int, n: int, i: int, j: int, k: int)
    requires
        is_first_best(matrix, m, n, i, j),
        0 <= k <= m,
    ensures
        ({
            let now = best_pair(matrix, n, all_unused(m), all_unused(n), k);
            if k > i {
                now == Some((i, j))
            } else {
                found_sim(matrix, n, now) < cell(matrix, n, i, j)
            }
        }),
    decreases k,
{
    if k > 0 {
        lemma_pair_found(matrix, m, n, i, j, k - 1);
        let before = best_pair(matrix, n, all_unused(m), all_unused(n), k - 1);
        lemma_row_found(matrix, m, n, i, j, before, k - 1, n);
    }
}

proof fn lemma_in_by_source(edges: Seq<AlignmentEdge>, m: int, i: int)
    requires
        0 <= i < m,
        edge_of_source(edges, i, 0) is Some,
    ensures
        by_source(edges, m).contains(edge_of_source(edges, i, 0)->0),
    decreases m,
{
    let all = by_source(edges, m);
    if i == m - 1 {
        assert(all.last() == edge_of_source(edges, i, 0)->0);
    } else {
        lemma_in_by_source(edges, m - 1, i);
        let before = by_source(edges, m - 1);
        let e = edge_of_source(edges, i, 0)->0;
        let p = choose|p: int| 0 <= p < before.len() && before[p] == e;
        assert(all[p] == e);
    }
}

/// Of the most similar pairs of all, the iterative maximum takes the first, by source token and
/// then by target token, if it is similar enough.
pub proof fn law_itermax_takes_the_first_of_the_most_similar(
    matrix: Seq<i64>,
    m: int,
    n: int,
    min_sim: i64,
    i: int,
    j: int,
)
    requires
        m <= usize::MAX,
        n <= usize::MAX,
        is_first_best(matrix, m, n, i, j),
        matrix[i * n + j] >= min_sim,
    ensures
        itermax_edges(matrix, m, n, min_sim).contains(
            AlignmentEdge { src: i as usize, tgt: j as usize, sim: matrix[i * n + j] },
        ),
{
    let rows = all_unused(m);
    let cols = all_unused(n);
    lemma_pair_found(matrix, m, n, i, j, m);
    let edges = picked(matrix, n, min_sim, rows, cols);
    assert(edges[0] == edge(matrix, n, i, j));
    assert(edge_of_source(edges, i, 0) == Some(edges[0]));
    lemma_in_by_source(edges, m, i);
}

} // verus!
