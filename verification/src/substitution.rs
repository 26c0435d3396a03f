//! Substitution of several words, one after the other, as a single pass.
//!
//! The words start with a letter that does not occur in them again. So no occurrence of
//! a word overlaps another, none comes about at the seam of a substitution, and
//! substituting one word after the other is the same as substituting all of them in one
//! pass over the bytes.

use vstd::prelude::*;

use crate::bytes::{matches_at, occurrences, replaced};

verus! {

/// `b`, put `k` bytes behind the start of `a`, agrees with `a` where both stand.
pub open spec fn meets(a: Seq<u8>, b: Seq<u8>, k: int) -> bool {
    forall|i: int| 0 <= i < b.len() && k + i < a.len() ==> #[trigger] a[k + i] == b[i]
}

/// `b` cannot start inside `a`.
pub open spec fn is_clear_of(a: Seq<u8>, b: Seq<u8>) -> bool {
    forall|k: int| 0 < k < a.len() ==> !#[trigger] meets(a, b, k)
}

/// Neither word starts with the other.
pub open spec fn apart(a: Seq<u8>, b: Seq<u8>) -> bool {
    exists|i: int| 0 <= i < a.len() && i < b.len() && a[i] != b[i]
}

/// The first of the first `n` words that stands at the start of `s`.
pub open spec fn find_word(s: Seq<u8>, words: Seq<Seq<u8>>, n: int) -> Option<int>
    decreases n,
{
    if n <= 0 {
        None
    } else {
        match find_word(s, words, n - 1) {
            Some(i) => Some(i),
            None => if matches_at(s, 0, words[n - 1]) {
                Some(n - 1)
            } else {
                None
            },
        }
    }
}

/// The bytes with the first `n` words substituted in one pass.
pub open spec fn swapped(s: Seq<u8>, from: Seq<Seq<u8>>, to: Seq<Seq<u8>>, n: int) -> Seq<u8>
    decreases s.len(),
{
    if s.len() == 0 {
        s
    } else {
        match find_word(s, from, n) {
            Some(i) => if 0 < from[i].len() <= s.len() {
                to[i] + swapped(s.skip(from[i].len() as int), from, to, n)
            } else {
                s
            },
            None => seq![s[0]] + swapped(s.skip(1), from, to, n),
        }
    }
}

/// No word, and nothing that a word becomes, can start inside another.
pub open spec fn clear_words(from: Seq<Seq<u8>>, to: Seq<Seq<u8>>) -> bool {
    &&& from.len() == to.len()
    &&& forall|i: int| 0 <= i < from.len() ==> (#[trigger] from[i]).len() > 0
    &&& forall|i: int| 0 <= i < to.len() ==> (#[trigger] to[i]).len() > 0
    &&& all_clear(from, from)
    &&& all_clear(from, to)
    &&& all_clear(to, from)
    &&& all_clear(to, to)
}

/// None of the words `b` can start inside one of the words `a`.
pub open spec fn all_clear(a: Seq<Seq<u8>>, b: Seq<Seq<u8>>) -> bool {
    forall|i: int, j: int|
        0 <= i < a.len() && 0 <= j < b.len() ==> is_clear_of(#[trigger] a[i], #[trigger] b[j])
}

/// No word starts with what a word becomes, or the other way round.
pub open spec fn all_apart(a: Seq<Seq<u8>>, b: Seq<Seq<u8>>) -> bool {
    forall|i: int, j: int|
        0 <= i < a.len() && 0 <= j < b.len() ==> apart(#[trigger] a[i], #[trigger] b[j])
}

pub proof fn lemma_find_word(s: Seq<u8>, words: Seq<Seq<u8>>, n: int)
    ensures
        match find_word(s, words, n) {
            Some(i) => 0 <= i < n && matches_at(s, 0, words[i]) && forall|j: int|
                0 <= j < i ==> !matches_at(s, 0, #[trigger] words[j]),
            None => forall|j: int| 0 <= j < n ==> !matches_at(s, 0, #[trigger] words[j]),
        },
    decreases n,
{
    if n > 0 {
        lemma_find_word(s, words, n - 1);
    }
}

/// A word with no word inside it.
spec fn is_outside(w: Seq<u8>, from: Seq<Seq<u8>>, to: Seq<Seq<u8>>) -> bool {
    &&& w.len() > 0
    &&& forall|i: int| 0 <= i < from.len() ==> is_clear_of(w, #[trigger] from[i])
    &&& forall|i: int| 0 <= i < to.len() ==> is_clear_of(w, #[trigger] to[i])
}

/// The rest of a word in the result stood there before.
proof fn lemma_raw(s: Seq<u8>, from: Seq<Seq<u8>>, to: Seq<Seq<u8>>, n: int, w: Seq<u8>, off: int)
    requires
        clear_words(from, to),
        0 <= n <= from.len(),
        is_outside(w, from, to),
        0 < off <= w.len(),
        matches_at(swapped(s, from, to, n), 0, w.skip(off)),
    ensures
        matches_at(s, 0, w.skip(off)),
    decreases s.len(),
{
    let out = swapped(s, from, to, n);
    let rest = w.skip(off);
    lemma_find_word(s, from, n);
    assert(out.subrange(0, rest.len() as int) == rest);
    if off == w.len() {
        assert(s.subrange(0, 0) =~= rest);
    } else if s.len() > 0 {
        match find_word(s, from, n) {
            Some(i) => {
                assert(from[i].len() > 0);
                assert(to[i].len() > 0);
                assert forall|x: int| 0 <= x < to[i].len() && off + x < w.len() implies #[trigger] w[
                off + x] == to[i][x] by {
                    assert(out.subrange(0, rest.len() as int)[x] == rest[x]);
                    assert(out[x] == to[i][x]);
                }
                assert(meets(w, to[i], off));
                assert(is_clear_of(w, to[i]));
            },
            None => {
                let less = s.skip(1);
                let more = swapped(less, from, to, n);
                assert(out =~= seq![s[0]] + more);
                assert(more.subrange(0, rest.len() - 1) =~= w.skip(off + 1)) by {
                    assert forall|x: int| 0 <= x < rest.len() - 1 implies more[x] == w[off + 1 + x] by {
                        assert(out.subrange(0, rest.len() as int)[x + 1] == rest[x + 1]);
                    }
                }
                lemma_raw(less, from, to, n, w, off + 1);
                assert forall|x: int| 0 <= x < rest.len() implies s[x] == rest[x] by {
                    if x == 0 {
                        assert(out.subrange(0, rest.len() as int)[0] == rest[0]);
                    } else {
                        assert(less.subrange(0, rest.len() - 1)[x - 1] == w.skip(off + 1)[x - 1]);
                    }
                }
                assert(s.subrange(0, rest.len() as int) =~= rest);
            },
        }
    }
}

/// The rest of a word that stands there stays.
proof fn lemma_stays(s: Seq<u8>, from: Seq<Seq<u8>>, to: Seq<Seq<u8>>, n: int, w: Seq<u8>, off: int)
    requires
        clear_words(from, to),
        0 <= n <= from.len(),
        is_outside(w, from, to),
        0 < off <= w.len(),
        matches_at(s, 0, w.skip(off)),
    ensures
        swapped(s, from, to, n) == w.skip(off) + swapped(s.skip(w.len() - off), from, to, n),
    decreases w.len() - off,
{
    let out = swapped(s, from, to, n);
    let rest = w.skip(off);
    lemma_find_word(s, from, n);
    assert(s.subrange(0, rest.len() as int) == rest);
    if off == w.len() {
        assert(s.skip(0) =~= s);
        assert(rest + out =~= out);
    } else {
        if find_word(s, from, n) is Some {
            let i = find_word(s, from, n)->0;
            assert(from[i].len() > 0);
            assert forall|x: int| 0 <= x < from[i].len() && off + x < w.len() implies #[trigger] w[off
                + x] == from[i][x] by {
                assert(s.subrange(0, rest.len() as int)[x] == rest[x]);
                assert(s.subrange(0, from[i].len() as int)[x] == from[i][x]);
            }
            assert(meets(w, from[i], off));
            assert(is_clear_of(w, from[i]));
        }
        let less = s.skip(1);
        assert(less.subrange(0, rest.len() - 1) =~= w.skip(off + 1)) by {
            assert forall|x: int| 0 <= x < rest.len() - 1 implies less[x] == w[off + 1 + x] by {
                assert(s.subrange(0, rest.len() as int)[x + 1] == rest[x + 1]);
            }
        }
        lemma_stays(less, from, to, n, w, off + 1);
        assert(less.skip(w.len() - off - 1) =~= s.skip(w.len() - off));
        assert(s.subrange(0, rest.len() as int)[0] == rest[0]);
        assert(seq![s[0]] + w.skip(off + 1) =~= rest);
        assert(out =~= rest + swapped(s.skip(w.len() - off), from, to, n));
    }
}

/// A word at the start of the result, where none was substituted there, stood there
/// before.
proof fn lemma_raw_match(s: Seq<u8>, from: Seq<Seq<u8>>, to: Seq<Seq<u8>>, n: int, word: Seq<u8>)
    requires
        clear_words(from, to),
        0 <= n <= from.len(),
        is_outside(word, from, to),
        s.len() > 0,
        find_word(s, from, n) is None,
    ensures
        matches_at(swapped(s, from, to, n), 0, word) == matches_at(s, 0, word),
        matches_at(s, 0, word) ==> swapped(s, from, to, n) == word + swapped(
            s.skip(word.len() as int),
            from,
            to,
            n,
        ),
{
    let out = swapped(s, from, to, n);
    let less = s.skip(1);
    let more = swapped(less, from, to, n);
    assert(out =~= seq![s[0]] + more);
    let k = word.len() as int;
    let tail = word.skip(1);
    if matches_at(out, 0, word) {
        assert(more.subrange(0, k - 1) =~= tail) by {
            assert forall|x: int| 0 <= x < k - 1 implies more[x] == tail[x] by {
                assert(out.subrange(0, k)[x + 1] == word[x + 1]);
            }
        }
        lemma_raw(less, from, to, n, word, 1);
        assert forall|i: int| 0 <= i < k implies s[i] == word[i] by {
            assert(out.subrange(0, k)[i] == word[i]);
            if i > 0 {
                assert(less.subrange(0, k - 1)[i - 1] == tail[i - 1]);
            }
        }
        assert(s.subrange(0, k) =~= word);
    }
    if matches_at(s, 0, word) {
        assert(less.subrange(0, k - 1) =~= tail) by {
            assert forall|x: int| 0 <= x < k - 1 implies less[x] == tail[x] by {
                assert(s.subrange(0, k)[x + 1] == word[x + 1]);
            }
        }
        lemma_stays(less, from, to, n, word, 1);
        assert(less.skip(k - 1) =~= s.skip(k));
        assert(s.subrange(0, k)[0] == word[0]);
        assert(out =~= word + swapped(s.skip(k), from, to, n));
        assert(out.subrange(0, k) =~= word);
    }
}

/// A block with no occurrence of `needle` at its bytes is copied by a replacement.
proof fn lemma_replaced_block(block: Seq<u8>, rest: Seq<u8>, needle: Seq<u8>, by: Seq<u8>, k: int)
    requires
        needle.len() > 0,
        is_clear_of(block, needle),
        apart(needle, block),
        0 <= k <= block.len(),
    ensures
        replaced(block.skip(k) + rest, needle, by) == block.skip(k) + replaced(rest, needle, by),
    decreases block.len() - k,
{
    let s = block.skip(k) + rest;
    if k == block.len() {
        assert(s =~= rest);
        assert(block.skip(k) + replaced(rest, needle, by) =~= replaced(rest, needle, by));
    } else {
        if matches_at(s, 0, needle) {
            let m = s.subrange(0, needle.len() as int);
            assert(m == needle);
            if k == 0 {
                let i = choose|i: int|
                    0 <= i < needle.len() && i < block.len() && needle[i] != block[i];
                assert(m[i] == s[i]);
                assert(s[i] == block[i]);
            } else {
                assert forall|i: int|
                    0 <= i < needle.len() && k + i < block.len() implies #[trigger] block[k + i]
                    == needle[i] by {
                    assert(m[i] == s[i]);
                }
                assert(meets(block, needle, k));
            }
        }
        lemma_replaced_block(block, rest, needle, by, k + 1);
        assert(s.skip(1) =~= block.skip(k + 1) + rest);
        assert(seq![s[0]] + block.skip(k + 1) =~= block.skip(k));
        assert(replaced(s, needle, by) =~= block.skip(k) + replaced(rest, needle, by));
    }
}

/// One more word: substituting it after the others is the same as substituting all of
/// them in one pass.
pub proof fn lemma_one_more(s: Seq<u8>, from: Seq<Seq<u8>>, to: Seq<Seq<u8>>, n: int)
    requires
        clear_words(from, to),
        0 <= n < from.len(),
        all_apart(from, to),
    ensures
        replaced(swapped(s, from, to, n), from[n], to[n]) == swapped(s, from, to, n + 1),
    decreases s.len(),
{
    let needle = from[n];
    let by = to[n];
    let out = swapped(s, from, to, n);
    assert(needle.len() > 0);
    if s.len() > 0 {
        lemma_find_word(s, from, n);
        lemma_find_word(s, from, n + 1);
        match find_word(s, from, n) {
            Some(i) => {
                assert(from[i].len() > 0);
                assert(to[i].len() > 0);
                let rest = s.skip(from[i].len() as int);
                lemma_one_more(rest, from, to, n);
                assert(apart(from[n], to[i]));
                lemma_replaced_block(to[i], swapped(rest, from, to, n), needle, by, 0);
                assert(to[i].skip(0) =~= to[i]);
            },
            None => {
                lemma_raw_match(s, from, to, n, needle);
                if matches_at(s, 0, needle) {
                    let k = needle.len() as int;
                    lemma_one_more(s.skip(k), from, to, n);
                    assert(out.skip(k) =~= swapped(s.skip(k), from, to, n));
                    assert(out.len() > 0);
                } else {
                    let rest = s.skip(1);
                    lemma_one_more(rest, from, to, n);
                    assert(out.skip(1) =~= swapped(rest, from, to, n));
                    assert(out[0] == s[0]);
                }
            },
        }
    }
}

/// A block with no occurrence of `needle` at its bytes adds none.
proof fn lemma_counted_block(block: Seq<u8>, rest: Seq<u8>, needle: Seq<u8>, k: int)
    requires
        needle.len() > 0,
        is_clear_of(block, needle),
        apart(needle, block),
        0 <= k <= block.len(),
    ensures
        occurrences(block.skip(k) + rest, needle) == occurrences(rest, needle),
    decreases block.len() - k,
{
    let s = block.skip(k) + rest;
    if k == block.len() {
        assert(s =~= rest);
    } else {
        if matches_at(s, 0, needle) {
            let m = s.subrange(0, needle.len() as int);
            assert(m == needle);
            if k == 0 {
                let i = choose|i: int|
                    0 <= i < needle.len() && i < block.len() && needle[i] != block[i];
                assert(m[i] == s[i]);
                assert(s[i] == block[i]);
            } else {
                assert forall|i: int|
                    0 <= i < needle.len() && k + i < block.len() implies #[trigger] block[k + i]
                    == needle[i] by {
                    assert(m[i] == s[i]);
                }
                assert(meets(block, needle, k));
            }
        }
        lemma_counted_block(block, rest, needle, k + 1);
        assert(s.skip(1) =~= block.skip(k + 1) + rest);
    }
}

/// Substituting other words neither brings a word in nor takes one away.
pub proof fn lemma_same_count(s: Seq<u8>, from: Seq<Seq<u8>>, to: Seq<Seq<u8>>, n: int)
    requires
        clear_words(from, to),
        0 <= n < from.len(),
        all_apart(from, to),
        forall|i: int| 0 <= i < n ==> apart(from[n], #[trigger] from[i]),
    ensures
        occurrences(swapped(s, from, to, n), from[n]) == occurrences(s, from[n]),
    decreases s.len(),
{
    let needle = from[n];
    let out = swapped(s, from, to, n);
    assert(needle.len() > 0);
    if s.len() > 0 {
        lemma_find_word(s, from, n);
        match find_word(s, from, n) {
            Some(i) => {
                assert(from[i].len() > 0);
                assert(to[i].len() > 0);
                let k = from[i].len() as int;
                let rest = s.skip(k);
                lemma_same_count(rest, from, to, n);
                assert(apart(from[n], to[i]));
                lemma_counted_block(to[i], swapped(rest, from, to, n), needle, 0);
                assert(to[i].skip(0) =~= to[i]);
                lemma_counted_block(from[i], rest, needle, 0);
                assert(from[i].skip(0) =~= from[i]);
                assert(s =~= s.subrange(0, k) + rest);
            },
            None => {
                lemma_raw_match(s, from, to, n, needle);
                if matches_at(s, 0, needle) {
                    let k = needle.len() as int;
                    lemma_same_count(s.skip(k), from, to, n);
                    assert(out.skip(k) =~= swapped(s.skip(k), from, to, n));
                    assert(out.len() > 0);
                } else {
                    let rest = s.skip(1);
                    lemma_same_count(rest, from, to, n);
                    assert(out.skip(1) =~= swapped(rest, from, to, n));
                    assert(out[0] == s[0]);
                }
            },
        }
    }
}

/// A pass without words.
pub proof fn lemma_no_words(s: Seq<u8>, from: Seq<Seq<u8>>, to: Seq<Seq<u8>>)
    ensures
        swapped(s, from, to, 0) == s,
    decreases s.len(),
{
    if s.len() > 0 {
        lemma_no_words(s.skip(1), from, to);
        assert(seq![s[0]] + s.skip(1) =~= s);
    }
}

/// After the pass, none of the words is left.
pub proof fn lemma_none_left(
    s: Seq<u8>,
    from: Seq<Seq<u8>>,
    to: Seq<Seq<u8>>,
    word: int,
    at: int,
)
    requires
        clear_words(from, to),
        all_apart(from, to),
        0 <= word < from.len(),
    ensures
        !matches_at(swapped(s, from, to, from.len() as int), at, from[word]),
    decreases s.len(),
{
    let n = from.len() as int;
    let out = swapped(s, from, to, n);
    let w = from[word];
    assert(w.len() > 0);
    if s.len() > 0 && matches_at(out, at, w) {
        let m = out.subrange(at, at + w.len());
        assert(m == w);
        assert(m[0] == out[at]);
        lemma_find_word(s, from, n);
        match find_word(s, from, n) {
            Some(i) => {
                assert(from[i].len() > 0);
                assert(to[i].len() > 0);
                let rest = s.skip(from[i].len() as int);
                let more = swapped(rest, from, to, n);
                let k = to[i].len() as int;
                if 0 < at < k {
                    assert forall|j: int| 0 <= j < w.len() && at + j < k implies #[trigger] to[i][at
                        + j] == w[j] by {
                        assert(m[j] == out[at + j]);
                    }
                    assert(meets(to[i], w, at));
                    assert(is_clear_of(to[i], from[word]));
                } else if at < k {
                    assert(apart(from[word], to[i]));
                    let j = choose|j: int| 0 <= j < w.len() && j < k && w[j] != to[i][j];
                    assert(m[j] == out[at + j]);
                    assert(out[j] == to[i][j]);
                } else {
                    assert(more.subrange(at - k, at - k + w.len()) =~= m);
                    lemma_none_left(rest, from, to, word, at - k);
                }
            },
            None => {
                if at == 0 {
                    lemma_raw_match(s, from, to, n, w);
                } else {
                    let more = swapped(s.skip(1), from, to, n);
                    assert(more.subrange(at - 1, at - 1 + w.len()) =~= m);
                    lemma_none_left(s.skip(1), from, to, word, at - 1);
                }
            },
        }
    }
}

/// What occurs nowhere is counted nowhere.
pub proof fn lemma_no_occurrence(s: Seq<u8>, needle: Seq<u8>)
    requires
        forall|at: int| !#[trigger] matches_at(s, at, needle),
    ensures
        occurrences(s, needle) == 0,
    decreases s.len(),
{
    if s.len() > 0 && needle.len() > 0 {
        assert(!matches_at(s, 0, needle));
        let rest = s.skip(1);
        assert forall|at: int| !#[trigger] matches_at(rest, at, needle) by {
            if matches_at(rest, at, needle) {
                assert(s.subrange(at + 1, at + 1 + needle.len()) =~= rest.subrange(
                    at,
                    at + needle.len(),
                ));
                assert(matches_at(s, at + 1, needle));
            }
        }
        lemma_no_occurrence(rest, needle);
    }
}

/// Substituting back gives the bytes as they were, where none of the words that come
/// into them stood there before.
pub proof fn lemma_back(s: Seq<u8>, from: Seq<Seq<u8>>, to: Seq<Seq<u8>>)
    requires
        clear_words(from, to),
        forall|i: int, j: int|
            0 <= i < j < from.len() && !apart(#[trigger] to[i], #[trigger] to[j])
                ==> !apart(from[i], from[j]) && from[i].len() <= from[j].len(),
        forall|at: int, i: int|
            0 <= i < to.len() ==> !#[trigger] matches_at(s, at, #[trigger] to[i]),
    ensures
        swapped(
            swapped(s, from, to, from.len() as int),
            to,
            from,
            from.len() as int,
        ) == s,
    decreases s.len(),
{
    let n = from.len() as int;
    let out = swapped(s, from, to, n);
    if s.len() > 0 {
        lemma_find_word(s, from, n);
        lemma_find_word(out, to, n);
        match find_word(s, from, n) {
            Some(i) => {
                assert(from[i].len() > 0);
                assert(to[i].len() > 0);
                let k = from[i].len() as int;
                let rest = s.skip(k);
                lemma_nowhere(s, to, k);
                lemma_back(rest, from, to);
                let more = swapped(rest, from, to, n);
                let l = to[i].len() as int;
                assert(out =~= to[i] + more);
                assert(out.subrange(0, l) =~= to[i]);
                assert(matches_at(out, 0, to[i]));
                let j = find_word(out, to, n)->0;
                if j < i {
                    lemma_both_match(out, to[j], to[i]);
                    assert(!apart(from[j], from[i]));
                    lemma_prefix_matches(s, from[j], from[i]);
                }
                assert(j == i);
                assert(out.skip(l) =~= more);
                assert(from[i] + rest =~= s) by {
                    assert(s.subrange(0, k) =~= s.take(k));
                }
            },
            None => {
                let rest = s.skip(1);
                lemma_nowhere(s, to, 1);
                lemma_back(rest, from, to);
                if find_word(out, to, n) is Some {
                    let j = find_word(out, to, n)->0;
                    assert(to[j].len() > 0);
                    lemma_raw_match(s, from, to, n, to[j]);
                    assert(matches_at(s, 0, to[j]));
                }
                assert(out[0] == s[0]);
                assert(out.skip(1) =~= swapped(rest, from, to, n));
                assert(seq![s[0]] + rest =~= s);
            },
        }
    }
}

/// What occurs nowhere occurs nowhere in the rest.
proof fn lemma_nowhere(s: Seq<u8>, words: Seq<Seq<u8>>, k: int)
    requires
        0 <= k <= s.len(),
        forall|at: int, i: int|
            0 <= i < words.len() ==> !#[trigger] matches_at(s, at, #[trigger] words[i]),
    ensures
        forall|at: int, i: int|
            0 <= i < words.len() ==> !#[trigger] matches_at(s.skip(k), at, #[trigger] words[i]),
{
    let rest = s.skip(k);
    assert forall|at: int, i: int| 0 <= i < words.len() implies !#[trigger] matches_at(
        rest,
        at,
        #[trigger] words[i],
    ) by {
        if matches_at(rest, at, words[i]) {
            assert(s.subrange(at + k, at + k + words[i].len()) =~= rest.subrange(
                at,
                at + words[i].len(),
            ));
            assert(matches_at(s, at + k, words[i]));
        }
    }
}

/// Two words at the same place: one starts with the other.
proof fn lemma_both_match(s: Seq<u8>, a: Seq<u8>, b: Seq<u8>)
    requires
        matches_at(s, 0, a),
        matches_at(s, 0, b),
    ensures
        !apart(a, b),
{
    assert forall|i: int| 0 <= i < a.len() && i < b.len() implies a[i] == b[i] by {
        assert(s.subrange(0, a.len() as int)[i] == s[i]);
        assert(s.subrange(0, b.len() as int)[i] == s[i]);
    }
}

/// Where a word stands, so does what it starts with.
proof fn lemma_prefix_matches(s: Seq<u8>, a: Seq<u8>, b: Seq<u8>)
    requires
        matches_at(s, 0, b),
        !apart(a, b),
        a.len() <= b.len(),
    ensures
        matches_at(s, 0, a),
{
    assert forall|i: int| 0 <= i < a.len() implies s[i] == a[i] by {
        assert(s.subrange(0, b.len() as int)[i] == b[i]);
    }
    assert(s.subrange(0, a.len() as int) =~= a);
}

// ---------------------------------------------------------------------------
// Words with letters of their own at the start
// ---------------------------------------------------------------------------

/// A letter that a word starts with: `w`, `F` or `E`.
pub open spec fn is_lead(b: u8) -> bool {
    b == 0x77 || b == 0x46 || b == 0x45
}

/// A word with such a letter at its start, and none after that.
pub open spec fn is_lead_word(w: Seq<u8>) -> bool {
    &&& w.len() > 0
    &&& is_lead(w[0])
    &&& forall|i: int| 0 < i < w.len() ==> !is_lead(#[trigger] w[i])
}

/// The words, and what they become, start with letters that do not occur again.
pub open spec fn lead_words(from: Seq<Seq<u8>>, to: Seq<Seq<u8>>) -> bool {
    &&& from.len() == to.len()
    &&& forall|i: int| 0 <= i < from.len() ==> is_lead_word(#[trigger] from[i])
    &&& forall|i: int| 0 <= i < to.len() ==> is_lead_word(#[trigger] to[i])
}

/// Such words cannot start inside each other.
pub proof fn lemma_lead_words(from: Seq<Seq<u8>>, to: Seq<Seq<u8>>)
    requires
        lead_words(from, to),
    ensures
        clear_words(from, to),
{
    assert forall|a: Seq<u8>, b: Seq<u8>| is_lead_word(a) && is_lead_word(b) implies #[trigger] is_clear_of(
        a,
        b,
    ) by {
        assert forall|k: int| 0 < k < a.len() implies !#[trigger] meets(a, b, k) by {
            assert(a[k + 0] != b[0]);
        }
    }
}

} // verus!
