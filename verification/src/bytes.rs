//! Byte-sequence primitives: comparison, search and substitution.

use vstd::prelude::*;
use vstd::utf8::*;

verus! {

/// The UTF-8 bytes of a string.
pub open spec fn lit(s: &str) -> Seq<u8> {
    encode_utf8(s@)
}

/// `needle` stands in `s` at position `i`.
pub open spec fn matches_at(s: Seq<u8>, i: int, needle: Seq<u8>) -> bool {
    &&& 0 <= i
    &&& i + needle.len() <= s.len()
    &&& s.subrange(i, i + needle.len()) == needle
}

/// The first position at or after `from` where `needle` stands in `s`.
pub open spec fn first_match(s: Seq<u8>, needle: Seq<u8>, from: int) -> Option<int>
    decreases s.len() - from + 1,
{
    if from + needle.len() > s.len() {
        None
    } else if matches_at(s, from, needle) {
        Some(from)
    } else {
        first_match(s, needle, from + 1)
    }
}

/// `s` with every occurrence of `needle`, taken left to right without overlap,
/// replaced. An empty needle occurs nowhere.
pub open spec fn replaced(s: Seq<u8>, needle: Seq<u8>, replacement: Seq<u8>) -> Seq<u8>
    decreases s.len(),
{
    if needle.len() == 0 || s.len() == 0 {
        s
    } else if matches_at(s, 0, needle) {
        replacement + replaced(s.skip(needle.len() as int), needle, replacement)
    } else {
        seq![s[0]] + replaced(s.skip(1), needle, replacement)
    }
}

/// How many occurrences `replaced` replaces.
pub open spec fn occurrences(s: Seq<u8>, needle: Seq<u8>) -> nat
    decreases s.len(),
{
    if needle.len() == 0 || s.len() == 0 {
        0
    } else if matches_at(s, 0, needle) {
        1 + occurrences(s.skip(needle.len() as int), needle)
    } else {
        occurrences(s.skip(1), needle)
    }
}

/// `first_match` is the least position with a match.
pub proof fn lemma_first_match(s: Seq<u8>, needle: Seq<u8>, from: int)
    requires
        0 <= from,
    ensures
        match first_match(s, needle, from) {
            Some(i) => from <= i && matches_at(s, i, needle) && forall|j: int|
                from <= j < i ==> !matches_at(s, j, needle),
            None => forall|j: int| from <= j ==> !matches_at(s, j, needle),
        },
    decreases s.len() - from + 1,
{
    if from + needle.len() <= s.len() && !matches_at(s, from, needle) {
        lemma_first_match(s, needle, from + 1);
    }
}

/// Where `needle` occurs nowhere, nothing is replaced.
pub proof fn lemma_replaced_without_occurrence(s: Seq<u8>, needle: Seq<u8>, replacement: Seq<u8>)
    requires
        occurrences(s, needle) == 0,
    ensures
        replaced(s, needle, replacement) == s,
    decreases s.len(),
{
    if needle.len() == 0 || s.len() == 0 {
    } else if matches_at(s, 0, needle) {
    } else {
        lemma_replaced_without_occurrence(s.skip(1), needle, replacement);
        assert(seq![s[0]] + s.skip(1) =~= s);
    }
}

/// Whether two byte slices hold the same bytes.
pub fn bytes_eq(a: &[u8], b: &[u8]) -> (r: bool)
    ensures
        r == (a@ == b@),
{
    if a.len() != b.len() {
        return false;
    }
    let mut i: usize = 0;
    while i < a.len()
        invariant
            i <= a.len(),
            a.len() == b.len(),
            forall|j: int| 0 <= j < i ==> a@[j] == b@[j],
        decreases a.len() - i,
    {
        if a[i] != b[i] {
            return false;
        }
        i += 1;
    }
    assert(a@ =~= b@);
    true
}

/// Whether a byte slice holds the bytes of a string.
pub fn is_str(a: &[u8], s: &str) -> (r: bool)
    ensures
        r == (a@ == lit(s)),
{
    bytes_eq(a, s.as_bytes())
}

/// Appends a byte slice.
pub fn push_all(out: &mut Vec<u8>, more: &[u8])
    ensures
        final(out)@ == old(out)@ + more@,
{
    out.extend_from_slice(more);
    assert(out@ =~= old(out)@ + more@);
}

/// Appends the bytes of a string.
pub fn push_str(out: &mut Vec<u8>, more: &str)
    ensures
        final(out)@ == old(out)@ + lit(more),
{
    push_all(out, more.as_bytes());
}

/// A copy of a byte slice.
pub fn to_vec(a: &[u8]) -> (r: Vec<u8>)
    ensures
        r@ == a@,
{
    let mut out: Vec<u8> = Vec::new();
    push_all(&mut out, a);
    assert(out@ =~= a@);
    out
}

/// Whether `needle` stands in `data` at position `i`.
pub fn match_at(data: &[u8], i: usize, needle: &[u8]) -> (r: bool)
    ensures
        r == matches_at(data@, i as int, needle@),
{
    if needle.len() > data.len() || i > data.len() - needle.len() {
        return false;
    }
    bytes_eq(vstd::slice::slice_subrange(data, i, i + needle.len()), needle)
}

/// The first position at or after `from` where `needle` occurs.
pub fn find_from(data: &[u8], needle: &[u8], from: usize) -> (r: Option<usize>)
    ensures
        match r {
            Some(i) => first_match(data@, needle@, from as int) == Some(i as int),
            None => first_match(data@, needle@, from as int) is None,
        },
{
    let mut i: usize = from;
    while needle.len() <= data.len() && i <= data.len() - needle.len()
        invariant
            from <= i,
            first_match(data@, needle@, from as int) == first_match(data@, needle@, i as int),
        decreases data.len() - i,
    {
        if match_at(data, i, needle) {
            return Some(i);
        }
        assert(i < data.len()) by {
            if needle@.len() == 0 {
                assert(data@.subrange(i as int, i as int) =~= needle@);
            }
        }
        i += 1;
    }
    None
}

/// Replaces every occurrence of `needle` and counts the replacements.
pub fn replace_counting(data: &mut Vec<u8>, needle: &[u8], replacement: &[u8]) -> (n: usize)
    ensures
        final(data)@ == replaced(old(data)@, needle@, replacement@),
        n == occurrences(old(data)@, needle@),
{
    if needle.len() == 0 {
        return 0;
    }
    let mut out: Vec<u8> = Vec::new();
    let mut i: usize = 0;
    let mut n: usize = 0;
    assert(data@.skip(0) =~= data@);
    while i < data.len()
        invariant
            needle.len() > 0,
            i <= data.len(),
            n <= i,
            *data == *old(data),
            out@ + replaced(data@.skip(i as int), needle@, replacement@) == replaced(
                data@,
                needle@,
                replacement@,
            ),
            n + occurrences(data@.skip(i as int), needle@) == occurrences(data@, needle@),
        decreases data.len() - i,
    {
        let ghost rest = data@.skip(i as int);
        let ghost before = out@;
        if match_at(data, i, needle) {
            proof {
                assert(rest.subrange(0, needle@.len() as int) =~= data@.subrange(
                    i as int,
                    i + needle@.len(),
                ));
                assert(rest.skip(needle@.len() as int) =~= data@.skip(i + needle@.len()));
            }
            push_all(&mut out, replacement);
            i += needle.len();
            n += 1;
            assert(out@ + replaced(data@.skip(i as int), needle@, replacement@) =~= before
                + replaced(rest, needle@, replacement@));
        } else {
            proof {
                if matches_at(rest, 0, needle@) {
                    assert(rest.subrange(0, needle@.len() as int) =~= data@.subrange(
                        i as int,
                        i + needle@.len(),
                    ));
                }
                assert(rest.skip(1) =~= data@.skip(i + 1));
            }
            let b: u8 = data[i];
            out.push(b);
            i += 1;
            assert(out@ + replaced(data@.skip(i as int), needle@, replacement@) =~= before
                + replaced(rest, needle@, replacement@));
        }
    }
    assert(out@ + data@.skip(i as int) =~= out@);
    *data = out;
    n
}

/// A count, as far as it fits.
pub open spec fn capped(n: int) -> int {
    if n > usize::MAX {
        usize::MAX as int
    } else {
        n
    }
}

/// The sum of two counts, as far as it fits.
pub fn add_capped(a: usize, b: usize) -> (r: usize)
    ensures
        r == capped(a + b),
{
    if a > usize::MAX - b {
        usize::MAX
    } else {
        a + b
    }
}

} // verus!
