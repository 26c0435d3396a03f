//! Entries of the content-types and relationship parts.

use vstd::prelude::*;
use vstd::utf8::is_ascii_chars_encode_utf8;

use crate::bytes::{find_from, first_match, lit, match_at, matches_at, push_all};
use crate::text::{
    all_digits, decimal, is_digit, law_numbers_are_read_back, lemma_decimal_value, parse_unsigned,
    parsed_unsigned,
};

verus! {

/// The last position before `to` where `needle` stands in `s`.
pub open spec fn last_match(s: Seq<u8>, needle: Seq<u8>, to: int) -> Option<int>
    decreases to,
{
    if to <= 0 {
        None
    } else if matches_at(s, to - 1, needle) {
        Some(to - 1)
    } else {
        last_match(s, needle, to - 1)
    }
}

/// `last_match` is the greatest position before `to` with a match.
pub proof fn lemma_last_match(s: Seq<u8>, needle: Seq<u8>, to: int)
    ensures
        match last_match(s, needle, to) {
            Some(p) => 0 <= p < to && matches_at(s, p, needle) && forall|j: int|
                p < j < to ==> !matches_at(s, j, needle),
            None => forall|j: int| 0 <= j < to ==> !matches_at(s, j, needle),
        },
    decreases to,
{
    if to > 0 && !matches_at(s, to - 1, needle) {
        lemma_last_match(s, needle, to - 1);
    }
}

/// `s` with `more` put before the last occurrence of `closing`, if there is one.
pub open spec fn inserted_before_last(s: Seq<u8>, closing: Seq<u8>, more: Seq<u8>) -> Option<Seq<u8>> {
    match last_match(s, closing, s.len() as int) {
        Some(p) => Some(s.take(p) + more + s.skip(p)),
        None => None,
    }
}

/// The decimal digits that stand at position `i`.
pub open spec fn digits_at(s: Seq<u8>, i: int) -> Seq<char>
    decreases s.len() - i,
{
    if i < 0 || i >= s.len() || !(0x30 <= s[i] <= 0x39) {
        Seq::empty()
    } else {
        seq![s[i] as char] + digits_at(s, i + 1)
    }
}

/// The number of the relationship whose id stands at position `i`; zero where there is
/// none, or none that fits 32 bits.
pub open spec fn rid_at(s: Seq<u8>, i: int) -> int {
    if matches_at(s, i, lit("Id=\"rId")) {
        match parsed_unsigned(digits_at(s, i + lit("Id=\"rId").len()), u32::MAX as int) {
            Some(n) => n,
            None => 0,
        }
    } else {
        0
    }
}

/// The greatest number of a relationship before position `n`.
pub open spec fn max_rid(s: Seq<u8>, n: int) -> int
    decreases n,
{
    if n <= 0 {
        0
    } else if rid_at(s, n - 1) > max_rid(s, n - 1) {
        rid_at(s, n - 1)
    } else {
        max_rid(s, n - 1)
    }
}

/// The first number after those of all relationships.
pub open spec fn free_rid(s: Seq<u8>) -> int {
    max_rid(s, s.len() as int) + 1
}

/// No relationship has the free number, nor a greater one.
pub proof fn law_free_rid(s: Seq<u8>, i: int)
    requires
        0 <= i < s.len(),
    ensures
        rid_at(s, i) < free_rid(s),
{
    lemma_max_rid(s, s.len() as int, i);
}

proof fn lemma_max_rid(s: Seq<u8>, n: int, i: int)
    requires
        0 <= i < n,
    ensures
        rid_at(s, i) <= max_rid(s, n),
    decreases n,
{
    if i < n - 1 {
        lemma_max_rid(s, n - 1, i);
    }
}

/// Whether `needle`, which is not empty, occurs in `hay`.
pub open spec fn occurs(hay: Seq<u8>, needle: Seq<u8>) -> bool {
    needle.len() > 0 && first_match(hay, needle, 0) is Some
}

/// Whether `needle` occurs in `hay`. An empty needle occurs nowhere.
pub fn memchr_contains(hay: &[u8], needle: &[u8]) -> (r: bool)
    ensures
        r == occurs(hay@, needle@),
{
    needle.len() > 0 && find_from(hay, needle, 0).is_some()
}

/// The last position where `needle` occurs.
pub fn find_last(data: &[u8], needle: &[u8]) -> (r: Option<usize>)
    ensures
        match r {
            Some(p) => last_match(data@, needle@, data@.len() as int) == Some(p as int) && p
                < data@.len(),
            None => last_match(data@, needle@, data@.len() as int) is None,
        },
{
    let mut n: usize = data.len();
    while n > 0
        invariant
            n <= data@.len(),
            last_match(data@, needle@, data@.len() as int) == last_match(
                data@,
                needle@,
                n as int,
            ),
        decreases n,
    {
        if match_at(data, n - 1, needle) {
            return Some(n - 1);
        }
        n -= 1;
    }
    None
}

/// The bytes with `more` put before the last occurrence of `closing`.
pub fn insert_before_last(data: &[u8], closing: &str, more: &[u8]) -> (r: Option<Vec<u8>>)
    ensures
        match r {
            Some(v) => inserted_before_last(data@, lit(closing), more@) == Some(v@),
            None => inserted_before_last(data@, lit(closing), more@) is None,
        },
{
    match find_last(data, closing.as_bytes()) {
        None => None,
        Some(p) => {
            let mut out: Vec<u8> = Vec::new();
            push_all(&mut out, vstd::slice::slice_subrange(data, 0, p));
            push_all(&mut out, more);
            push_all(&mut out, vstd::slice::slice_subrange(data, p, data.len()));
            assert(out@ =~= data@.take(p as int) + more@ + data@.skip(p as int));
            Some(out)
        },
    }
}

/// The decimal digits that stand at position `i`.
pub fn read_digits(data: &[u8], i: usize) -> (r: Vec<char>)
    ensures
        r@ == digits_at(data@, i as int),
        i <= data@.len() ==> i + r@.len() <= data@.len(),
{
    let mut r: Vec<char> = Vec::new();
    let mut k: usize = i;
    assert(r@ + digits_at(data@, k as int) =~= digits_at(data@, i as int));
    while k < data.len() && 0x30 <= data[k] && data[k] <= 0x39
        invariant
            i <= k,
            i <= data@.len() ==> k <= data@.len(),
            k == i + r@.len(),
            r@ + digits_at(data@, k as int) == digits_at(data@, i as int),
        decreases data@.len() - k,
    {
        let ghost before = r@;
        r.push(data[k] as char);
        proof {
            assert(before + digits_at(data@, k as int) =~= r@ + digits_at(data@, k + 1));
        }
        k += 1;
    }
    assert(r@ + digits_at(data@, k as int) =~= r@);
    r
}

/// The first relationship number that is free.
pub fn next_rid(rels_xml: &str) -> (r: u64)
    ensures
        r == free_rid(lit(rels_xml)),
{
    next_rid_in(rels_xml.as_bytes())
}

/// The first relationship number that is free.
pub fn next_rid_in(data: &[u8]) -> (r: u64)
    ensures
        r == free_rid(data@),
{
    let prefix = "Id=\"rId".as_bytes();
    let mut max: u64 = 0;
    let mut i: usize = 0;
    while i < data.len()
        invariant
            i <= data@.len(),
            prefix@ == lit("Id=\"rId"),
            max <= u32::MAX,
            max == max_rid(data@, i as int),
        decreases data@.len() - i,
    {
        if match_at(data, i, prefix) {
            let total: usize = data.len();
            assert(i + prefix@.len() <= total);
            let digits = read_digits(data, i + prefix.len());
            if let Some(n) = parse_unsigned(&digits, u32::MAX as u64) {
                if n > max {
                    max = n;
                }
            }
        }
        i += 1;
    }
    max + 1
}

proof fn lemma_greatest(s: Seq<u8>, n: int)
    ensures
        max_rid(s, n) >= 0,
        max_rid(s, n) > 0 ==> exists|i: int| 0 <= i < n && #[trigger] rid_at(s, i) == max_rid(s, n),
    decreases n,
{
    if n > 0 {
        lemma_greatest(s, n - 1);
        if rid_at(s, n - 1) <= max_rid(s, n - 1) && max_rid(s, n - 1) > 0 {
            let i = choose|i: int| 0 <= i < n - 1 && #[trigger] rid_at(s, i) == max_rid(s, n - 1);
            assert(rid_at(s, i) == max_rid(s, n));
        }
    }
}

/// The free number is one where no relationship has a number, and else the one after the
/// greatest.
pub proof fn law_free_rid_is_the_next(s: Seq<u8>)
    ensures
        free_rid(s) == 1 || exists|i: int|
            0 <= i < s.len() && #[trigger] rid_at(s, i) == free_rid(s) - 1,
        (forall|i: int| 0 <= i < s.len() ==> #[trigger] rid_at(s, i) == 0) ==> free_rid(s) == 1,
{
    lemma_greatest(s, s.len() as int);
    if forall|i: int| 0 <= i < s.len() ==> #[trigger] rid_at(s, i) == 0 {
        if max_rid(s, s.len() as int) > 0 {
            let i = choose|i: int|
                0 <= i < s.len() && #[trigger] rid_at(s, i) == max_rid(s, s.len() as int);
            assert(rid_at(s, i) == 0);
        }
    }
}

proof fn lemma_digits_at(s: Seq<u8>, i: int, digits: Seq<char>)
    requires
        0 <= i,
        i + digits.len() < s.len(),
        all_digits(digits),
        forall|k: int| 0 <= k < digits.len() ==> s[i + k] as char == #[trigger] digits[k],
        !(0x30 <= s[i + digits.len()] <= 0x39),
    ensures
        digits_at(s, i) == digits,
    decreases digits.len(),
{
    if digits.len() > 0 {
        let rest = digits.skip(1);
        assert(is_digit(digits[0]));
        assert(s[i + 0] as char == digits[0]);
        assert forall|k: int| 0 <= k < rest.len() implies s[i + 1 + k] as char
            == #[trigger] rest[k] by {
            assert(rest[k] == digits[k + 1]);
            assert(s[i + (k + 1)] as char == digits[k + 1]);
        }
        assert forall|k: int| 0 <= k < rest.len() implies is_digit(#[trigger] rest[k]) by {
            assert(rest[k] == digits[k + 1]);
        }
        lemma_digits_at(s, i + 1, rest);
        assert(digits =~= seq![digits[0]] + rest);
    }
}

/// The number of a relationship is the one that is written after `Id="rId`, up to the closing
/// quote; and the free number is greater.
pub proof fn law_numbers_of_relationships(s: Seq<u8>, i: int, n: nat)
    requires
        n <= u32::MAX,
        matches_at(s, i, lit("Id=\"rId")),
        i + 7 + decimal(n).len() < s.len(),
        forall|k: int| 0 <= k < decimal(n).len() ==> s[i + 7 + k] as char == #[trigger] decimal(n)[k],
        s[i + 7 + decimal(n).len()] == 0x22,
    ensures
        rid_at(s, i) == n,
        free_rid(s) > n,
{
    reveal_strlit("Id=\"rId");
    is_ascii_chars_encode_utf8("Id=\"rId"@);
    assert(lit("Id=\"rId").len() == 7);
    law_numbers_are_read_back(n, u32::MAX as int);
    lemma_decimal_value(n);
    lemma_digits_at(s, i + 7, decimal(n));
    law_free_rid(s, i);
}

} // verus!
