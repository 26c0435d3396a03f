//! Strings: comparison, search and conversion.

use vstd::prelude::*;
use vstd::utf8::*;

use crate::bytes::bytes_eq;

verus! {

// ---------------------------------------------------------------------------
// Functions of std
// ---------------------------------------------------------------------------

/// Unicode's White_Space property beyond the ASCII characters, as std has it.
pub uninterp spec fn is_unicode_white(c: char) -> bool;

/// The white space among the ASCII characters.
pub open spec fn is_ascii_white(c: char) -> bool {
    c == ' ' || ('\t' <= c && c <= '\r')
}

/// White space.
pub open spec fn is_white(c: char) -> bool {
    if (c as u32) < 128 {
        is_ascii_white(c)
    } else {
        is_unicode_white(c)
    }
}

/// `char::is_whitespace`: Unicode white space; among ASCII characters the space and
/// the controls from tab to carriage return.
pub assume_specification[ char::is_whitespace ](c: char) -> (r: bool)
    ensures
        (c as u32) < 128 ==> r == is_ascii_white(c),
        (c as u32) >= 128 ==> r == is_unicode_white(c),
;

/// Unicode's alphanumeric characters, as std has them.
pub uninterp spec fn is_alnum(c: char) -> bool;

/// `char::is_alphanumeric`: Unicode letters and numbers; among ASCII characters the
/// letters and the digits.
pub assume_specification[ char::is_alphanumeric ](c: char) -> (r: bool)
    ensures
        r == is_alnum(c),
        (c as u32) < 128 ==> (r <==> ('0' <= c && c <= '9') || ('a' <= c && c <= 'z') || ('A' <= c
            && c <= 'Z')),
;

/// The lowercase equivalent of a string with other than ASCII characters, as std has it.
pub uninterp spec fn unicode_lowercase(s: Seq<char>) -> Seq<char>;

/// The lowercase equivalent of an ASCII character.
pub open spec fn ascii_lower(c: char) -> char {
    if 'A' <= c && c <= 'Z' {
        (c as u32 + 32) as char
    } else {
        c
    }
}

/// The lowercase equivalent of a string.
pub open spec fn lowercase(s: Seq<char>) -> Seq<char> {
    if is_ascii_chars(s) {
        s.map_values(|c: char| ascii_lower(c))
    } else {
        unicode_lowercase(s)
    }
}

/// `str::to_lowercase`: Unicode lowercase; an ASCII string changes letter by letter.
pub assume_specification[ str::to_lowercase ](s: &str) -> (r: String)
    ensures
        is_ascii_chars(s@) ==> r@ == s@.map_values(|c: char| ascii_lower(c)),
        !is_ascii_chars(s@) ==> r@ == unicode_lowercase(s@),
;

/// `String::push` appends a character.
pub assume_specification[ String::push ](s: &mut String, c: char)
    ensures
        final(s)@ == old(s)@.push(c),
;

/// What `String::from_utf8_lossy` makes of bytes.
pub uninterp spec fn utf8_lossy(bytes: Seq<u8>) -> Seq<char>;

/// `String::from_utf8_lossy`: the text of the bytes where they are UTF-8.
#[verifier::external_body]
pub(crate) fn from_lossy(bytes: &[u8]) -> (r: String)
    ensures
        r@ == utf8_lossy(bytes@),
        valid_utf8(bytes@) ==> r@ == decode_utf8(bytes@),
{
    String::from_utf8_lossy(bytes).into_owned()
}

/// `std::str::from_utf8`: the text of the bytes, if they are UTF-8.
#[verifier::external_body]
pub(crate) fn utf8_str<'a>(bytes: &'a [u8]) -> (r: Option<&'a str>)
    ensures
        match r {
            Some(s) => valid_utf8(bytes@) && s@ == decode_utf8(bytes@),
            None => !valid_utf8(bytes@),
        },
{
    std::str::from_utf8(bytes).ok()
}

// ---------------------------------------------------------------------------
// Comparison and conversion
// ---------------------------------------------------------------------------

/// The text of the bytes, if they are UTF-8.
pub open spec fn utf8_text(bytes: Seq<u8>) -> Option<Seq<char>> {
    if valid_utf8(bytes) {
        Some(decode_utf8(bytes))
    } else {
        None
    }
}

/// Two strings with the same UTF-8 bytes are the same string.
pub proof fn lemma_lit_injective(a: Seq<char>, b: Seq<char>)
    requires
        encode_utf8(a) == encode_utf8(b),
    ensures
        a == b,
{
    encode_utf8_decode_utf8(a);
    encode_utf8_decode_utf8(b);
}

/// Whether two strings are equal.
pub fn str_eq(a: &str, b: &str) -> (r: bool)
    ensures
        r == (a@ == b@),
{
    let r = bytes_eq(a.as_bytes(), b.as_bytes());
    proof {
        if r {
            lemma_lit_injective(a@, b@);
        }
    }
    r
}

/// Whether two character sequences are equal.
pub fn chars_eq(a: &[char], b: &[char]) -> (r: bool)
    ensures
        r == (a@ == b@),
{
    if a.len() != b.len() {
        return false;
    }
    let mut i: usize = 0;
    while i < a.len()
        invariant
            i <= a.len(),
            a.len() == b.len(),
            forall|j: int| 0 <= j < i ==> a@[j] == b@[j],
        decreases a.len() - i,
    {
        if a[i] != b[i] {
            return false;
        }
        i += 1;
    }
    assert(a@ =~= b@);
    true
}

/// The characters of a string.
pub fn chars_of(s: &str) -> (r: Vec<char>)
    ensures
        r@ == s@,
{
    let mut r: Vec<char> = Vec::new();
    for c in it: s.chars()
        invariant
            it.seq() == s@,
            r@ == s@.take(it.index() as int),
    {
        r.push(c);
        assert(s@.take(it.index() + 1) =~= s@.take(it.index() as int).push(c));
    }
    assert(s@.take(s@.len() as int) =~= s@);
    r
}

/// The string with the given characters.
pub fn string_of(chars: &[char]) -> (r: String)
    ensures
        r@ == chars@,
{
    let mut r = String::new();
    let mut i: usize = 0;
    while i < chars.len()
        invariant
            i <= chars@.len(),
            r@ == chars@.take(i as int),
        decreases chars@.len() - i,
    {
        r.push(chars[i]);
        assert(chars@.take(i + 1) =~= chars@.take(i as int).push(chars@[i as int]));
        i += 1;
    }
    assert(chars@.take(chars@.len() as int) =~= chars@);
    r
}

// ---------------------------------------------------------------------------
// Search
// ---------------------------------------------------------------------------

/// `needle` stands in `s` at position `i`.
pub open spec fn chars_at(s: Seq<char>, i: int, needle: Seq<char>) -> bool {
    &&& 0 <= i
    &&& i + needle.len() <= s.len()
    &&& s.subrange(i, i + needle.len()) == needle
}

/// `s` starts with `prefix`.
pub open spec fn starts_with(s: Seq<char>, prefix: Seq<char>) -> bool {
    chars_at(s, 0, prefix)
}

/// `s` ends with `suffix`.
pub open spec fn ends_with(s: Seq<char>, suffix: Seq<char>) -> bool {
    chars_at(s, s.len() - suffix.len(), suffix)
}

/// The first position at or after `from` where `needle` stands in `s`.
pub open spec fn find_chars(s: Seq<char>, needle: Seq<char>, from: int) -> Option<int>
    decreases s.len() - from + 1,
{
    if from + needle.len() > s.len() {
        None
    } else if chars_at(s, from, needle) {
        Some(from)
    } else {
        find_chars(s, needle, from + 1)
    }
}

/// `needle` stands somewhere in `s`.
pub open spec fn contains_chars(s: Seq<char>, needle: Seq<char>) -> bool {
    find_chars(s, needle, 0) is Some
}

/// Whether `needle` stands in `s` at position `i`.
pub fn match_chars(s: &[char], i: usize, needle: &[char]) -> (r: bool)
    ensures
        r == chars_at(s@, i as int, needle@),
{
    if needle.len() > s.len() || i > s.len() - needle.len() {
        return false;
    }
    chars_eq(vstd::slice::slice_subrange(s, i, i + needle.len()), needle)
}

/// Whether the string `needle` stands in `s` at position `i`.
pub fn match_str(s: &[char], i: usize, needle: &str) -> (r: bool)
    ensures
        r == chars_at(s@, i as int, needle@),
{
    let n = chars_of(needle);
    match_chars(s, i, &n)
}

/// The first position at or after `from` where `needle` stands in `s`.
pub fn find_str(s: &[char], needle: &str, from: usize) -> (r: Option<usize>)
    ensures
        match r {
            Some(i) => find_chars(s@, needle@, from as int) == Some(i as int) && i + needle@.len()
                <= s@.len(),
            None => find_chars(s@, needle@, from as int) is None,
        },
{
    let n = chars_of(needle);
    let mut i: usize = from;
    while n.len() <= s.len() && i <= s.len() - n.len()
        invariant
            from <= i,
            n@ == needle@,
            find_chars(s@, needle@, from as int) == find_chars(s@, needle@, i as int),
        decreases s.len() - i,
    {
        if match_chars(s, i, &n) {
            return Some(i);
        }
        assert(i < s.len()) by {
            if needle@.len() == 0 {
                assert(s@.subrange(i as int, i as int) =~= needle@);
            }
        }
        i += 1;
    }
    None
}

// ---------------------------------------------------------------------------
// Trimming
// ---------------------------------------------------------------------------

/// The first position at or after `from` that holds no white space.
pub open spec fn skip_white(s: Seq<char>, from: int) -> int
    decreases s.len() - from,
{
    if from >= s.len() || !is_white(s[from]) {
        from
    } else {
        skip_white(s, from + 1)
    }
}

/// The end of what is left of `s[..to]` without the white space at its end, but not
/// before `from`.
pub open spec fn skip_white_back(s: Seq<char>, from: int, to: int) -> int
    decreases to - from,
{
    if to <= from || !is_white(s[to - 1]) {
        to
    } else {
        skip_white_back(s, from, to - 1)
    }
}

/// `s` without the white space at its start and end.
pub open spec fn trimmed(s: Seq<char>) -> Seq<char> {
    let from = skip_white(s, 0);
    s.subrange(from, skip_white_back(s, from, s.len() as int))
}

/// The characters without the white space at the start and end.
pub fn trim(s: &[char]) -> (r: &[char])
    ensures
        r@ == trimmed(s@),
{
    let mut from: usize = 0;
    while from < s.len() && s[from].is_whitespace()
        invariant
            from <= s@.len(),
            skip_white(s@, 0) == skip_white(s@, from as int),
        decreases s@.len() - from,
    {
        from += 1;
    }
    let mut to: usize = s.len();
    while to > from && s[to - 1].is_whitespace()
        invariant
            from <= to <= s@.len(),
            skip_white_back(s@, from as int, s@.len() as int) == skip_white_back(
                s@,
                from as int,
                to as int,
            ),
        decreases to - from,
    {
        to -= 1;
    }
    vstd::slice::slice_subrange(s, from, to)
}

// ---------------------------------------------------------------------------
// Numbers
// ---------------------------------------------------------------------------

/// The character of a decimal digit.
pub open spec fn digit_char(d: nat) -> char {
    (0x30 + d) as char
}

/// The decimal notation of a number.
pub open spec fn decimal(n: nat) -> Seq<char>
    decreases n,
{
    if n < 10 {
        seq![digit_char(n)]
    } else {
        decimal(n / 10).push(digit_char(n % 10))
    }
}

/// A power of ten.
pub open spec fn power_of_ten(k: nat) -> nat
    decreases k,
{
    if k == 0 {
        1
    } else {
        10 * power_of_ten((k - 1) as nat)
    }
}

/// A number below a power of ten has at most so many digits.
pub proof fn lemma_decimal_len(n: nat, k: nat)
    requires
        1 <= k,
        n < power_of_ten(k),
    ensures
        decimal(n).len() <= k,
    decreases k,
{
    if n >= 10 {
        if k == 1 {
            assert(power_of_ten(1) == 10 * power_of_ten(0));
        } else {
            lemma_decimal_len(n / 10, (k - 1) as nat);
        }
    }
}

/// The decimal notation of a number.
pub fn to_decimal(n: u64) -> (r: String)
    ensures
        r@ == decimal(n as nat),
    decreases n,
{
    let mut r = String::new();
    if n >= 10 {
        r = to_decimal(n / 10);
    }
    let d: u8 = 0x30 + (n % 10) as u8;
    r.push(d as char);
    assert(r@ =~= decimal(n as nat));
    r
}

/// A decimal digit.
pub open spec fn is_digit(c: char) -> bool {
    '0' <= c && c <= '9'
}

/// The value of a decimal digit.
pub open spec fn digit_value(c: char) -> int {
    c as int - 0x30
}

/// The value of a string of decimal digits.
pub open spec fn digits_value(s: Seq<char>) -> int
    decreases s.len(),
{
    if s.len() == 0 {
        0
    } else {
        digits_value(s.drop_last()) * 10 + digit_value(s.last())
    }
}

/// Every character is a decimal digit.
pub open spec fn all_digits(s: Seq<char>) -> bool {
    forall|i: int| 0 <= i < s.len() ==> is_digit(s[i])
}

/// The digits of an unsigned number: what follows an optional plus sign.
pub open spec fn unsigned_digits(s: Seq<char>) -> Seq<char> {
    if s.len() > 0 && s[0] == '+' {
        s.skip(1)
    } else {
        s
    }
}

/// The unsigned number that a string denotes, if it is no greater than `max`: an
/// optional plus sign and at least one decimal digit.
pub open spec fn parsed_unsigned(s: Seq<char>, max: int) -> Option<int> {
    let d = unsigned_digits(s);
    if d.len() == 0 || !all_digits(d) || digits_value(d) > max {
        None
    } else {
        Some(digits_value(d))
    }
}

/// A number is at least the number that its first digits denote.
pub proof fn lemma_digits_prefix(s: Seq<char>, k: int)
    requires
        0 <= k <= s.len(),
        all_digits(s),
    ensures
        0 <= digits_value(s.take(k)) <= digits_value(s),
    decreases s.len(),
{
    if k == s.len() {
        assert(s.take(k) =~= s);
        if s.len() > 0 {
            lemma_digits_prefix(s.drop_last(), k - 1);
            assert(s.drop_last().take(k - 1) =~= s.drop_last());
            assert(is_digit(s.last()));
        }
    } else {
        lemma_digits_prefix(s.drop_last(), k);
        assert(s.drop_last().take(k) =~= s.take(k));
        assert(is_digit(s.last()));
    }
}

/// Reads an unsigned number no greater than `max`.
pub fn parse_unsigned(s: &[char], max: u64) -> (r: Option<u64>)
    ensures
        match r {
            Some(n) => parsed_unsigned(s@, max as int) == Some(n as int),
            None => parsed_unsigned(s@, max as int) is None,
        },
{
    let from: usize = if s.len() > 0 && s[0] == '+' {
        1
    } else {
        0
    };
    let ghost d = unsigned_digits(s@);
    assert(d =~= s@.skip(from as int));
    if s.len() == from {
        return None;
    }
    let mut i: usize = from;
    let mut n: u128 = 0;
    assert(d.take(0) =~= Seq::empty());
    while i < s.len()
        invariant
            from <= i <= s@.len(),
            d == s@.skip(from as int),
            d == unsigned_digits(s@),
            n <= max,
            n == digits_value(d.take(i - from)),
            forall|j: int| 0 <= j < i - from ==> is_digit(#[trigger] d[j]),
        decreases s@.len() - i,
    {
        let c: char = s[i];
        assert(d[i - from] == c);
        if !('0' <= c && c <= '9') {
            return None;
        }
        n = n * 10 + (c as u32 - 0x30) as u128;
        i += 1;
        proof {
            assert(d.take(i - from).drop_last() =~= d.take(i - from - 1));
            assert(d.take(i - from).last() == c);
        }
        if n > max as u128 {
            proof {
                if all_digits(d) {
                    lemma_digits_prefix(d, i - from);
                }
            }
            return None;
        }
    }
    assert(d.take(i - from) =~= d);
    Some(n as u64)
}

// ---------------------------------------------------------------------------
// Lowering and trimming
// ---------------------------------------------------------------------------

proof fn lemma_ascii_lower(c: char)
    requires
        (c as u32) < 128,
    ensures
        (ascii_lower(c) as u32) < 128,
        ascii_lower(ascii_lower(c)) == ascii_lower(c),
        is_white(ascii_lower(c)) == is_white(c),
{
}

/// Lowering an ASCII string that has been lowered changes nothing.
pub proof fn law_lowering_again(s: Seq<char>)
    requires
        is_ascii_chars(s),
    ensures
        is_ascii_chars(lowercase(s)),
        lowercase(lowercase(s)) == lowercase(s),
{
    let low = lowercase(s);
    assert forall|i: int| 0 <= i < low.len() implies (0 <= #[trigger] low[i] as nat <= 127) && ascii_lower(low[i]) == low[i] by {
        assert(0 <= s[i] as nat <= 127);
        lemma_ascii_lower(s[i]);
    }
    assert(lowercase(low) =~= low);
}

/// What is left of a trimmed string: no white space at either end.
proof fn lemma_skip_white(s: Seq<char>, from: int)
    requires
        0 <= from <= s.len(),
    ensures
        from <= skip_white(s, from) <= s.len(),
        forall|i: int| from <= i < skip_white(s, from) ==> is_white(#[trigger] s[i]),
        skip_white(s, from) < s.len() ==> !is_white(s[skip_white(s, from)]),
    decreases s.len() - from,
{
    if from < s.len() && is_white(s[from]) {
        lemma_skip_white(s, from + 1);
    }
}

proof fn lemma_skip_white_back(s: Seq<char>, from: int, to: int)
    requires
        0 <= from <= to <= s.len(),
    ensures
        from <= skip_white_back(s, from, to) <= to,
        forall|i: int| skip_white_back(s, from, to) <= i < to ==> is_white(#[trigger] s[i]),
        skip_white_back(s, from, to) > from ==> !is_white(s[skip_white_back(s, from, to) - 1]),
    decreases to - from,
{
    if to > from && is_white(s[to - 1]) {
        lemma_skip_white_back(s, from, to - 1);
    }
}

/// Trimming a string that has been trimmed changes nothing.
pub proof fn law_trimming_again(s: Seq<char>)
    ensures
        trimmed(trimmed(s)) == trimmed(s),
{
    let from = skip_white(s, 0);
    lemma_skip_white(s, 0);
    lemma_skip_white_back(s, from, s.len() as int);
    let t = trimmed(s);
    lemma_skip_white(t, 0);
    if t.len() > 0 {
        assert(t[0] == s[from]);
        assert(skip_white(t, 0) == 0);
        assert(t[t.len() - 1] == s[skip_white_back(s, from, s.len() as int) - 1]);
        lemma_skip_white_back(t, 0, t.len() as int);
        assert(skip_white_back(t, 0, t.len() as int) == t.len());
    }
    assert(trimmed(t) =~= t);
}

/// Trimming a string that neither starts nor ends with white space changes nothing.
pub proof fn law_trimming_keeps(s: Seq<char>)
    requires
        s.len() > 0 ==> !is_white(s[0]) && !is_white(s.last()),
    ensures
        trimmed(s) == s,
{
    lemma_skip_white(s, 0);
    if s.len() > 0 {
        assert(skip_white(s, 0) == 0);
        lemma_skip_white_back(s, 0, s.len() as int);
        assert(skip_white_back(s, 0, s.len() as int) == s.len());
    }
    assert(trimmed(s) =~= s);
}

/// A string of which trimming leaves nothing is white space.
pub proof fn law_white_only(s: Seq<char>)
    requires
        trimmed(s).len() == 0,
    ensures
        forall|i: int| 0 <= i < s.len() ==> is_white(#[trigger] s[i]),
{
    let from = skip_white(s, 0);
    lemma_skip_white(s, 0);
    lemma_skip_white_back(s, from, s.len() as int);
}

/// Two strings of the same length with white space in the same places are trimmed at the
/// same places.
proof fn lemma_same_white(a: Seq<char>, b: Seq<char>, from: int)
    requires
        a.len() == b.len(),
        0 <= from <= a.len(),
        forall|i: int| 0 <= i < a.len() ==> is_white(#[trigger] a[i]) == is_white(b[i]),
    ensures
        skip_white(a, from) == skip_white(b, from),
    decreases a.len() - from,
{
    if from < a.len() && is_white(a[from]) {
        lemma_same_white(a, b, from + 1);
    }
}

proof fn lemma_same_back(a: Seq<char>, b: Seq<char>, from: int, to: int)
    requires
        a.len() == b.len(),
        0 <= from <= to <= a.len(),
        forall|i: int| 0 <= i < a.len() ==> is_white(#[trigger] a[i]) == is_white(b[i]),
    ensures
        skip_white_back(a, from, to) == skip_white_back(b, from, to),
    decreases to - from,
{
    if to > from && is_white(a[to - 1]) {
        lemma_same_back(a, b, from, to - 1);
    }
}

/// An ASCII string is lowered and trimmed in either order.
pub proof fn law_lowering_and_trimming(s: Seq<char>)
    requires
        is_ascii_chars(s),
    ensures
        is_ascii_chars(trimmed(s)),
        lowercase(trimmed(s)) == trimmed(lowercase(s)),
{
    let low = lowercase(s);
    let from = skip_white(s, 0);
    lemma_skip_white(s, 0);
    lemma_skip_white_back(s, from, s.len() as int);
    let to = skip_white_back(s, from, s.len() as int);
    let t = trimmed(s);
    assert forall|i: int| 0 <= i < s.len() implies is_white(#[trigger] s[i]) == is_white(low[i]) by {
        assert(0 <= s[i] as nat <= 127);
        lemma_ascii_lower(s[i]);
    }
    lemma_same_white(s, low, 0);
    lemma_same_back(s, low, from, s.len() as int);
    assert forall|i: int| 0 <= i < t.len() implies 0 <= #[trigger] t[i] as nat <= 127 by {
        assert(0 <= s[from + i] as nat <= 127);
    }
    assert(lowercase(t) =~= trimmed(low));
}

/// Trimming takes white space off both ends, and nothing else: what is left has none there.
pub proof fn law_trimming_takes_white_space(s: Seq<char>)
    ensures
        exists|a: Seq<char>, b: Seq<char>|
            #![trigger a + trimmed(s) + b]
            {
                &&& s == a + trimmed(s) + b
                &&& forall|i: int| 0 <= i < a.len() ==> is_white(#[trigger] a[i])
                &&& forall|i: int| 0 <= i < b.len() ==> is_white(#[trigger] b[i])
            },
        trimmed(s).len() > 0 ==> !is_white(trimmed(s)[0]) && !is_white(trimmed(s).last()),
{
    let n = s.len() as int;
    let from = skip_white(s, 0);
    lemma_skip_white(s, 0);
    let to = skip_white_back(s, from, n);
    lemma_skip_white_back(s, from, n);
    let a = s.take(from);
    let b = s.skip(to);
    assert(s =~= a + trimmed(s) + b);
    assert forall|i: int| 0 <= i < b.len() implies is_white(#[trigger] b[i]) by {
        assert(b[i] == s[to + i]);
    }
    assert forall|i: int| 0 <= i < a.len() implies is_white(#[trigger] a[i]) by {
        assert(a[i] == s[i]);
    }
}

/// A number in decimal notation is digits with its value.
pub proof fn lemma_decimal_value(n: nat)
    ensures
        decimal(n).len() > 0,
        all_digits(decimal(n)),
        digits_value(decimal(n)) == n,
    decreases n,
{
    let d = decimal(n);
    assert forall|k: nat| k < 10 implies is_digit(#[trigger] digit_char(k)) && digit_value(
        digit_char(k),
    ) == k by {}
    if n < 10 {
        assert(is_digit(digit_char(n)));
        assert(d.drop_last() =~= Seq::empty());
        assert(d.last() == digit_char(n));
        reveal_with_fuel(digits_value, 2);
    } else {
        lemma_decimal_value(n / 10);
        assert(is_digit(digit_char(n % 10)));
        assert(d.drop_last() =~= decimal(n / 10));
        assert(d.last() == digit_char(n % 10));
        assert forall|i: int| 0 <= i < d.len() implies is_digit(d[i]) by {
            if i < d.len() - 1 {
                assert(d[i] == decimal(n / 10)[i]);
            }
        }
    }
}

/// A number in decimal notation is read as that number, with a plus sign before it or without,
/// unless it is too large.
pub proof fn law_numbers_are_read_back(n: nat, max: int)
    ensures
        n <= max ==> parsed_unsigned(decimal(n), max) == Some(n as int) && parsed_unsigned(
            seq!['+'] + decimal(n),
            max,
        ) == Some(n as int),
        n > max ==> parsed_unsigned(decimal(n), max) is None,
{
    let d = decimal(n);
    lemma_decimal_value(n);
    assert(is_digit(d[0]));
    assert(unsigned_digits(d) == d);
    let p = seq!['+'] + d;
    assert(p[0] == '+');
    assert(unsigned_digits(p) =~= d);
}

/// What holds anything but digits behind an optional plus sign, or nothing, is no number.
pub proof fn law_other_texts_are_no_numbers(s: Seq<char>, max: int, i: int)
    requires
        0 <= i < s.len(),
        !('0' <= s[i] && s[i] <= '9'),
        i > 0 || s[0] != '+',
    ensures
        parsed_unsigned(s, max) is None,
        parsed_unsigned(Seq::empty(), max) is None,
        parsed_unsigned(seq!['+'], max) is None,
{
    let d = unsigned_digits(s);
    if s[0] == '+' {
        assert(d[i - 1] == s[i]);
    } else {
        assert(d[i] == s[i]);
    }
    if all_digits(d) {
        assert(is_digit(d[if s[0] == '+' {
            i - 1
        } else {
            i
        }]));
    }
    assert(seq!['+'].skip(1) =~= Seq::empty());
}

} // verus!
