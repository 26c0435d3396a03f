//! Which class the name of a style has, in the languages that are known.

use vstd::prelude::*;

use crate::style_classify::{
    abstract_names, any_inside, any_prefix, blockquote_names, body_names, caption_names,
    footnote_names, heading_names, keyword_names, level_after, level_by_prefix, level_by_word,
    skip_separators, skip_zeros, style_class, title_names, SemanticClass,
};
use crate::text::{
    chars_at, contains_chars, digit_value, find_chars, is_digit, lowercase, starts_with, trimmed,
};

verus! {

// ---------------------------------------------------------------------------
// Levels
// ---------------------------------------------------------------------------

/// The character is the decimal digit of a level.
pub open spec fn is_digit_of(c: char, level: int) -> bool {
    1 <= level <= 9 && c as int == 0x30 + level
}

/// The first digit of `p` stands at `k` and is that of the level.
spec fn first_digit(p: Seq<char>, k: int, level: int) -> bool {
    &&& 0 <= k < p.len()
    &&& is_digit_of(p[k], level)
    &&& forall|j: int| 0 <= j < k ==> !is_digit(#[trigger] p[j])
}

proof fn lemma_names_1(i: int)
    requires
        0 <= i < heading_names(1).len(),
    ensures
        exists|k: int| first_digit(heading_names(1)[i], k, 1),
{
    let p = heading_names(1)[i];
    if i == 0 {
        reveal_strlit("heading 1");
        assert(first_digit(p, 8, 1));
    } else if i == 1 {
        reveal_strlit("heading1");
        assert(first_digit(p, 7, 1));
    } else if i == 2 {
        reveal_strlit("h1");
        assert(first_digit(p, 1, 1));
    } else if i == 3 {
        reveal_strlit("überschrift 1");
        assert(first_digit(p, 12, 1));
    } else if i == 4 {
        reveal_strlit("titre 1");
        assert(first_digit(p, 6, 1));
    } else if i == 5 {
        reveal_strlit("titolo 1");
        assert(first_digit(p, 7, 1));
    } else if i == 6 {
        reveal_strlit("encabezado 1");
        assert(first_digit(p, 11, 1));
    } else if i == 7 {
        reveal_strlit("заголовок 1");
        assert(first_digit(p, 10, 1));
    } else if i == 8 {
        reveal_strlit("标题 1");
        assert(first_digit(p, 3, 1));
    } else if i == 9 {
        reveal_strlit("kop 1");
        assert(first_digit(p, 4, 1));
    } else if i == 10 {
        reveal_strlit("nagłówek 1");
        assert(first_digit(p, 9, 1));
    } else if i == 11 {
        reveal_strlit("rubrik 1");
        assert(first_digit(p, 7, 1));
    } else if i == 12 {
        reveal_strlit("heading1char");
        assert(first_digit(p, 7, 1));
    }
}

proof fn lemma_names_2(i: int)
    requires
        0 <= i < heading_names(2).len(),
    ensures
        exists|k: int| first_digit(heading_names(2)[i], k, 2),
{
    let p = heading_names(2)[i];
    if i == 0 {
        reveal_strlit("heading 2");
        assert(first_digit(p, 8, 2));
    } else if i == 1 {
        reveal_strlit("heading2");
        assert(first_digit(p, 7, 2));
    } else if i == 2 {
        reveal_strlit("h2");
        assert(first_digit(p, 1, 2));
    } else if i == 3 {
        reveal_strlit("überschrift 2");
        assert(first_digit(p, 12, 2));
    } else if i == 4 {
        reveal_strlit("titre 2");
        assert(first_digit(p, 6, 2));
    } else if i == 5 {
        reveal_strlit("titolo 2");
        assert(first_digit(p, 7, 2));
    } else if i == 6 {
        reveal_strlit("encabezado 2");
        assert(first_digit(p, 11, 2));
    } else if i == 7 {
        reveal_strlit("заголовок 2");
        assert(first_digit(p, 10, 2));
    } else if i == 8 {
        reveal_strlit("标题 2");
        assert(first_digit(p, 3, 2));
    } else if i == 9 {
        reveal_strlit("kop 2");
        assert(first_digit(p, 4, 2));
    } else if i == 10 {
        reveal_strlit("nagłówek 2");
        assert(first_digit(p, 9, 2));
    }
}

proof fn lemma_names_3(i: int)
    requires
        0 <= i < heading_names(3).len(),
    ensures
        exists|k: int| first_digit(heading_names(3)[i], k, 3),
{
    let p = heading_names(3)[i];
    if i == 0 {
        reveal_strlit("heading 3");
        assert(first_digit(p, 8, 3));
    } else if i == 1 {
        reveal_strlit("heading3");
        assert(first_digit(p, 7, 3));
    } else if i == 2 {
        reveal_strlit("h3");
        assert(first_digit(p, 1, 3));
    } else if i == 3 {
        reveal_strlit("überschrift 3");
        assert(first_digit(p, 12, 3));
    } else if i == 4 {
        reveal_strlit("titre 3");
        assert(first_digit(p, 6, 3));
    } else if i == 5 {
        reveal_strlit("titolo 3");
        assert(first_digit(p, 7, 3));
    } else if i == 6 {
        reveal_strlit("encabezado 3");
        assert(first_digit(p, 11, 3));
    } else if i == 7 {
        reveal_strlit("заголовок 3");
        assert(first_digit(p, 10, 3));
    } else if i == 8 {
        reveal_strlit("标题 3");
        assert(first_digit(p, 3, 3));
    } else if i == 9 {
        reveal_strlit("kop 3");
        assert(first_digit(p, 4, 3));
    } else if i == 10 {
        reveal_strlit("nagłówek 3");
        assert(first_digit(p, 9, 3));
    }
}

proof fn lemma_names_4(i: int)
    requires
        0 <= i < heading_names(4).len(),
    ensures
        exists|k: int| first_digit(heading_names(4)[i], k, 4),
{
    let p = heading_names(4)[i];
    if i == 0 {
        reveal_strlit("heading 4");
        assert(first_digit(p, 8, 4));
    } else if i == 1 {
        reveal_strlit("heading4");
        assert(first_digit(p, 7, 4));
    } else if i == 2 {
        reveal_strlit("h4");
        assert(first_digit(p, 1, 4));
    } else if i == 3 {
        reveal_strlit("überschrift 4");
        assert(first_digit(p, 12, 4));
    } else if i == 4 {
        reveal_strlit("titre 4");
        assert(first_digit(p, 6, 4));
    } else if i == 5 {
        reveal_strlit("заголовок 4");
        assert(first_digit(p, 10, 4));
    }
}

proof fn lemma_names_5(i: int)
    requires
        0 <= i < heading_names(5).len(),
    ensures
        exists|k: int| first_digit(heading_names(5)[i], k, 5),
{
    let p = heading_names(5)[i];
    if i == 0 {
        reveal_strlit("heading 5");
        assert(first_digit(p, 8, 5));
    } else if i == 1 {
        reveal_strlit("heading5");
        assert(first_digit(p, 7, 5));
    } else if i == 2 {
        reveal_strlit("h5");
        assert(first_digit(p, 1, 5));
    } else if i == 3 {
        reveal_strlit("überschrift 5");
        assert(first_digit(p, 12, 5));
    } else if i == 4 {
        reveal_strlit("titre 5");
        assert(first_digit(p, 6, 5));
    }
}

proof fn lemma_names_6(i: int)
    requires
        0 <= i < heading_names(6).len(),
    ensures
        exists|k: int| first_digit(heading_names(6)[i], k, 6),
{
    let p = heading_names(6)[i];
    if i == 0 {
        reveal_strlit("heading 6");
        assert(first_digit(p, 8, 6));
    } else if i == 1 {
        reveal_strlit("heading6");
        assert(first_digit(p, 7, 6));
    } else if i == 2 {
        reveal_strlit("h6");
        assert(first_digit(p, 1, 6));
    } else if i == 3 {
        reveal_strlit("überschrift 6");
        assert(first_digit(p, 12, 6));
    }
}

proof fn lemma_names_7(i: int)
    requires
        0 <= i < heading_names(7).len(),
    ensures
        exists|k: int| first_digit(heading_names(7)[i], k, 7),
{
    let p = heading_names(7)[i];
    if i == 0 {
        reveal_strlit("heading 7");
        assert(first_digit(p, 8, 7));
    } else if i == 1 {
        reveal_strlit("heading7");
        assert(first_digit(p, 7, 7));
    } else if i == 2 {
        reveal_strlit("h7");
        assert(first_digit(p, 1, 7));
    }
}

proof fn lemma_names_8(i: int)
    requires
        0 <= i < heading_names(8).len(),
    ensures
        exists|k: int| first_digit(heading_names(8)[i], k, 8),
{
    let p = heading_names(8)[i];
    if i == 0 {
        reveal_strlit("heading 8");
        assert(first_digit(p, 8, 8));
    } else if i == 1 {
        reveal_strlit("heading8");
        assert(first_digit(p, 7, 8));
    } else if i == 2 {
        reveal_strlit("h8");
        assert(first_digit(p, 1, 8));
    }
}

proof fn lemma_names_9(i: int)
    requires
        0 <= i < heading_names(9).len(),
    ensures
        exists|k: int| first_digit(heading_names(9)[i], k, 9),
{
    let p = heading_names(9)[i];
    if i == 0 {
        reveal_strlit("heading 9");
        assert(first_digit(p, 8, 9));
    } else if i == 1 {
        reveal_strlit("heading9");
        assert(first_digit(p, 7, 9));
    } else if i == 2 {
        reveal_strlit("h9");
        assert(first_digit(p, 1, 9));
    }
}

proof fn lemma_names(level: int, i: int)
    requires
        1 <= level <= 9,
        0 <= i < heading_names(level).len(),
    ensures
        exists|k: int| first_digit(heading_names(level)[i], k, level),
{
    if level == 1 {
        lemma_names_1(i);
    } else if level == 2 {
        lemma_names_2(i);
    } else if level == 3 {
        lemma_names_3(i);
    } else if level == 4 {
        lemma_names_4(i);
    } else if level == 5 {
        lemma_names_5(i);
    } else if level == 6 {
        lemma_names_6(i);
    } else if level == 7 {
        lemma_names_7(i);
    } else if level == 8 {
        lemma_names_8(i);
    } else {
        lemma_names_9(i);
    }
}

proof fn lemma_by_prefix(low: Seq<char>, from: int)
    requires
        1 <= from,
    ensures
        level_by_prefix(low, from) matches Some(n) ==> 1 <= n <= 9 && any_prefix(
            low,
            heading_names(n),
        ),
    decreases 10 - from,
{
    if from <= 9 && !any_prefix(low, heading_names(from)) {
        lemma_by_prefix(low, from + 1);
    }
}

/// A level that the start of a name shows is the first digit of the name.
proof fn lemma_prefix_digit(low: Seq<char>)
    ensures
        level_by_prefix(low, 1) matches Some(n) ==> exists|k: int| first_digit(low, k, n),
{
    lemma_by_prefix(low, 1);
    if let Some(n) = level_by_prefix(low, 1) {
        let names = heading_names(n);
        let i = choose|i: int| 0 <= i < names.len() && starts_with(low, #[trigger] names[i]);
        lemma_names(n, i);
        let p = names[i];
        let k = choose|k: int| first_digit(p, k, n);
        assert(low.subrange(0, p.len() as int) == p);
        assert forall|j: int| 0 <= j <= k implies #[trigger] low[j] == p[j] by {
            assert(low.subrange(0, p.len() as int)[j] == low[j]);
        }
        assert(first_digit(low, k, n));
    }
}

proof fn lemma_skips(s: Seq<char>, from: int)
    requires
        0 <= from <= s.len(),
    ensures
        from <= skip_separators(s, from) <= s.len(),
        from <= skip_zeros(s, from) <= s.len(),
        skip_zeros(s, from) < s.len() ==> s[skip_zeros(s, from)] != '0',
    decreases s.len() - from,
{
    if from < s.len() {
        lemma_skips(s, from + 1);
    }
}

proof fn lemma_found(s: Seq<char>, needle: Seq<char>, from: int)
    requires
        0 <= from,
    ensures
        find_chars(s, needle, from) matches Some(p) ==> from <= p && chars_at(s, p, needle),
        find_chars(s, needle, from) is None ==> forall|p: int|
            from <= p ==> !chars_at(s, p, needle),
    decreases s.len() - from + 1,
{
    if from + needle.len() <= s.len() && !chars_at(s, from, needle) {
        lemma_found(s, needle, from + 1);
    }
}

/// A level that follows a word for a heading is a digit of the name.
proof fn lemma_word_digit(low: Seq<char>, i: int)
    requires
        0 <= i,
    ensures
        level_by_word(low, i) matches Some(n) ==> exists|k: int|
            0 <= k < low.len() && is_digit_of(#[trigger] low[k], n),
    decreases keyword_names().len() - i,
{
    if i < keyword_names().len() {
        let word = keyword_names()[i];
        lemma_word_digit(low, i + 1);
        lemma_found(low, word, 0);
        if let Some(p) = find_chars(low, word, 0) {
            let a = skip_separators(low, p + word.len());
            lemma_skips(low, p + word.len());
            lemma_skips(low, a);
            let t = skip_zeros(low, a);
            if t < low.len() && is_digit(low[t]) {
                assert(is_digit_of(low[t], digit_value(low[t])));
            }
        }
    }
}

/// The level of a heading is a digit of its name.
pub proof fn law_level_is_written_in_the_name(name: Seq<char>)
    ensures
        style_class(name).class is Heading ==> exists|k: int|
            0 <= k < trimmed(lowercase(name)).len() && is_digit_of(
                #[trigger] trimmed(lowercase(name))[k],
                style_class(name).heading_level as int,
            ),
{
    let low = trimmed(lowercase(name));
    lemma_by_prefix(low, 1);
    lemma_prefix_digit(low);
    lemma_word_digit(low, 0);
    if let Some(n) = level_by_prefix(low, 1) {
        let k = choose|k: int| first_digit(low, k, n);
        assert(is_digit_of(low[k], n));
    } else if let Some(n) = level_by_word(low, 0) {
        let k = choose|k: int| 0 <= k < low.len() && is_digit_of(#[trigger] low[k], n);
        assert(is_digit_of(low[k], n));
    }
}

/// Words for a heading.
pub open spec fn heading_words() -> Seq<Seq<char>> {
    seq![
        "heading"@,
        "ueberschrift"@,
        "überschrift"@,
        "titre"@,
        "titolo"@,
        "encabezado"@,
        "заголовок"@,
        "kop"@,
        "rubrik"@,
        "nagłówek"@,
    ]
}

/// `between` from `a` to `b` holds only blanks, tabulators, underscores and hyphens.
pub open spec fn only_separators(s: Seq<char>, a: int, b: int) -> bool {
    forall|j: int|
        a <= j < b ==> (#[trigger] s[j]) == ' ' || s[j] == '\t' || s[j] == '_' || s[j] == '-'
}

/// Every digit of the name but zero is that of the level.
pub open spec fn only_level(low: Seq<char>, level: int) -> bool {
    forall|j: int|
        0 <= j < low.len() && '1' <= (#[trigger] low[j]) && low[j] <= '9' ==> is_digit_of(
            low[j],
            level,
        )
}

proof fn lemma_separators(s: Seq<char>, from: int, b: int)
    requires
        0 <= from <= b < s.len(),
        only_separators(s, from, b),
        is_digit(s[b]),
    ensures
        skip_separators(s, from) == b,
    decreases b - from,
{
    if from < b {
        assert(s[from] == ' ' || s[from] == '\t' || s[from] == '_' || s[from] == '-');
        lemma_separators(s, from + 1, b);
    }
}

proof fn lemma_zeros(s: Seq<char>, from: int, b: int)
    requires
        0 <= from <= b < s.len(),
        forall|j: int| from <= j < b ==> #[trigger] s[j] == '0',
        s[b] != '0',
    ensures
        skip_zeros(s, from) == b,
    decreases b - from,
{
    if from < b {
        assert(s[from] == '0');
        lemma_zeros(s, from + 1, b);
    }
}

proof fn lemma_some_word(low: Seq<char>, i: int, w: int)
    requires
        0 <= i <= w < keyword_names().len(),
        level_after(low, keyword_names()[w]) is Some,
    ensures
        level_by_word(low, i) is Some,
    decreases w - i,
{
    if i < w && level_after(low, keyword_names()[i]) is None {
        lemma_some_word(low, i + 1, w);
    }
}

/// A name that starts with a word for a heading, in any of ten languages and in any case,
/// followed by separators, zeros and a level, is that of a heading of this level, if no other
/// level stands in it.
pub proof fn law_heading_words_have_levels(
    name: Seq<char>,
    w: int,
    zeros: int,
    at: int,
    level: int,
)
    requires
        0 <= w < heading_words().len(),
        heading_words()[w].is_prefix_of(trimmed(lowercase(name))),
        heading_words()[w].len() <= zeros <= at < trimmed(lowercase(name)).len(),
        only_separators(trimmed(lowercase(name)), heading_words()[w].len() as int, zeros),
        forall|j: int| zeros <= j < at ==> #[trigger] trimmed(lowercase(name))[j] == '0',
        is_digit_of(trimmed(lowercase(name))[at], level),
        only_level(trimmed(lowercase(name)), level),
    ensures
        style_class(name).class == SemanticClass::Heading(level as u8),
        style_class(name).heading_level == level,
{
    let low = trimmed(lowercase(name));
    let word = heading_words()[w];
    assert(heading_words() =~= keyword_names());
    assert(keyword_names()[w] == word);
    lemma_found(low, word, 0);
    assert(low.subrange(0, word.len() as int) =~= low.take(word.len() as int));
    assert(chars_at(low, 0, word));
    assert(find_chars(low, word, 0) == Some(0int));
    assert(is_digit(low[zeros])) by {
        if zeros < at {
            assert(low[zeros] == '0');
        }
    }
    lemma_separators(low, word.len() as int, zeros);
    lemma_zeros(low, zeros, at);
    assert(level_after(low, word) is Some);
    lemma_some_word(low, 0, w);
    law_level_is_written_in_the_name(name);
    assert(style_class(name).class is Heading);
    let n = style_class(name).heading_level as int;
    let k = choose|k: int| 0 <= k < low.len() && is_digit_of(#[trigger] low[k], n);
    assert('1' <= low[k] && low[k] <= '9');
    assert(is_digit_of(low[k], level));
    lemma_by_prefix(low, 1);
    lemma_word_level(low);
}

proof fn lemma_word_level(low: Seq<char>)
    ensures
        level_by_word(low, 0) matches Some(n) ==> 1 <= n <= 9,
{
    lemma_word_digit(low, 0);
}

/// A style whose name is `heading`, a blank and a digit from one to nine, in any case, is that
/// of a heading of this level.
pub proof fn law_heading_and_level(name: Seq<char>, level: int)
    requires
        trimmed(lowercase(name)).len() == 9,
        "heading "@.is_prefix_of(trimmed(lowercase(name))),
        is_digit_of(trimmed(lowercase(name))[8], level),
    ensures
        style_class(name).class == SemanticClass::Heading(level as u8),
        style_class(name).heading_level == level,
{
    let low = trimmed(lowercase(name));
    reveal_strlit("heading ");
    reveal_strlit("heading");
    assert(heading_words()[0] == "heading"@);
    assert forall|j: int| 0 <= j < 8 implies #[trigger] low[j] == "heading "@[j] by {
        assert(low.take(8)[j] == low[j]);
    }
    assert("heading"@ =~= low.take(7));
    law_heading_words_have_levels(name, 0, 8, 8, level);
}

/// A name that starts with `h` and a digit from one to nine, in any case, is that of a heading
/// of this level.
pub proof fn law_letter_and_level(name: Seq<char>, level: int)
    requires
        trimmed(lowercase(name)).len() >= 2,
        trimmed(lowercase(name))[0] == 'h',
        is_digit_of(trimmed(lowercase(name))[1], level),
    ensures
        style_class(name).class == SemanticClass::Heading(level as u8),
        style_class(name).heading_level == level,
{
    let low = trimmed(lowercase(name));
    reveal_strlit("h1");
    reveal_strlit("h2");
    reveal_strlit("h3");
    reveal_strlit("h4");
    reveal_strlit("h5");
    reveal_strlit("h6");
    reveal_strlit("h7");
    reveal_strlit("h8");
    reveal_strlit("h9");
    let names = heading_names(level);
    assert(names[2].len() == 2 && names[2][0] == 'h' && is_digit_of(names[2][1], level));
    assert(low.subrange(0, 2) =~= names[2]);
    assert(starts_with(low, names[2]));
    assert(any_prefix(low, names));
    lemma_by_prefix(low, 1);
    lemma_least_level(low, 1, level);
    lemma_prefix_digit(low);
    let n = level_by_prefix(low, 1)->0;
    let k = choose|k: int| first_digit(low, k, n);
    assert(is_digit(low[1]));
    assert(!is_digit(low[0]));
    assert(k == 1);
}

/// A name that starts with the Chinese word for a heading, a blank and a digit from one to
/// three is that of a heading of this level.
pub proof fn law_chinese_word_and_level(name: Seq<char>, level: int)
    requires
        level <= 3,
        trimmed(lowercase(name)).len() >= 4,
        "标题 "@.is_prefix_of(trimmed(lowercase(name))),
        is_digit_of(trimmed(lowercase(name))[3], level),
    ensures
        style_class(name).class == SemanticClass::Heading(level as u8),
        style_class(name).heading_level == level,
{
    let low = trimmed(lowercase(name));
    reveal_strlit("标题 ");
    reveal_strlit("标题 1");
    reveal_strlit("标题 2");
    reveal_strlit("标题 3");
    let names = heading_names(level);
    assert forall|j: int| 0 <= j < 3 implies #[trigger] low[j] == "标题 "@[j] by {
        assert(low.take(3)[j] == low[j]);
    }
    assert(low.subrange(0, 4) =~= names[8]);
    assert(starts_with(low, names[8]));
    assert(any_prefix(low, names));
    lemma_by_prefix(low, 1);
    lemma_least_level(low, 1, level);
    lemma_prefix_digit(low);
    let n = level_by_prefix(low, 1)->0;
    let k = choose|k: int| first_digit(low, k, n);
    assert(is_digit(low[3]));
    assert(!is_digit(low[0]) && !is_digit(low[1]) && !is_digit(low[2]));
    assert(k == 3);
}

proof fn lemma_least_level(low: Seq<char>, from: int, level: int)
    requires
        1 <= from <= level <= 9,
        any_prefix(low, heading_names(level)),
    ensures
        level_by_prefix(low, from) is Some,
    decreases level - from,
{
    if from < level && !any_prefix(low, heading_names(from)) {
        lemma_least_level(low, from + 1, level);
    }
}

// ---------------------------------------------------------------------------
// Classes
// ---------------------------------------------------------------------------

/// The word stands somewhere in the name.
pub open spec fn holds(low: Seq<char>, word: Seq<char>) -> bool {
    exists|i: int| 0 <= i <= low.len() && word.is_prefix_of(#[trigger] low.skip(i))
}

proof fn lemma_holds(low: Seq<char>, word: Seq<char>)
    ensures
        contains_chars(low, word) <==> holds(low, word),
{
    lemma_found(low, word, 0);
    if let Some(p) = find_chars(low, word, 0) {
        assert(low.skip(p).take(word.len() as int) =~= low.subrange(p, p + word.len()));
        assert(word.is_prefix_of(low.skip(p)));
    }
    if holds(low, word) {
        let i = choose|i: int| 0 <= i <= low.len() && word.is_prefix_of(#[trigger] low.skip(i));
        assert(low.subrange(i, i + word.len()) =~= low.skip(i).take(word.len() as int));
        assert(chars_at(low, i, word));
    }
}

/// The name speaks of a footnote.
pub open spec fn names_a_footnote(low: Seq<char>) -> bool {
    ||| holds(low, "footnote"@)
    ||| holds(low, "fußnotentext"@)
    ||| holds(low, "note de bas de page"@)
    ||| holds(low, "nota a piè di pagina"@)
    ||| holds(low, "nota al pie"@)
    ||| holds(low, "сноска"@)
}

proof fn lemma_footnote(low: Seq<char>)
    ensures
        any_inside(low, footnote_names()) <==> names_a_footnote(low),
{
    let names = footnote_names();
    lemma_holds(low, "footnote text"@);
    lemma_holds(low, "fußnotentext"@);
    lemma_holds(low, "note de bas de page"@);
    lemma_holds(low, "nota a piè di pagina"@);
    lemma_holds(low, "nota al pie"@);
    lemma_holds(low, "сноска"@);
    lemma_holds(low, "footnote"@);
    lemma_holds(low, "footnotetext"@);
    if holds(low, "footnote"@) {
        assert(contains_chars(low, names[6]));
    }
    if holds(low, "fußnotentext"@) {
        assert(contains_chars(low, names[1]));
    }
    if holds(low, "note de bas de page"@) {
        assert(contains_chars(low, names[2]));
    }
    if holds(low, "nota a piè di pagina"@) {
        assert(contains_chars(low, names[3]));
    }
    if holds(low, "nota al pie"@) {
        assert(contains_chars(low, names[4]));
    }
    if holds(low, "сноска"@) {
        assert(contains_chars(low, names[5]));
    }
    if any_inside(low, names) {
        let i = choose|i: int| 0 <= i < names.len() && contains_chars(low, #[trigger] names[i]);
        if i == 0 {
            reveal_strlit("footnote text");
            reveal_strlit("footnote");
            assert("footnote text"@.skip(0).take(8) =~= "footnote"@);
            lemma_shorter(low, "footnote text"@, "footnote"@, 0);
        }
        if i == 7 {
            reveal_strlit("footnotetext");
            reveal_strlit("footnote");
            assert("footnotetext"@.skip(0).take(8) =~= "footnote"@);
            lemma_shorter(low, "footnotetext"@, "footnote"@, 0);
        }
    }
}

/// The name speaks of a caption.
pub open spec fn names_a_caption(low: Seq<char>) -> bool {
    ||| holds(low, "caption"@)
    ||| holds(low, "bildunterschrift"@)
    ||| holds(low, "légende"@)
    ||| holds(low, "didascalia"@)
    ||| holds(low, "leyenda"@)
}

proof fn lemma_caption(low: Seq<char>)
    ensures
        any_inside(low, caption_names()) <==> names_a_caption(low),
{
    let names = caption_names();
    lemma_holds(low, "caption"@);
    lemma_holds(low, "bildunterschrift"@);
    lemma_holds(low, "légende"@);
    lemma_holds(low, "didascalia"@);
    lemma_holds(low, "leyenda"@);
    if holds(low, "caption"@) {
        assert(contains_chars(low, names[0]));
    }
    if holds(low, "bildunterschrift"@) {
        assert(contains_chars(low, names[1]));
    }
    if holds(low, "légende"@) {
        assert(contains_chars(low, names[2]));
    }
    if holds(low, "didascalia"@) {
        assert(contains_chars(low, names[3]));
    }
    if holds(low, "leyenda"@) {
        assert(contains_chars(low, names[4]));
    }
    if any_inside(low, names) {
        let i = choose|i: int| 0 <= i < names.len() && contains_chars(low, #[trigger] names[i]);
    }
}

/// The name speaks of a quotation.
pub open spec fn names_a_quotation(low: Seq<char>) -> bool {
    ||| holds(low, "block text"@)
    ||| holds(low, "quote"@)
    ||| holds(low, "block quotation"@)
    ||| holds(low, "zitat"@)
    ||| holds(low, "citation"@)
    ||| holds(low, "citazione"@)
    ||| holds(low, "bloque de texto"@)
}

proof fn lemma_quotation(low: Seq<char>)
    ensures
        any_inside(low, blockquote_names()) <==> names_a_quotation(low),
{
    let names = blockquote_names();
    lemma_holds(low, "block text"@);
    lemma_holds(low, "blockquote"@);
    lemma_holds(low, "quote"@);
    lemma_holds(low, "intense quote"@);
    lemma_holds(low, "block quotation"@);
    lemma_holds(low, "zitat"@);
    lemma_holds(low, "citation"@);
    lemma_holds(low, "citazione"@);
    lemma_holds(low, "bloque de texto"@);
    if holds(low, "block text"@) {
        assert(contains_chars(low, names[0]));
    }
    if holds(low, "quote"@) {
        assert(contains_chars(low, names[2]));
    }
    if holds(low, "block quotation"@) {
        assert(contains_chars(low, names[4]));
    }
    if holds(low, "zitat"@) {
        assert(contains_chars(low, names[5]));
    }
    if holds(low, "citation"@) {
        assert(contains_chars(low, names[6]));
    }
    if holds(low, "citazione"@) {
        assert(contains_chars(low, names[7]));
    }
    if holds(low, "bloque de texto"@) {
        assert(contains_chars(low, names[8]));
    }
    if any_inside(low, names) {
        let i = choose|i: int| 0 <= i < names.len() && contains_chars(low, #[trigger] names[i]);
        if i == 1 {
            reveal_strlit("blockquote");
            reveal_strlit("quote");
            assert("blockquote"@.skip(5).take(5) =~= "quote"@);
            lemma_shorter(low, "blockquote"@, "quote"@, 5);
        }
        if i == 3 {
            reveal_strlit("intense quote");
            reveal_strlit("quote");
            assert("intense quote"@.skip(8).take(5) =~= "quote"@);
            lemma_shorter(low, "intense quote"@, "quote"@, 8);
        }
    }
}

/// The name speaks of an abstract.
pub open spec fn names_an_abstract(low: Seq<char>) -> bool {
    ||| holds(low, "abstract"@)
    ||| holds(low, "zusammenfassung"@)
    ||| holds(low, "résumé"@)
    ||| holds(low, "riassunto"@)
}

proof fn lemma_abstract(low: Seq<char>)
    ensures
        any_inside(low, abstract_names()) <==> names_an_abstract(low),
{
    let names = abstract_names();
    lemma_holds(low, "abstract"@);
    lemma_holds(low, "zusammenfassung"@);
    lemma_holds(low, "résumé"@);
    lemma_holds(low, "riassunto"@);
    if holds(low, "abstract"@) {
        assert(contains_chars(low, names[0]));
    }
    if holds(low, "zusammenfassung"@) {
        assert(contains_chars(low, names[1]));
    }
    if holds(low, "résumé"@) {
        assert(contains_chars(low, names[2]));
    }
    if holds(low, "riassunto"@) {
        assert(contains_chars(low, names[3]));
    }
    if any_inside(low, names) {
        let i = choose|i: int| 0 <= i < names.len() && contains_chars(low, #[trigger] names[i]);
    }
}

proof fn lemma_shorter(low: Seq<char>, word: Seq<char>, inner: Seq<char>, at: int)
    requires
        holds(low, word),
        0 <= at <= word.len(),
        inner.is_prefix_of(word.skip(at)),
    ensures
        holds(low, inner),
{
    let i = choose|i: int| 0 <= i <= low.len() && word.is_prefix_of(#[trigger] low.skip(i));
    assert(low.skip(i + at).take(inner.len() as int) =~= low.skip(i).take(word.len() as int).skip(
        at,
    ).take(inner.len() as int));
    assert(inner.is_prefix_of(low.skip(i + at)));
}

/// The name is that of a title.
pub open spec fn names_a_title(low: Seq<char>) -> bool {
    low == "title"@ || low == "documenttitle"@ || low == "thetitle"@ || low == "doc title"@
}

/// The name starts as that of body text.
pub open spec fn names_body_text(low: Seq<char>) -> bool {
    ||| "normal"@.is_prefix_of(low)
    ||| "standard"@.is_prefix_of(low)
    ||| "body text"@.is_prefix_of(low)
    ||| "bodytext"@.is_prefix_of(low)
    ||| "fließtext"@.is_prefix_of(low)
    ||| "texte de corps"@.is_prefix_of(low)
    ||| "corpo del testo"@.is_prefix_of(low)
    ||| "cuerpo de texto"@.is_prefix_of(low)
    ||| "основной текст"@.is_prefix_of(low)
    ||| "no spacing"@.is_prefix_of(low)
    ||| "default paragraph style"@.is_prefix_of(low)
    ||| "tekst podstawowy"@.is_prefix_of(low)
}

proof fn lemma_body(low: Seq<char>)
    ensures
        any_prefix(low, body_names()) <==> names_body_text(low),
{
    let names = body_names();
    assert forall|i: int| 0 <= i < names.len() implies (starts_with(low, #[trigger] names[i])
        <==> names[i].is_prefix_of(low)) by {
        if names[i].len() <= low.len() {
            assert(low.subrange(0, names[i].len() as int) =~= low.take(names[i].len() as int));
        }
    }
    assert(names[0] == "normal"@);
    assert(names[1] == "standard"@);
    assert(names[2] == "body text"@);
    assert(names[3] == "bodytext"@);
    assert(names[4] == "fließtext"@);
    assert(names[5] == "texte de corps"@);
    assert(names[6] == "corpo del testo"@);
    assert(names[7] == "cuerpo de texto"@);
    assert(names[8] == "основной текст"@);
    assert(names[9] == "no spacing"@);
    assert(names[10] == "default paragraph style"@);
    assert(names[11] == "tekst podstawowy"@);
}

/// The class of a name that is not a heading's: a title, or else the first of footnote,
/// caption, quotation and abstract that it speaks of, or else body text, or else none.
pub proof fn law_names_have_their_classes(name: Seq<char>)
    requires
        style_class(name).heading_level == 0,
    ensures
        ({
            let low = trimmed(lowercase(name));
            let class = style_class(name).class;
            let noted = names_a_footnote(low);
            let captioned = noted || names_a_caption(low);
            let quoted = captioned || names_a_quotation(low);
            let summed_up = quoted || names_an_abstract(low);
            &&& class is Title <==> names_a_title(low)
            &&& class is Footnote <==> !names_a_title(low) && noted
            &&& class is Caption <==> !names_a_title(low) && captioned && !noted
            &&& class is Blockquote <==> !names_a_title(low) && quoted && !captioned
            &&& class is Abstract <==> !names_a_title(low) && summed_up && !quoted
            &&& class is Body <==> !names_a_title(low) && names_body_text(low) && !summed_up
            &&& class is Unknown <==> !names_a_title(low) && !names_body_text(low) && !summed_up
        }),
{
    let low = trimmed(lowercase(name));
    lemma_by_prefix(low, 1);
    lemma_word_level(low);
    lemma_footnote(low);
    lemma_caption(low);
    lemma_quotation(low);
    lemma_abstract(low);
    lemma_body(low);
    assert(title_names().contains(low) <==> names_a_title(low)) by {
        let t = title_names();
        assert(t[0] == "title"@ && t[1] == "documenttitle"@ && t[2] == "thetitle"@ && t[3]
            == "doc title"@);
    }
}

} // verus!
