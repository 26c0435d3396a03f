//! Classification of style names into semantic classes and heading levels.
//!
//! When a blueprint has no style of a given name, style mapping falls back on the
//! class assigned here.

use vstd::prelude::*;
use vstd::utf8::is_ascii_chars;

use crate::text::{
    chars_eq, chars_of, contains_chars, decimal, digit_value, find_chars, find_str, is_digit,
    law_lowering_again, law_lowering_and_trimming, law_trimming_again, lowercase, match_str,
    starts_with, to_decimal, trim, trimmed,
};

verus! {

/// Semantic class of a style name.
#[derive(Clone, Copy, Debug, PartialEq, Eq, Hash, Structural)]
pub enum SemanticClass {
    /// A heading, with its level.
    Heading(u8),
    /// A document title.
    Title,
    /// A standard paragraph.
    Body,
    /// The text of a footnote.
    Footnote,
    /// The caption of a figure or table.
    Caption,
    /// A block quotation.
    Blockquote,
    /// An abstract or summary.
    Abstract,
    /// None of these.
    Unknown,
}

/// The name of a class.
pub open spec fn class_name(c: SemanticClass) -> Seq<char> {
    match c {
        SemanticClass::Heading(n) => "heading"@ + decimal(n as nat),
        SemanticClass::Title => "title"@,
        SemanticClass::Body => "body"@,
        SemanticClass::Footnote => "footnote"@,
        SemanticClass::Caption => "caption"@,
        SemanticClass::Blockquote => "blockquote"@,
        SemanticClass::Abstract => "abstract"@,
        SemanticClass::Unknown => "unknown"@,
    }
}

impl SemanticClass {
    /// The name of the class, such as `heading1` or `body`.
    pub fn as_str(&self) -> (r: String)
        ensures
            r@ == class_name(*self),
    {
        match self {
            SemanticClass::Heading(n) => {
                let mut r = "heading".to_owned();
                let level: u8 = *n;
                r.append(&to_decimal(level as u64));
                r
            },
            SemanticClass::Title => "title".to_owned(),
            SemanticClass::Body => "body".to_owned(),
            SemanticClass::Footnote => "footnote".to_owned(),
            SemanticClass::Caption => "caption".to_owned(),
            SemanticClass::Blockquote => "blockquote".to_owned(),
            SemanticClass::Abstract => "abstract".to_owned(),
            SemanticClass::Unknown => "unknown".to_owned(),
        }
    }
}

/// Result of classifying a style name.
#[derive(Clone, Copy, Debug, PartialEq, Eq, Hash, Structural)]
pub struct StyleClassification {
    /// The class of the name.
    pub class: SemanticClass,
    /// The level of a heading, 0 for anything else.
    pub heading_level: u8,
}

/// The texts of a sequence of string slices.
pub open spec fn strs_view(v: Seq<&str>) -> Seq<Seq<char>> {
    v.map_values(|s: &str| s@)
}

// ---------------------------------------------------------------------------
// Pattern tables
// ---------------------------------------------------------------------------

/// Names that the name of a heading style of a level starts with.
pub open spec fn heading_names(level: int) -> Seq<Seq<char>> {
    if level == 1 {
        seq![
            "heading 1"@,
            "heading1"@,
            "h1"@,
            "überschrift 1"@,
            "titre 1"@,
            "titolo 1"@,
            "encabezado 1"@,
            "заголовок 1"@,
            "标题 1"@,
            "kop 1"@,
            "nagłówek 1"@,
            "rubrik 1"@,
            "heading1char"@,
        ]
    } else if level == 2 {
        seq![
            "heading 2"@,
            "heading2"@,
            "h2"@,
            "überschrift 2"@,
            "titre 2"@,
            "titolo 2"@,
            "encabezado 2"@,
            "заголовок 2"@,
            "标题 2"@,
            "kop 2"@,
            "nagłówek 2"@,
        ]
    } else if level == 3 {
        seq![
            "heading 3"@,
            "heading3"@,
            "h3"@,
            "überschrift 3"@,
            "titre 3"@,
            "titolo 3"@,
            "encabezado 3"@,
            "заголовок 3"@,
            "标题 3"@,
            "kop 3"@,
            "nagłówek 3"@,
        ]
    } else if level == 4 {
        seq![
            "heading 4"@,
            "heading4"@,
            "h4"@,
            "überschrift 4"@,
            "titre 4"@,
            "заголовок 4"@,
        ]
    } else if level == 5 {
        seq![
            "heading 5"@,
            "heading5"@,
            "h5"@,
            "überschrift 5"@,
            "titre 5"@,
        ]
    } else if level == 6 {
        seq![
            "heading 6"@,
            "heading6"@,
            "h6"@,
            "überschrift 6"@,
        ]
    } else if level == 7 {
        seq![
            "heading 7"@,
            "heading7"@,
            "h7"@,
        ]
    } else if level == 8 {
        seq![
            "heading 8"@,
            "heading8"@,
            "h8"@,
        ]
    } else {
        seq![
            "heading 9"@,
            "heading9"@,
            "h9"@,
        ]
    }
}

/// Names that the name of a heading style of a level starts with.
fn heading_patterns(level: u8) -> (r: Vec<&'static str>)
    requires
        1 <= level <= 9,
    ensures
        strs_view(r@) == heading_names(level as int),
{
    let r: Vec<&'static str> = if level == 1 {
        vec![
            "heading 1",
            "heading1",
            "h1",
            "überschrift 1",
            "titre 1",
            "titolo 1",
            "encabezado 1",
            "заголовок 1",
            "标题 1",
            "kop 1",
            "nagłówek 1",
            "rubrik 1",
            "heading1char",
        ]
    } else if level == 2 {
        vec![
            "heading 2",
            "heading2",
            "h2",
            "überschrift 2",
            "titre 2",
            "titolo 2",
            "encabezado 2",
            "заголовок 2",
            "标题 2",
            "kop 2",
            "nagłówek 2",
        ]
    } else if level == 3 {
        vec![
            "heading 3",
            "heading3",
            "h3",
            "überschrift 3",
            "titre 3",
            "titolo 3",
            "encabezado 3",
            "заголовок 3",
            "标题 3",
            "kop 3",
            "nagłówek 3",
        ]
    } else if level == 4 {
        vec![
            "heading 4",
            "heading4",
            "h4",
            "überschrift 4",
            "titre 4",
            "заголовок 4",
        ]
    } else if level == 5 {
        vec![
            "heading 5",
            "heading5",
            "h5",
            "überschrift 5",
            "titre 5",
        ]
    } else if level == 6 {
        vec![
            "heading 6",
            "heading6",
            "h6",
            "überschrift 6",
        ]
    } else if level == 7 {
        vec![
            "heading 7",
            "heading7",
            "h7",
        ]
    } else if level == 8 {
        vec![
            "heading 8",
            "heading8",
            "h8",
        ]
    } else {
        vec![
            "heading 9",
            "heading9",
            "h9",
        ]
    };
    assert(strs_view(r@) =~= heading_names(level as int));
    r
}

/// Names of title styles.
pub open spec fn title_names() -> Seq<Seq<char>> {
    seq![
        "title"@,
        "documenttitle"@,
        "thetitle"@,
        "doc title"@,
    ]
}

/// Names of title styles.
fn title_patterns() -> (r: Vec<&'static str>)
    ensures
        strs_view(r@) == title_names(),
{
    let r: Vec<&'static str> = vec![
        "title",
        "documenttitle",
        "thetitle",
        "doc title",
    ];
    assert(strs_view(r@) =~= title_names());
    r
}

/// Names of body styles.
pub open spec fn body_names() -> Seq<Seq<char>> {
    seq![
        "normal"@,
        "standard"@,
        "body text"@,
        "bodytext"@,
        "fließtext"@,
        "texte de corps"@,
        "corpo del testo"@,
        "cuerpo de texto"@,
        "основной текст"@,
        "no spacing"@,
        "default paragraph style"@,
        "tekst podstawowy"@,
    ]
}

/// Names of body styles.
fn body_patterns() -> (r: Vec<&'static str>)
    ensures
        strs_view(r@) == body_names(),
{
    let r: Vec<&'static str> = vec![
        "normal",
        "standard",
        "body text",
        "bodytext",
        "fließtext",
        "texte de corps",
        "corpo del testo",
        "cuerpo de texto",
        "основной текст",
        "no spacing",
        "default paragraph style",
        "tekst podstawowy",
    ];
    assert(strs_view(r@) =~= body_names());
    r
}

/// What the names of footnote styles hold.
pub open spec fn footnote_names() -> Seq<Seq<char>> {
    seq![
        "footnote text"@,
        "fußnotentext"@,
        "note de bas de page"@,
        "nota a piè di pagina"@,
        "nota al pie"@,
        "сноска"@,
        "footnote"@,
        "footnotetext"@,
    ]
}

/// What the names of footnote styles hold.
fn footnote_patterns() -> (r: Vec<&'static str>)
    ensures
        strs_view(r@) == footnote_names(),
{
    let r: Vec<&'static str> = vec![
        "footnote text",
        "fußnotentext",
        "note de bas de page",
        "nota a piè di pagina",
        "nota al pie",
        "сноска",
        "footnote",
        "footnotetext",
    ];
    assert(strs_view(r@) =~= footnote_names());
    r
}

/// What the names of caption styles hold.
pub open spec fn caption_names() -> Seq<Seq<char>> {
    seq![
        "caption"@,
        "bildunterschrift"@,
        "légende"@,
        "didascalia"@,
        "leyenda"@,
    ]
}

/// What the names of caption styles hold.
fn caption_patterns() -> (r: Vec<&'static str>)
    ensures
        strs_view(r@) == caption_names(),
{
    let r: Vec<&'static str> = vec![
        "caption",
        "bildunterschrift",
        "légende",
        "didascalia",
        "leyenda",
    ];
    assert(strs_view(r@) =~= caption_names());
    r
}

/// What the names of quotation styles hold.
pub open spec fn blockquote_names() -> Seq<Seq<char>> {
    seq![
        "block text"@,
        "blockquote"@,
        "quote"@,
        "intense quote"@,
        "block quotation"@,
        "zitat"@,
        "citation"@,
        "citazione"@,
        "bloque de texto"@,
    ]
}

/// What the names of quotation styles hold.
fn blockquote_patterns() -> (r: Vec<&'static str>)
    ensures
        strs_view(r@) == blockquote_names(),
{
    let r: Vec<&'static str> = vec![
        "block text",
        "blockquote",
        "quote",
        "intense quote",
        "block quotation",
        "zitat",
        "citation",
        "citazione",
        "bloque de texto",
    ];
    assert(strs_view(r@) =~= blockquote_names());
    r
}

/// What the names of abstract styles hold.
pub open spec fn abstract_names() -> Seq<Seq<char>> {
    seq![
        "abstract"@,
        "zusammenfassung"@,
        "résumé"@,
        "riassunto"@,
    ]
}

/// What the names of abstract styles hold.
fn abstract_patterns() -> (r: Vec<&'static str>)
    ensures
        strs_view(r@) == abstract_names(),
{
    let r: Vec<&'static str> = vec![
        "abstract",
        "zusammenfassung",
        "résumé",
        "riassunto",
    ];
    assert(strs_view(r@) =~= abstract_names());
    r
}

/// Words for a heading that a level may follow.
pub open spec fn keyword_names() -> Seq<Seq<char>> {
    seq![
        "heading"@,
        "ueberschrift"@,
        "überschrift"@,
        "titre"@,
        "titolo"@,
        "encabezado"@,
        "заголовок"@,
        "kop"@,
        "rubrik"@,
        "nagłówek"@,
    ]
}

/// Words for a heading that a level may follow.
fn keyword_patterns() -> (r: Vec<&'static str>)
    ensures
        strs_view(r@) == keyword_names(),
{
    let r: Vec<&'static str> = vec![
        "heading",
        "ueberschrift",
        "überschrift",
        "titre",
        "titolo",
        "encabezado",
        "заголовок",
        "kop",
        "rubrik",
        "nagłówek",
    ];
    assert(strs_view(r@) =~= keyword_names());
    r
}

// ---------------------------------------------------------------------------
// Matching
// ---------------------------------------------------------------------------

/// Some pattern is the start of `name`.
pub open spec fn any_prefix(name: Seq<char>, patterns: Seq<Seq<char>>) -> bool {
    exists|i: int| 0 <= i < patterns.len() && starts_with(name, #[trigger] patterns[i])
}

/// Some pattern stands in `name`.
pub open spec fn any_inside(name: Seq<char>, patterns: Seq<Seq<char>>) -> bool {
    exists|i: int| 0 <= i < patterns.len() && contains_chars(name, #[trigger] patterns[i])
}

/// The least level, from `level` on, that `name` starts like a heading of.
pub open spec fn level_by_prefix(name: Seq<char>, level: int) -> Option<int>
    decreases 10 - level,
{
    if level > 9 {
        None
    } else if any_prefix(name, heading_names(level)) {
        Some(level)
    } else {
        level_by_prefix(name, level + 1)
    }
}

/// A character that may stand between a heading word and its level.
pub open spec fn is_separator(c: char) -> bool {
    c == ' ' || c == '\t' || c == '_' || c == '-'
}

/// The first position at or after `from` that holds no separator.
pub open spec fn skip_separators(s: Seq<char>, from: int) -> int
    decreases s.len() - from,
{
    if from >= s.len() || !is_separator(s[from]) {
        from
    } else {
        skip_separators(s, from + 1)
    }
}

/// The first position at or after `from` that holds no zero.
pub open spec fn skip_zeros(s: Seq<char>, from: int) -> int
    decreases s.len() - from,
{
    if from >= s.len() || s[from] != '0' {
        from
    } else {
        skip_zeros(s, from + 1)
    }
}

/// The level that follows the first occurrence of a heading word, after separators
/// and leading zeros.
pub open spec fn level_after(name: Seq<char>, word: Seq<char>) -> Option<int> {
    match find_chars(name, word, 0) {
        None => None,
        Some(p) => {
            let t = skip_zeros(name, skip_separators(name, p + word.len()));
            if t < name.len() && is_digit(name[t]) {
                Some(digit_value(name[t]))
            } else {
                None
            }
        },
    }
}

/// The level that follows the first heading word, from the `i`-th on, that a level
/// follows.
pub open spec fn level_by_word(name: Seq<char>, i: int) -> Option<int>
    decreases keyword_names().len() - i,
{
    if i >= keyword_names().len() {
        None
    } else {
        match level_after(name, keyword_names()[i]) {
            Some(level) => Some(level),
            None => level_by_word(name, i + 1),
        }
    }
}

/// A class that is no heading.
pub open spec fn plain(class: SemanticClass) -> StyleClassification {
    StyleClassification { class, heading_level: 0 }
}

/// A heading of a level.
pub open spec fn heading(level: int) -> StyleClassification {
    StyleClassification { class: SemanticClass::Heading(level as u8), heading_level: level as u8 }
}

/// The classification of a lowercase, trimmed name.
pub open spec fn classified(name: Seq<char>) -> StyleClassification {
    if level_by_prefix(name, 1) is Some {
        heading(level_by_prefix(name, 1)->0)
    } else if level_by_word(name, 0) is Some {
        heading(level_by_word(name, 0)->0)
    } else if title_names().contains(name) {
        plain(SemanticClass::Title)
    } else if any_inside(name, footnote_names()) {
        plain(SemanticClass::Footnote)
    } else if any_inside(name, caption_names()) {
        plain(SemanticClass::Caption)
    } else if any_inside(name, blockquote_names()) {
        plain(SemanticClass::Blockquote)
    } else if any_inside(name, abstract_names()) {
        plain(SemanticClass::Abstract)
    } else if any_prefix(name, body_names()) {
        plain(SemanticClass::Body)
    } else {
        plain(SemanticClass::Unknown)
    }
}

/// The classification of a style name.
pub open spec fn style_class(name: Seq<char>) -> StyleClassification {
    classified(trimmed(lowercase(name)))
}

fn has_prefix(name: &[char], patterns: &Vec<&'static str>) -> (r: bool)
    ensures
        r == any_prefix(name@, strs_view(patterns@)),
{
    let mut i: usize = 0;
    while i < patterns.len()
        invariant
            i <= patterns@.len(),
            forall|j: int|
                0 <= j < i ==> !starts_with(name@, #[trigger] strs_view(patterns@)[j]),
        decreases patterns@.len() - i,
    {
        assert(strs_view(patterns@)[i as int] == patterns@[i as int]@);
        if match_str(name, 0, patterns[i]) {
            return true;
        }
        i += 1;
    }
    false
}

fn has_inside(name: &[char], patterns: &Vec<&'static str>) -> (r: bool)
    ensures
        r == any_inside(name@, strs_view(patterns@)),
{
    let mut i: usize = 0;
    while i < patterns.len()
        invariant
            i <= patterns@.len(),
            forall|j: int|
                0 <= j < i ==> !contains_chars(name@, #[trigger] strs_view(patterns@)[j]),
        decreases patterns@.len() - i,
    {
        assert(strs_view(patterns@)[i as int] == patterns@[i as int]@);
        if find_str(name, patterns[i], 0).is_some() {
            return true;
        }
        i += 1;
    }
    false
}

fn is_one_of(name: &[char], patterns: &Vec<&'static str>) -> (r: bool)
    ensures
        r == strs_view(patterns@).contains(name@),
{
    let mut i: usize = 0;
    while i < patterns.len()
        invariant
            i <= patterns@.len(),
            forall|j: int| 0 <= j < i ==> #[trigger] strs_view(patterns@)[j] != name@,
        decreases patterns@.len() - i,
    {
        assert(strs_view(patterns@)[i as int] == patterns@[i as int]@);
        if chars_eq(name, &chars_of(patterns[i])) {
            return true;
        }
        i += 1;
    }
    false
}

fn match_heading_prefix(name: &[char]) -> (r: Option<u8>)
    ensures
        match r {
            Some(level) => level_by_prefix(name@, 1) == Some(level as int),
            None => level_by_prefix(name@, 1) is None,
        },
{
    let mut level: u8 = 1;
    while level <= 9
        invariant
            1 <= level <= 10,
            level_by_prefix(name@, 1) == level_by_prefix(name@, level as int),
        decreases 10 - level,
    {
        let patterns = heading_patterns(level);
        if has_prefix(name, &patterns) {
            return Some(level);
        }
        level += 1;
    }
    None
}

fn level_after_word(name: &[char], word: &str) -> (r: Option<u8>)
    ensures
        match r {
            Some(level) => level_after(name@, word@) == Some(level as int),
            None => level_after(name@, word@) is None,
        },
{
    match find_str(name, word, 0) {
        None => None,
        Some(p) => {
            let n = chars_of(word);
            assert(p + n@.len() <= name.len());
            let mut t: usize = p + n.len();
            let ghost start = t as int;
            while t < name.len() && (name[t] == ' ' || name[t] == '\t' || name[t] == '_' || name[t]
                == '-')
                invariant
                    t <= name@.len(),
                    skip_separators(name@, start) == skip_separators(name@, t as int),
                decreases name@.len() - t,
            {
                t += 1;
            }
            let ghost mid = t as int;
            while t < name.len() && name[t] == '0'
                invariant
                    t <= name@.len(),
                    skip_zeros(name@, mid) == skip_zeros(name@, t as int),
                decreases name@.len() - t,
            {
                t += 1;
            }
            if t < name.len() && '0' <= name[t] && name[t] <= '9' {
                Some((name[t] as u32 - 0x30) as u8)
            } else {
                None
            }
        },
    }
}

/// The level after a heading word: catches `Ueberschrift_02`, `Titre2` and the like.
pub fn match_heading_kw_re(name: &[char]) -> (r: Option<u8>)
    ensures
        match r {
            Some(level) => level_by_word(name@, 0) == Some(level as int),
            None => level_by_word(name@, 0) is None,
        },
{
    let words = keyword_patterns();
    let mut i: usize = 0;
    while i < words.len()
        invariant
            i <= words@.len(),
            strs_view(words@) == keyword_names(),
            level_by_word(name@, 0) == level_by_word(name@, i as int),
        decreases words@.len() - i,
    {
        assert(strs_view(words@)[i as int] == words@[i as int]@);
        let level = level_after_word(name, words[i]);
        if level.is_some() {
            return level;
        }
        i += 1;
    }
    None
}

/// Classifies a style name.
pub fn classify_style(style_name: &str) -> (r: StyleClassification)
    ensures
        r == style_class(style_name@),
{
    let lower = style_name.to_lowercase();
    let all = chars_of(&lower);
    classify_trimmed(trim(&all))
}

/// Classifies a lowercase, trimmed name.
pub fn classify_trimmed(name: &[char]) -> (r: StyleClassification)
    ensures
        r == classified(name@),
{
    if let Some(level) = match_heading_prefix(name) {
        return StyleClassification { class: SemanticClass::Heading(level), heading_level: level };
    }
    if let Some(level) = match_heading_kw_re(name) {
        return StyleClassification { class: SemanticClass::Heading(level), heading_level: level };
    }
    let class = if is_one_of(name, &title_patterns()) {
        SemanticClass::Title
    } else if has_inside(name, &footnote_patterns()) {
        SemanticClass::Footnote
    } else if has_inside(name, &caption_patterns()) {
        SemanticClass::Caption
    } else if has_inside(name, &blockquote_patterns()) {
        SemanticClass::Blockquote
    } else if has_inside(name, &abstract_patterns()) {
        SemanticClass::Abstract
    } else if has_prefix(name, &body_patterns()) {
        SemanticClass::Body
    } else {
        SemanticClass::Unknown
    };
    StyleClassification { class, heading_level: 0 }
}

/// The classification of a name with ASCII characters alone does not depend on case, nor on
/// white space around it.
pub proof fn law_case_and_white_space(name: Seq<char>)
    requires
        is_ascii_chars(name),
    ensures
        style_class(lowercase(name)) == style_class(name),
        style_class(trimmed(name)) == style_class(name),
{
    law_lowering_again(name);
    law_lowering_and_trimming(name);
    law_trimming_again(lowercase(name));
}

proof fn lemma_prefix_level(name: Seq<char>, level: int)
    requires
        1 <= level,
    ensures
        level_by_prefix(name, level) matches Some(n) ==> 1 <= n <= 9,
    decreases 10 - level,
{
    if level <= 9 {
        lemma_prefix_level(name, level + 1);
    }
}

proof fn lemma_skip_zeros(s: Seq<char>, from: int)
    ensures
        skip_zeros(s, from) < s.len() ==> s[skip_zeros(s, from)] != '0',
    decreases s.len() - from,
{
    if from < s.len() && s[from] == '0' {
        lemma_skip_zeros(s, from + 1);
    }
}

proof fn lemma_word_level(name: Seq<char>, i: int)
    requires
        0 <= i,
    ensures
        level_by_word(name, i) matches Some(n) ==> 1 <= n <= 9,
    decreases keyword_names().len() - i,
{
    if i < keyword_names().len() {
        lemma_word_level(name, i + 1);
        let word = keyword_names()[i];
        if let Some(p) = find_chars(name, word, 0) {
            lemma_skip_zeros(name, skip_separators(name, p + word.len()));
        }
    }
}

/// The level of a style is from zero to nine, and greater than zero exactly for a heading,
/// whose level it is.
pub proof fn law_heading_levels(name: Seq<char>)
    ensures
        ({
            let c = style_class(name);
            &&& 0 <= c.heading_level <= 9
            &&& c.heading_level > 0 <==> c.class is Heading
            &&& c.class matches SemanticClass::Heading(n) ==> n == c.heading_level
        }),
{
    let lower = trimmed(lowercase(name));
    lemma_prefix_level(lower, 1);
    lemma_word_level(lower, 0);
}

} // verus!
