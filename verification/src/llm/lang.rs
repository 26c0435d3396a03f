//! Names and codes of languages.

use vstd::prelude::*;

use crate::text::{
    ascii_lower, chars_of, law_trimming_keeps, str_eq, string_of, trim, trimmed,
};

verus! {

/// A language: its name, and its code in ISO 639-1.
#[derive(Debug)]
pub struct Language {
    /// The name in English.
    pub name: String,
    /// The code.
    pub code: String,
}

/// Names of languages in lower case, in English and in the language itself, with their
/// codes.
pub open spec fn language_names() -> Seq<(&'static str, &'static str)> {
    seq![
        ("english", "en"),
        ("german", "de"),
        ("deutsch", "de"),
        ("french", "fr"),
        ("français", "fr"),
        ("francais", "fr"),
        ("spanish", "es"),
        ("español", "es"),
        ("espanol", "es"),
        ("castellano", "es"),
        ("italian", "it"),
        ("italiano", "it"),
        ("portuguese", "pt"),
        ("português", "pt"),
        ("portugues", "pt"),
        ("dutch", "nl"),
        ("nederlands", "nl"),
        ("polish", "pl"),
        ("polski", "pl"),
        ("russian", "ru"),
        ("русский", "ru"),
        ("russky", "ru"),
        ("russkiy", "ru"),
        ("ukrainian", "uk"),
        ("українська", "uk"),
        ("ukrayinska", "uk"),
        ("czech", "cs"),
        ("čeština", "cs"),
        ("cestina", "cs"),
        ("swedish", "sv"),
        ("svenska", "sv"),
        ("norwegian", "no"),
        ("norsk", "no"),
        ("danish", "da"),
        ("dansk", "da"),
        ("finnish", "fi"),
        ("suomi", "fi"),
        ("greek", "el"),
        ("ελληνικά", "el"),
        ("turkish", "tr"),
        ("türkçe", "tr"),
        ("turkce", "tr"),
        ("arabic", "ar"),
        ("العربية", "ar"),
        ("hebrew", "he"),
        ("עברית", "he"),
        ("chinese", "zh"),
        ("中文", "zh"),
        ("mandarin", "zh"),
        ("japanese", "ja"),
        ("日本語", "ja"),
        ("korean", "ko"),
        ("한국어", "ko"),
        ("hindi", "hi"),
        ("हिन्दी", "hi"),
        ("vietnamese", "vi"),
        ("tiếng việt", "vi"),
        ("tieng viet", "vi"),
        ("thai", "th"),
        ("ไทย", "th"),
        ("indonesian", "id"),
        ("bahasa indonesia", "id"),
        ("romanian", "ro"),
        ("română", "ro"),
        ("romana", "ro"),
        ("hungarian", "hu"),
        ("magyar", "hu"),
        ("bulgarian", "bg"),
        ("български", "bg"),
        ("serbian", "sr"),
        ("српски", "sr"),
        ("srpski", "sr"),
        ("croatian", "hr"),
        ("hrvatski", "hr"),
        ("slovenian", "sl"),
        ("slovenščina", "sl"),
        ("slovenski", "sl"),
        ("slovak", "sk"),
        ("slovenský", "sk"),
        ("slovensky", "sk"),
    ]
}

/// Codes of languages with their names in English.
pub open spec fn language_codes() -> Seq<(&'static str, &'static str)> {
    seq![
        ("en", "English"),
        ("de", "German"),
        ("fr", "French"),
        ("es", "Spanish"),
        ("it", "Italian"),
        ("pt", "Portuguese"),
        ("nl", "Dutch"),
        ("pl", "Polish"),
        ("ru", "Russian"),
        ("uk", "Ukrainian"),
        ("cs", "Czech"),
        ("sv", "Swedish"),
        ("no", "Norwegian"),
        ("da", "Danish"),
        ("fi", "Finnish"),
        ("el", "Greek"),
        ("tr", "Turkish"),
        ("ar", "Arabic"),
        ("he", "Hebrew"),
        ("zh", "Chinese"),
        ("ja", "Japanese"),
        ("ko", "Korean"),
        ("hi", "Hindi"),
        ("vi", "Vietnamese"),
        ("th", "Thai"),
        ("id", "Indonesian"),
        ("ro", "Romanian"),
        ("hu", "Hungarian"),
        ("bg", "Bulgarian"),
        ("sr", "Serbian"),
        ("hr", "Croatian"),
        ("sl", "Slovenian"),
        ("sk", "Slovak"),
    ]
}

fn list_names() -> (r: Vec<(&'static str, &'static str)>)
    ensures
        r@ == language_names(),
{
    let r: Vec<(&'static str, &'static str)> = vec![
        ("english", "en"),
        ("german", "de"),
        ("deutsch", "de"),
        ("french", "fr"),
        ("français", "fr"),
        ("francais", "fr"),
        ("spanish", "es"),
        ("español", "es"),
        ("espanol", "es"),
        ("castellano", "es"),
        ("italian", "it"),
        ("italiano", "it"),
        ("portuguese", "pt"),
        ("português", "pt"),
        ("portugues", "pt"),
        ("dutch", "nl"),
        ("nederlands", "nl"),
        ("polish", "pl"),
        ("polski", "pl"),
        ("russian", "ru"),
        ("русский", "ru"),
        ("russky", "ru"),
        ("russkiy", "ru"),
        ("ukrainian", "uk"),
        ("українська", "uk"),
        ("ukrayinska", "uk"),
        ("czech", "cs"),
        ("čeština", "cs"),
        ("cestina", "cs"),
        ("swedish", "sv"),
        ("svenska", "sv"),
        ("norwegian", "no"),
        ("norsk", "no"),
        ("danish", "da"),
        ("dansk", "da"),
        ("finnish", "fi"),
        ("suomi", "fi"),
        ("greek", "el"),
        ("ελληνικά", "el"),
        ("turkish", "tr"),
        ("türkçe", "tr"),
        ("turkce", "tr"),
        ("arabic", "ar"),
        ("العربية", "ar"),
        ("hebrew", "he"),
        ("עברית", "he"),
        ("chinese", "zh"),
        ("中文", "zh"),
        ("mandarin", "zh"),
        ("japanese", "ja"),
        ("日本語", "ja"),
        ("korean", "ko"),
        ("한국어", "ko"),
        ("hindi", "hi"),
        ("हिन्दी", "hi"),
        ("vietnamese", "vi"),
        ("tiếng việt", "vi"),
        ("tieng viet", "vi"),
        ("thai", "th"),
        ("ไทย", "th"),
        ("indonesian", "id"),
        ("bahasa indonesia", "id"),
        ("romanian", "ro"),
        ("română", "ro"),
        ("romana", "ro"),
        ("hungarian", "hu"),
        ("magyar", "hu"),
        ("bulgarian", "bg"),
        ("български", "bg"),
        ("serbian", "sr"),
        ("српски", "sr"),
        ("srpski", "sr"),
        ("croatian", "hr"),
        ("hrvatski", "hr"),
        ("slovenian", "sl"),
        ("slovenščina", "sl"),
        ("slovenski", "sl"),
        ("slovak", "sk"),
        ("slovenský", "sk"),
        ("slovensky", "sk"),
    ];
    assert(r@ =~= language_names());
    r
}

fn list_codes() -> (r: Vec<(&'static str, &'static str)>)
    ensures
        r@ == language_codes(),
{
    let r: Vec<(&'static str, &'static str)> = vec![
        ("en", "English"),
        ("de", "German"),
        ("fr", "French"),
        ("es", "Spanish"),
        ("it", "Italian"),
        ("pt", "Portuguese"),
        ("nl", "Dutch"),
        ("pl", "Polish"),
        ("ru", "Russian"),
        ("uk", "Ukrainian"),
        ("cs", "Czech"),
        ("sv", "Swedish"),
        ("no", "Norwegian"),
        ("da", "Danish"),
        ("fi", "Finnish"),
        ("el", "Greek"),
        ("tr", "Turkish"),
        ("ar", "Arabic"),
        ("he", "Hebrew"),
        ("zh", "Chinese"),
        ("ja", "Japanese"),
        ("ko", "Korean"),
        ("hi", "Hindi"),
        ("vi", "Vietnamese"),
        ("th", "Thai"),
        ("id", "Indonesian"),
        ("ro", "Romanian"),
        ("hu", "Hungarian"),
        ("bg", "Bulgarian"),
        ("sr", "Serbian"),
        ("hr", "Croatian"),
        ("sl", "Slovenian"),
        ("sk", "Slovak"),
    ];
    assert(r@ =~= language_codes());
    r
}

/// What stands beside `key` in a table, looked for from `from` on.
pub open spec fn listed_at(
    table: Seq<(&'static str, &'static str)>,
    key: Seq<char>,
    from: int,
) -> Option<Seq<char>>
    decreases table.len() - from,
{
    if from >= table.len() {
        None
    } else if table[from].0@ == key {
        Some(table[from].1@)
    } else {
        listed_at(table, key, from + 1)
    }
}

fn find_listed(table: &Vec<(&'static str, &'static str)>, key: &str) -> (r: Option<&'static str>)
    ensures
        match r {
            Some(v) => listed_at(table@, key@, 0) == Some(v@),
            None => listed_at(table@, key@, 0) is None,
        },
{
    let mut i: usize = 0;
    while i < table.len()
        invariant
            i <= table@.len(),
            listed_at(table@, key@, 0) == listed_at(table@, key@, i as int),
        decreases table@.len() - i,
    {
        if str_eq(table[i].0, key) {
            return Some(table[i].1);
        }
        i += 1;
    }
    None
}

/// A letter of ASCII.
pub open spec fn is_ascii_letter(c: char) -> bool {
    ('a' <= c && c <= 'z') || ('A' <= c && c <= 'Z')
}

/// A code by its form: one to three letters.
pub open spec fn is_code(s: Seq<char>) -> bool {
    0 < s.len() <= 3 && forall|i: int| 0 <= i < s.len() ==> is_ascii_letter(#[trigger] s[i])
}

/// `s` with the letters of ASCII in lower case.
pub open spec fn ascii_lowercase(s: Seq<char>) -> Seq<char> {
    s.map_values(|c: char| ascii_lower(c))
}

/// The code of a language, given by name or code. What is not known stays as it is.
pub open spec fn language_code(lang: Seq<char>) -> Seq<char> {
    let s = trimmed(lang);
    let lower = ascii_lowercase(s);
    if is_code(s) {
        lower
    } else {
        match listed_at(language_names(), lower, 0) {
            Some(code) => code,
            None => lang,
        }
    }
}

fn to_ascii_lower(s: &[char]) -> (r: String)
    ensures
        r@ == ascii_lowercase(s@),
{
    let mut r = String::new();
    let mut i: usize = 0;
    assert(r@ =~= ascii_lowercase(s@).take(0));
    while i < s.len()
        invariant
            i <= s@.len(),
            r@ == ascii_lowercase(s@).take(i as int),
        decreases s@.len() - i,
    {
        let c: char = s[i];
        let d: char = if 'A' <= c && c <= 'Z' {
            (c as u8 + 32) as char
        } else {
            c
        };
        r.push(d);
        i += 1;
        assert(r@ =~= ascii_lowercase(s@).take(i as int));
    }
    assert(ascii_lowercase(s@).take(i as int) =~= ascii_lowercase(s@));
    r
}

fn has_code_form(s: &[char]) -> (r: bool)
    ensures
        r == is_code(s@),
{
    if s.len() == 0 || s.len() > 3 {
        return false;
    }
    let mut i: usize = 0;
    while i < s.len()
        invariant
            i <= s@.len(),
            0 < s@.len() <= 3,
            forall|j: int| 0 <= j < i ==> is_ascii_letter(#[trigger] s@[j]),
        decreases s@.len() - i,
    {
        let c: char = s[i];
        if !(('a' <= c && c <= 'z') || ('A' <= c && c <= 'Z')) {
            return false;
        }
        i += 1;
    }
    true
}

/// The code of a language, given by name or code. What is not known stays as it is.
pub fn map_lang_to_code(lang: &str) -> (r: String)
    ensures
        r@ == language_code(lang@),
{
    let chars = chars_of(lang);
    let s = trim(&chars);
    let lower = to_ascii_lower(s);
    if has_code_form(s) {
        return lower;
    }
    match find_listed(&list_names(), &lower) {
        Some(code) => code.to_owned(),
        None => lang.to_owned(),
    }
}

/// The name of a language, given by name or code. What is not known stays as it is,
/// without white space around it.
pub open spec fn language_name(lang: Seq<char>) -> Seq<char> {
    match listed_at(language_codes(), language_code(lang), 0) {
        Some(name) => name,
        None => trimmed(lang),
    }
}

impl Language {
    /// The language that a name or a code denotes.
    pub fn parse(lang: &str) -> (r: Self)
        ensures
            r.code@ == language_code(lang@),
            r.name@ == language_name(lang@),
    {
        let code = map_lang_to_code(lang);
        let name = match find_listed(&list_codes(), &code) {
            Some(name) => name.to_owned(),
            None => string_of(trim(&chars_of(lang))),
        };
        Language { name, code }
    }
}

/// A code in lower case is its own code.
pub proof fn law_code_is_kept(s: Seq<char>)
    requires
        trimmed(s) == s,
        0 < s.len() <= 3,
        forall|i: int| 0 <= i < s.len() ==> 'a' <= #[trigger] s[i] && s[i] <= 'z',
    ensures
        language_code(s) == s,
{
    assert forall|i: int| 0 <= i < s.len() implies is_ascii_letter(#[trigger] s[i]) by {}
    assert(ascii_lowercase(s) =~= s);
}

/// A code in lower case.
spec fn is_lower_code(s: Seq<char>) -> bool {
    0 < s.len() <= 3 && forall|i: int| 0 <= i < s.len() ==> 'a' <= #[trigger] s[i] && s[i] <= 'z'
}

proof fn lemma_listed(table: Seq<(&'static str, &'static str)>, key: Seq<char>, from: int)
    requires
        0 <= from,
    ensures
        listed_at(table, key, from) matches Some(v) ==> exists|i: int|
            0 <= i < table.len() && (#[trigger] table[i]).1@ == v,
    decreases table.len() - from,
{
    if from < table.len() && table[from].0@ != key {
        lemma_listed(table, key, from + 1);
    }
}

#[verifier::rlimit(60)]
proof fn lemma_codes()
    ensures
        forall|i: int|
            0 <= i < language_names().len() ==> is_lower_code((#[trigger] language_names()[i]).1@),
{
    reveal_strlit("en");
    reveal_strlit("de");
    reveal_strlit("fr");
    reveal_strlit("es");
    reveal_strlit("it");
    reveal_strlit("pt");
    reveal_strlit("nl");
    reveal_strlit("pl");
    reveal_strlit("ru");
    reveal_strlit("uk");
    reveal_strlit("cs");
    reveal_strlit("sv");
    reveal_strlit("no");
    reveal_strlit("da");
    reveal_strlit("fi");
    reveal_strlit("el");
    reveal_strlit("tr");
    reveal_strlit("ar");
    reveal_strlit("he");
    reveal_strlit("zh");
    reveal_strlit("ja");
    reveal_strlit("ko");
    reveal_strlit("hi");
    reveal_strlit("vi");
    reveal_strlit("th");
    reveal_strlit("id");
    reveal_strlit("ro");
    reveal_strlit("hu");
    reveal_strlit("bg");
    reveal_strlit("sr");
    reveal_strlit("hr");
    reveal_strlit("sl");
    reveal_strlit("sk");
}

/// Letters have no white space around them.
proof fn lemma_letters_stay(s: Seq<char>)
    requires
        is_lower_code(s),
    ensures
        trimmed(s) == s,
{
    law_trimming_keeps(s);
}

/// The code of a language is its own code.
pub proof fn law_code_again(lang: Seq<char>)
    ensures
        language_code(language_code(lang)) == language_code(lang),
{
    let s = trimmed(lang);
    let code = language_code(lang);
    if is_code(s) {
        assert forall|i: int| 0 <= i < code.len() implies 'a' <= #[trigger] code[i] && code[i]
            <= 'z' by {
            assert(is_ascii_letter(s[i]));
        }
        lemma_letters_stay(code);
        law_code_is_kept(code);
    } else if listed_at(language_names(), ascii_lowercase(s), 0) is Some {
        lemma_listed(language_names(), ascii_lowercase(s), 0);
        lemma_codes();
        lemma_letters_stay(code);
        law_code_is_kept(code);
    }
}

/// Neither white space around a name or a code nor the case of its letters makes a difference,
/// and what is neither a code nor a name that is known stays as it is.
pub proof fn law_case_and_space_make_no_difference(lang: Seq<char>, other: Seq<char>)
    requires
        ascii_lowercase(trimmed(lang)) == ascii_lowercase(trimmed(other)),
    ensures
        is_code(trimmed(lang)) == is_code(trimmed(other)),
        is_code(trimmed(lang)) || listed_at(language_names(), ascii_lowercase(trimmed(lang)), 0)
            is Some ==> language_code(lang) == language_code(other),
        !is_code(trimmed(lang)) && listed_at(language_names(), ascii_lowercase(trimmed(lang)), 0)
            is None ==> language_code(lang) == lang,
{
    let a = trimmed(lang);
    let b = trimmed(other);
    assert(ascii_lowercase(a).len() == ascii_lowercase(b).len());
    assert forall|i: int| 0 <= i < a.len() implies is_ascii_letter(a[i]) == is_ascii_letter(
        b[i],
    ) by {
        assert(ascii_lowercase(a)[i] == ascii_lowercase(b)[i]);
    }
    if is_code(a) {
        assert forall|i: int| 0 <= i < b.len() implies is_ascii_letter(#[trigger] b[i]) by {
            assert(is_ascii_letter(a[i]));
        }
    }
    if is_code(b) {
        assert forall|i: int| 0 <= i < a.len() implies is_ascii_letter(#[trigger] a[i]) by {
            assert(is_ascii_letter(b[i]));
        }
    }
}

} // verus!
