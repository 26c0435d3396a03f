//! Inline markdown and quotation marks.

use crisp_docx::inline_md::{parse_inline, Span};
use crisp_docx::quote_style::QuoteNormalizer;
use crisp_docx::{normalize_quotes, QuoteOptions, QuoteStyle};

type Plain = (String, bool, bool, Option<String>);

fn span(text: &str, bold: bool, italic: bool, link: Option<&str>) -> Plain {
    (text.to_string(), bold, italic, link.map(|l| l.to_string()))
}

fn plain(text: &str) -> Plain {
    span(text, false, false, None)
}

fn spans(input: &str) -> Vec<Plain> {
    parse_inline(input)
        .into_iter()
        .map(|s: Span| (s.text, s.bold, s.italic, s.link))
        .collect()
}

#[test]
fn plain_text_is_one_span() {
    assert_eq!(spans("just text"), vec![plain("just text")]);
}

#[test]
fn italic_and_bold() {
    let s = spans("a *b* c **d** e");
    assert_eq!(s[0], plain("a "));
    assert_eq!(s[1], span("b", false, true, None));
    assert_eq!(s[2], plain(" c "));
    assert_eq!(s[3], span("d", true, false, None));
    assert_eq!(s[4], plain(" e"));
}

#[test]
fn bold_italic_triple() {
    let s = spans("***x***");
    assert_eq!(
        s,
        vec![span("x", true, true, None)]
    );
}

#[test]
fn underscores_are_literal() {
    assert_eq!(
        spans("universale_in_re"),
        vec![plain("universale_in_re")]
    );
}

#[test]
fn escaped_asterisk() {
    assert_eq!(spans(r"a \* b"), vec![plain("a * b")]);
}

#[test]
fn explicit_link() {
    let s = spans("see [here](https://example.org/p) now");
    assert_eq!(s[0], plain("see "));
    assert_eq!(s[1], span("here", false, false, Some("https://example.org/p")));
    assert_eq!(s[2], plain(" now"));
}

#[test]
fn bare_url_drops_trailing_period() {
    let s = spans("vgl. https://lto.de/n/2u17424.");
    assert_eq!(s[1].3.as_deref(), Some("https://lto.de/n/2u17424"));
    assert_eq!(s[2], plain("."));
}

#[test]
fn intraword_h_is_not_a_url() {
    assert_eq!(spans("Pythagoras"), vec![plain("Pythagoras")]);
}

#[test]
fn italic_link_label() {
    let s = spans("*[t](http://x.io)*");
    assert_eq!(
        s,
        vec![span("t", false, true, Some("http://x.io"))]
    );
}

fn de(s: &str) -> String {
    normalize_quotes(s, QuoteStyle::German, QuoteOptions::default())
}

#[test]
fn straight_doubles_to_german() {
    assert_eq!(de(r#"Das "Wort" hier."#), "Das \u{201E}Wort\u{201C} hier.");
}

#[test]
fn english_curly_to_german() {
    assert_eq!(
        de("Ein \u{201C}Zitat\u{201D}."),
        "Ein \u{201E}Zitat\u{201C}."
    );
}

#[test]
fn german_to_english() {
    let s = normalize_quotes(
        "\u{201E}Zitat\u{201C}",
        QuoteStyle::English,
        QuoteOptions::default(),
    );
    assert_eq!(s, "\u{201C}Zitat\u{201D}");
}

#[test]
fn to_french_adds_inner_narrow_space() {
    let s = normalize_quotes(r#""mot""#, QuoteStyle::French, QuoteOptions::default());
    assert_eq!(s, "\u{00AB}\u{202F}mot\u{202F}\u{00BB}");
}

#[test]
fn french_to_swiss_strips_spacing() {
    let s = normalize_quotes(
        "\u{00AB}\u{202F}mot\u{202F}\u{00BB}",
        QuoteStyle::Swiss,
        QuoteOptions::default(),
    );
    assert_eq!(s, "\u{00AB}mot\u{00BB}");
}

#[test]
fn apostrophe_is_preserved_not_a_quote() {
    // l'homme and Cusanus' both yield U+2019, no opening quote.
    assert_eq!(de("l'homme"), "l\u{2019}homme");
    assert_eq!(de("Cusanus' These"), "Cusanus\u{2019} These");
}

#[test]
fn nested_single_inside_double() {
    let s = de(r#"Er sagte "ein 'Wort' nur"."#);
    assert_eq!(s, "Er sagte \u{201E}ein \u{201A}Wort\u{2018} nur\u{201C}.");
}

#[test]
fn singles_can_be_skipped() {
    let opts = QuoteOptions { singles: false };
    let s = normalize_quotes("'a' \"b\"", QuoteStyle::German, opts);
    // single quotes left untouched, doubles converted
    assert_eq!(s, "'a' \u{201E}b\u{201C}");
}

#[test]
fn close_at_fragment_start_uses_threaded_context() {
    // Simulate a run boundary: "Wort" split as ["Wort] + ["] — the
    // closing quote must still resolve as closing.
    let mut norm = QuoteNormalizer::new(QuoteStyle::German, QuoteOptions::default());
    let a = norm.push("\"Wort");
    let b = norm.push("\" Rest");
    assert_eq!(format!("{a}{b}"), "\u{201E}Wort\u{201C} Rest");
}

#[test]
fn delimiters_without_counterpart_are_text() {
    assert_eq!(spans("a * b"), vec![plain("a * b")]);
    assert_eq!(spans("*a *b"), vec![span("a ", false, true, None), plain("b")]);
    assert_eq!(spans("*a* **b"), vec![span("a", false, true, None), plain(" **b")]);
    assert_eq!(spans("*a***b"), vec![span("a", false, true, None), plain("**b")]);
    assert_eq!(spans("[x] (y)"), vec![plain("[x] (y)")]);
}

#[test]
fn asterisks_beyond_three_are_text() {
    assert_eq!(
        spans("****x***"),
        vec![span("*x", true, true, None)]
    );
}

#[test]
fn angle_links_need_a_scheme() {
    assert_eq!(
        spans("<mailto:a@b.org>"),
        vec![span("mailto:a@b.org", false, false, Some("mailto:a@b.org"))]
    );
    assert_eq!(spans("<b>"), vec![plain("<b>")]);
    assert_eq!(spans("<http://a b>"), vec![plain("<"), span("http://a", false, false, Some("http://a")), plain(" b>")]);
}

#[test]
fn parentheses_of_an_address() {
    let s = spans("(https://x.org/a_(b)) tail");
    assert_eq!(s[1].3.as_deref(), Some("https://x.org/a_(b)"));
    assert_eq!(s[2], plain(") tail"));
}

#[test]
fn a_scheme_alone_is_text() {
    assert_eq!(spans("https://."), vec![plain("https://.")]);
}

#[test]
fn links_need_an_address() {
    assert_eq!(spans("[x]( )"), vec![plain("[x]( )")]);
    assert_eq!(
        spans("[x]( u )"),
        vec![span("x", false, false, Some("u"))]
    );
}

#[test]
fn a_final_backslash_is_text() {
    assert_eq!(spans("a\\"), vec![plain("a\\")]);
}

#[test]
fn swiss_marks_have_no_spaces() {
    let s = normalize_quotes("\"mot\" 'x'", QuoteStyle::Swiss, QuoteOptions::default());
    assert_eq!(s, "\u{00AB}mot\u{00BB} \u{2039}x\u{203A}");
}

#[test]
fn english_singles() {
    let s = normalize_quotes("'a'", QuoteStyle::English, QuoteOptions::default());
    assert_eq!(s, "\u{2018}a\u{2019}");
}

#[test]
fn singles_close_behind_punctuation() {
    assert_eq!(de("'Ja.' sagte er"), "\u{201A}Ja.\u{2018} sagte er");
}

#[test]
fn text_without_marks_stays() {
    let mut norm = QuoteNormalizer::new(QuoteStyle::French, QuoteOptions::default());
    assert_eq!(norm.push("a b \u{00A0}c"), "a b \u{00A0}c");
    assert_eq!(norm.changes(), 0);
}

#[test]
fn one_style_whatever_came() {
    let s = de("\u{00AB}a\u{00BB} \u{201C}b\u{201D} \"c\"");
    assert_eq!(s, "\u{201E}a\u{201C} \u{201E}b\u{201C} \u{201E}c\u{201C}");
}
