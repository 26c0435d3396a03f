//! Rewriting of parts: runs, tracking attributes, bold text, notes and bodies.

use crisp_docx::clean_runs::{clean_events, keep_tags};
use crisp_docx::footnote_format::{apply_to_events, capture_from_events};
use crisp_docx::normalize_tags::replace_in_place;
use crisp_docx::note_injection::{find_first_marker, marker_len};
use crisp_docx::notes_kind::replace_all;
use crisp_docx::rels::{memchr_contains, next_rid};
use crisp_docx::rsid_strip::strip_rsids_in_events;
use crisp_docx::strip_paragraph_bold::strip_bold_in_events;
use crisp_docx::transplant::{extract_blueprint_frame, extract_source_body};
use crisp_docx::xml::{parse_events, XmlEvent};
use crisp_docx::{extract_footnote_format, Error, FootnoteFormat, Package};
use std::collections::BTreeMap;

fn events(input: &[u8]) -> Vec<XmlEvent> {
    parse_events(input, "word/document.xml").unwrap()
}

fn doc(body_inner: &str) -> Vec<u8> {
    format!(
        r#"<?xml version="1.0" encoding="UTF-8" standalone="yes"?><w:document xmlns:w="http://schemas.openxmlformats.org/wordprocessingml/2006/main"><w:body>{body_inner}</w:body></w:document>"#,
    )
    .into_bytes()
}

#[test]
fn strips_fonts_sizes_colors_lang_rstyle() {
    let input = doc(
        r#"<w:p><w:r><w:rPr><w:rFonts w:ascii="Arial"/><w:sz w:val="24"/><w:szCs w:val="24"/><w:color w:val="FF0000"/><w:lang w:val="en-US"/><w:rStyle w:val="MyStyle"/><w:b/><w:i/></w:rPr><w:t>text</w:t></w:r></w:p>"#,
    );
    let (out, n) = clean_events(&events(&input));
    // 6 non-semantic children removed (rFonts, sz, szCs, color, lang, rStyle).
    assert_eq!(n, 6);
    let s = std::str::from_utf8(&out).unwrap();
    // Semantic tags survive
    assert!(s.contains("<w:b/>"));
    assert!(s.contains("<w:i/>"));
    // Non-semantic tags gone
    for needle in [
        "w:rFonts", "w:sz ", "w:szCs", "w:color", "w:lang", "w:rStyle",
    ] {
        assert!(!s.contains(needle), "should be gone: {needle}");
    }
    // Text content preserved
    assert!(s.contains(">text<"));
}

#[test]
fn preserves_footnote_reference_run_verbatim() {
    let input = doc(
        r#"<w:p><w:r><w:rPr><w:rStyle w:val="FootnoteReference"/><w:rFonts w:ascii="Arial"/><w:sz w:val="20"/></w:rPr><w:footnoteReference w:id="1"/></w:r></w:p>"#,
    );
    let (out, n) = clean_events(&events(&input));
    assert_eq!(n, 0, "footnote-reference run should be left alone");
    let s = std::str::from_utf8(&out).unwrap();
    // EVERYTHING preserved on footnote ref run, including rFonts/sz.
    assert!(s.contains("w:rStyle"));
    assert!(s.contains("w:rFonts"));
    assert!(s.contains("w:sz "));
    assert!(s.contains("w:footnoteReference"));
}

#[test]
fn preserves_footnote_text_run_marker_verbatim() {
    // The first run of a <w:footnote>'s body holds <w:footnoteRef/> —
    // also preserved verbatim.
    let input = r#"<?xml version="1.0" encoding="UTF-8" standalone="yes"?><w:footnotes xmlns:w="http://schemas.openxmlformats.org/wordprocessingml/2006/main"><w:footnote w:id="1"><w:p><w:r><w:rPr><w:rStyle w:val="FootnoteReference"/><w:rFonts w:ascii="Times"/></w:rPr><w:footnoteRef/></w:r></w:p></w:footnote></w:footnotes>"#.to_string();
    let (out, n) = clean_events(&events(input.as_bytes()));
    assert_eq!(n, 0, "footnoteRef run should be left alone");
    let s = std::str::from_utf8(&out).unwrap();
    assert!(s.contains("w:rFonts"));
    assert!(s.contains("w:rStyle"));
}

#[test]
fn empty_rpr_is_left_alone() {
    let input = doc(r#"<w:p><w:r><w:rPr/><w:t>x</w:t></w:r></w:p>"#);
    let (_out, n) = clean_events(&events(&input));
    assert_eq!(n, 0);
}

#[test]
fn run_without_rpr_is_left_alone() {
    let input = doc(r#"<w:p><w:r><w:t>plain</w:t></w:r></w:p>"#);
    let (_out, n) = clean_events(&events(&input));
    assert_eq!(n, 0);
}

#[test]
fn keep_set_matches_python_format_transplant() {
    let expected = [
        "w:b",
        "w:bCs",
        "w:i",
        "w:iCs",
        "w:u",
        "w:strike",
        "w:dstrike",
        "w:vertAlign",
        "w:highlight",
        "w:smallCaps",
        "w:allCaps",
        "w:em",
        "w:vanish",
    ];
    assert_eq!(keep_tags(), expected);
}

const HEAD: &[u8] = br#"<?xml version="1.0" encoding="UTF-8" standalone="yes"?><w:document xmlns:w="http://schemas.openxmlformats.org/wordprocessingml/2006/main" xmlns:w14="http://schemas.microsoft.com/office/word/2010/wordml">"#;
const TAIL: &[u8] = b"</w:document>";

fn doc14(body_xml: &[u8]) -> Vec<u8> {
    let mut v = HEAD.to_vec();
    v.extend_from_slice(b"<w:body>");
    v.extend_from_slice(body_xml);
    v.extend_from_slice(b"</w:body>");
    v.extend_from_slice(TAIL);
    v
}

#[test]
fn strips_known_rsid_attrs() {
    let body = br#"<w:p w14:paraId="A1B2" w14:textId="C3D4" w:rsidR="00112233" w:rsidRDefault="44556677" w:rsidRPr="DEADBEEF"><w:r w:rsidR="11223344" w:rsidRPr="99887766"><w:t xml:space="preserve">hello</w:t></w:r></w:p>"#;
    let input = doc14(body);
    let (out, removed) = strip_rsids_in_events(&events(&input));
    assert_eq!(removed, 7);
    let s = std::str::from_utf8(&out).unwrap();
    for needle in ["paraId", "textId", "rsidR", "rsidRDefault", "rsidRPr"] {
        assert!(!s.contains(needle), "should be gone: {needle}");
    }
    assert!(s.contains("<w:t"));
    assert!(s.contains("hello"));
}

#[test]
fn noop_when_nothing_to_strip() {
    let body = br#"<w:p><w:r><w:t>plain</w:t></w:r></w:p>"#;
    let input = doc14(body);
    let (_out, removed) = strip_rsids_in_events(&events(&input));
    assert_eq!(removed, 0);
}

#[test]
fn strips_whole_paragraph_bold() {
    let input = doc(
        r#"<w:p><w:r><w:rPr><w:b/></w:rPr><w:t>part one </w:t></w:r><w:r><w:rPr><w:b/><w:bCs/></w:rPr><w:t>part two</w:t></w:r></w:p>"#,
    );
    let (out, n) = strip_bold_in_events(&events(&input));
    assert_eq!(n, 1);
    let s = std::str::from_utf8(&out).unwrap();
    assert!(!s.contains("<w:b/>"));
    assert!(!s.contains("<w:bCs/>"));
    assert!(s.contains("part one"));
    assert!(s.contains("part two"));
}

#[test]
fn leaves_partial_bold_alone() {
    // First run bold, second run plain — must NOT be unbolded.
    let input = doc(
        r#"<w:p><w:r><w:rPr><w:b/></w:rPr><w:t>emphasis</w:t></w:r><w:r><w:t> tail</w:t></w:r></w:p>"#,
    );
    let (out, n) = strip_bold_in_events(&events(&input));
    assert_eq!(n, 0);
    assert_eq!(&out, &input);
}

#[test]
fn ignores_empty_paragraphs() {
    let input = doc(r#"<w:p></w:p>"#);
    let (_out, n) = strip_bold_in_events(&events(&input));
    assert_eq!(n, 0);
}

#[test]
fn handles_explicit_bold_off() {
    let input = doc(
        r#"<w:p><w:r><w:rPr><w:b w:val="0"/></w:rPr><w:t>not actually bold</w:t></w:r></w:p>"#,
    );
    let (_out, n) = strip_bold_in_events(&events(&input));
    assert_eq!(n, 0);
}

#[test]
fn multiple_paragraphs_handled_independently() {
    let input = doc(&[
        r#"<w:p><w:r><w:rPr><w:b/></w:rPr><w:t>all bold</w:t></w:r></w:p>"#,
        r#"<w:p><w:r><w:t>plain</w:t></w:r></w:p>"#,
        r#"<w:p><w:r><w:rPr><w:b/></w:rPr><w:t>also all bold</w:t></w:r></w:p>"#,
    ]
    .concat());
    let (out, n) = strip_bold_in_events(&events(&input));
    assert_eq!(n, 2);
    let s = std::str::from_utf8(&out).unwrap();
    assert!(!s.contains("<w:b/>"));
    assert!(s.contains("plain"));
}

const SAMPLE: &[u8] = br#"<?xml version="1.0" encoding="UTF-8" standalone="yes"?><w:footnotes xmlns:w="http://schemas.openxmlformats.org/wordprocessingml/2006/main"><w:footnote w:id="-1" w:type="separator"><w:p><w:r><w:separator/></w:r></w:p></w:footnote><w:footnote w:id="0" w:type="continuationSeparator"><w:p><w:r><w:continuationSeparator/></w:r></w:p></w:footnote><w:footnote w:id="1"><w:p><w:r><w:rPr><w:rStyle w:val="FootnoteReference"/><w:vertAlign w:val="superscript"/></w:rPr><w:footnoteRef/></w:r><w:r><w:tab/></w:r><w:r><w:t xml:space="preserve">Body text.</w:t></w:r></w:p></w:footnote></w:footnotes>"#;

#[test]
fn extracts_rpr_and_tab_separator() {
    let fmt = capture_from_events(&events(SAMPLE)).0;
    let rpr = fmt.marker_rpr_xml.as_ref().expect("rPr captured");
    let s = std::str::from_utf8(rpr).unwrap();
    assert!(s.starts_with("<w:rPr"), "got {s}");
    assert!(s.contains("FootnoteReference"));
    assert!(s.contains("vertAlign"));
    assert_eq!(fmt.separator, Some("\t".to_string()));
}

#[test]
fn empty_pkg_returns_default() {
    let pkg = Package::new();
    let fmt = extract_footnote_format(&pkg).unwrap();
    assert!(fmt.marker_rpr_xml.is_none());
    assert!(fmt.separator.is_none());
}

#[test]
fn skips_id_zero_and_negative() {
    // The separators (id=-1, id=0) come first: the properties must not come
    // from one of them.
    let fmt = capture_from_events(&events(SAMPLE)).0;
    let s = std::str::from_utf8(fmt.marker_rpr_xml.as_ref().unwrap()).unwrap();
    assert!(s.contains("FootnoteReference"));
}

#[test]
fn apply_replaces_marker_rpr() {
    // Build a footnotes part whose marker run has a different rPr,
    // then apply the SAMPLE format and check the rPr was replaced.
    let target_bytes = br#"<?xml version="1.0" encoding="UTF-8" standalone="yes"?><w:footnotes xmlns:w="http://schemas.openxmlformats.org/wordprocessingml/2006/main"><w:footnote w:id="1"><w:p><w:r><w:rPr><w:rFonts w:ascii="WrongFont"/></w:rPr><w:footnoteRef/></w:r><w:r><w:t xml:space="preserve">  </w:t></w:r></w:p></w:footnote></w:footnotes>"#;
    let fmt = capture_from_events(&events(SAMPLE)).0;
    let (out, touched) = apply_to_events(&events(target_bytes), &fmt);
    assert_eq!(touched, 1);
    let s = std::str::from_utf8(&out).unwrap();
    // Marker rPr now has FootnoteReference + vertAlign, not WrongFont.
    assert!(s.contains("FootnoteReference"));
    assert!(s.contains("vertAlign"));
    assert!(!s.contains("WrongFont"));
}

#[test]
fn replace_in_place_basic() {
    let mut v = b"<w:sz-cs val=\"24\"/>".to_vec();
    let n = replace_in_place(&mut v, b"w:sz-cs", b"w:szCs");
    assert_eq!(n, 1);
    assert_eq!(&v, b"<w:szCs val=\"24\"/>");
}

#[test]
fn replace_in_place_multiple() {
    let mut v = b"<w:sz-cs/><w:sz-cs/>".to_vec();
    let n = replace_in_place(&mut v, b"w:sz-cs", b"w:szCs");
    assert_eq!(n, 2);
    assert_eq!(&v, b"<w:szCs/><w:szCs/>");
}

#[test]
fn replace_in_place_no_match() {
    let mut v = b"<w:szCs/>".to_vec();
    let n = replace_in_place(&mut v, b"w:sz-cs", b"w:szCs");
    assert_eq!(n, 0);
    assert_eq!(&v, b"<w:szCs/>");
}

#[test]
fn replace_all_same_length() {
    let mut v = b"hello world hello".to_vec();
    replace_all(&mut v, b"hello", b"HELLO");
    assert_eq!(&v, b"HELLO world HELLO");
}

#[test]
fn replace_all_growing() {
    let mut v = b"ab".to_vec();
    replace_all(&mut v, b"a", b"AAA");
    assert_eq!(&v, b"AAAb");
}

#[test]
fn replace_all_shrinking() {
    let mut v = b"AAAbAAA".to_vec();
    replace_all(&mut v, b"AAA", b"a");
    assert_eq!(&v, b"aba");
}

#[test]
fn find_first_marker_basic() {
    let mut notes: BTreeMap<u32, &str> = BTreeMap::new();
    notes.insert(1, "first");
    notes.insert(42, "answer");
    let t = b"intro.[1] body.[42] end.";
    let (idx, n) = find_first_marker(t, &notes).unwrap();
    assert_eq!(n, 1);
    assert_eq!(&t[idx..idx + 3], b"[1]");
}

#[test]
fn find_first_marker_skips_unknown_and_non_digits() {
    let mut notes: BTreeMap<u32, &str> = BTreeMap::new();
    notes.insert(7, "seven");
    let t = b"[1] [Liedhegener] [S2] [7] end";
    let (idx, n) = find_first_marker(t, &notes).unwrap();
    assert_eq!(n, 7);
    assert_eq!(&t[idx..idx + 3], b"[7]");
}

#[test]
fn marker_len_works() {
    assert_eq!(marker_len(1), 3);
    assert_eq!(marker_len(9), 3);
    assert_eq!(marker_len(10), 4);
    assert_eq!(marker_len(42), 4);
    assert_eq!(marker_len(123), 5);
}

const BP: &[u8] = br#"<?xml version="1.0" encoding="UTF-8" standalone="yes"?><w:document xmlns:w="http://schemas.openxmlformats.org/wordprocessingml/2006/main"><w:body><w:p><w:r><w:t>blueprint para 1</w:t></w:r></w:p><w:p><w:r><w:t>blueprint para 2</w:t></w:r></w:p><w:sectPr><w:pgSz w:w="12240" w:h="15840"/><w:pgMar w:top="1440" w:right="1440" w:bottom="1440" w:left="1440"/></w:sectPr></w:body></w:document>"#;

const SRC: &[u8] = br#"<?xml version="1.0" encoding="UTF-8" standalone="yes"?><w:document xmlns:w="http://schemas.openxmlformats.org/wordprocessingml/2006/main"><w:body><w:p><w:r><w:t>source paragraph A</w:t></w:r></w:p><w:p><w:r><w:t>source paragraph B</w:t></w:r></w:p><w:sectPr><w:pgSz w:w="8000" w:h="10000"/></w:sectPr></w:body></w:document>"#;

#[test]
fn extract_blueprint_frame_finds_sectpr() {
    let f = extract_blueprint_frame(BP).unwrap();
    assert!(f.before_and_body_open.ends_with(b"<w:body>"));
    assert!(f.from_body_close.starts_with(b"</w:body>"));
    let sect = f.trailing_sectpr.expect("blueprint has sectPr");
    assert!(sect.starts_with(b"<w:sectPr"));
    assert!(memchr_contains(sect, b"w=\"12240\""));
}

#[test]
fn extract_source_body_strips_sectpr() {
    let s = extract_source_body(SRC).unwrap();
    let txt = std::str::from_utf8(s.inner_no_sectpr).unwrap();
    assert!(txt.contains("source paragraph A"));
    assert!(txt.contains("source paragraph B"));
    assert!(!txt.contains("w:sectPr"));
}

#[test]
fn missing_body_returns_none() {
    let no_body = br#"<w:document xmlns:w="...">no body here</w:document>"#;
    assert!(extract_blueprint_frame(no_body).is_none());
    assert!(extract_source_body(no_body).is_none());
}

#[test]
fn next_rid_picks_next_available() {
    assert_eq!(
        next_rid(r#"<Rels><Relationship Id="rId1"/><Relationship Id="rId3"/></Rels>"#),
        4
    );
    assert_eq!(next_rid("<Rels></Rels>"), 1);
}

#[test]
fn bad_xml_is_an_error() {
    match parse_events(b"<a></b>", "word/x.xml") {
        Err(Error::XmlParse { part, .. }) => assert_eq!(part, "word/x.xml"),
        _ => panic!("expected an error"),
    }
}

#[test]
fn no_format_without_numbered_footnotes() {
    let (f, _): (FootnoteFormat, bool) = capture_from_events(&events(b"<w:footnotes/>"));
    assert!(f.marker_rpr_xml.is_none());
    assert!(f.separator.is_none());
}

#[test]
fn bold_in_a_text_box_counts_for_the_paragraph_around_it() {
    let body = r#"<w:p><w:r><w:rPr><w:b/></w:rPr><w:pict><w:p><w:r><w:t>plain</w:t></w:r></w:p></w:pict></w:r></w:p>"#;
    let (out, n) = strip_bold_in_events(&events(&doc(body)));
    assert_eq!(n, 0);
    assert_eq!(out, doc(body));
    let body = r#"<w:p><w:r><w:rPr><w:b/></w:rPr><w:t>a</w:t><w:pict><w:p><w:r><w:rPr><w:b/></w:rPr><w:t>b</w:t></w:r></w:p></w:pict></w:r></w:p>"#;
    let (out, n) = strip_bold_in_events(&events(&doc(body)));
    assert_eq!(n, 1);
    let text = String::from_utf8(out).unwrap();
    assert!(!text.contains("<w:b/>"));
    assert!(text.contains("<w:t>a</w:t>") && text.contains("<w:t>b</w:t>"));
}

#[test]
fn markers_that_are_switched_off_stay_whole() {
    let body = r#"<w:p><w:r><w:rPr><w:b/><w:b w:val="0"></w:b></w:rPr><w:t>a</w:t></w:r></w:p>"#;
    let (out, n) = strip_bold_in_events(&events(&doc(body)));
    assert_eq!(n, 1);
    assert!(String::from_utf8(out).unwrap().contains(r#"<w:rPr><w:b w:val="0"></w:b></w:rPr>"#));
}
