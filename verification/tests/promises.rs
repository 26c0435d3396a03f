//! What the documentation of the operations promises, on small inputs.

use crisp_docx::align::format_transfer::{transfer_format_via_words, SourceRun};
use crisp_docx::footnote_format::capture_from_events;
use crisp_docx::heading_inference::scan_events;
use crisp_docx::llm::lang::map_lang_to_code;
use crisp_docx::names::NameMap;
use crisp_docx::notes_file::numbered_notes;
use crisp_docx::xml::parse_events;
use crisp_docx::{
    apply_footnote_format, apply_style_mapping, classify_style, clean_runs, convert_notes_kind,
    extract_footnote_format, extract_paragraph_texts, extract_paragraphs, inject_footnotes,
    normalize_quotes_in_package,
    normalize_tags, read_notes, replace_paragraph_texts, replace_paragraphs, strip_paragraph_bold, strip_rsids,
    FootnoteFormat, NotesError, NotesKind, Package, ParagraphInfo, QuoteOptions, QuoteStyle, SemanticClass,
    StyleIndex, StyleInfo, StyleMapper,
};

use std::collections::BTreeMap;

const DOC: &str = "word/document.xml";

fn with_doc(doc: &str) -> Package {
    let mut pkg = Package::new();
    pkg.set_part(DOC, doc.as_bytes().to_vec());
    pkg
}

fn doc_of(pkg: &Package) -> String {
    String::from_utf8(pkg.get_part(DOC).unwrap().to_vec()).unwrap()
}

#[test]
fn translation_is_kept_without_edges_or_default() {
    let src = vec![SourceRun { text: "bold".into(), format_id: "bold" }];
    let out = transfer_format_via_words(&src, "Worte hier", &vec![], None);
    let text: String = out.iter().map(|r| r.text.as_str()).collect();
    assert_eq!(text, "Worte hier");
    assert!(out.iter().all(|r| r.format_id == "bold"));
}

#[test]
fn bookmark_starts_come_before_the_properties() {
    let mut pkg = with_doc("<w:body><w:p></w:p></w:body>");
    let p = ParagraphInfo {
        ppr_xml: Some(b"<w:pPr/>".to_vec()),
        leading_bookmark_starts: vec![b"<w:bookmarkStart w:id='1'/>".to_vec()],
        runs: Vec::new(),
        trailing_bookmark_ends: Vec::new(),
    };
    replace_paragraphs(&mut pkg, &[p]).unwrap();
    assert_eq!(
        doc_of(&pkg),
        "<w:body><w:p><w:bookmarkStart w:id='1'/><w:pPr/></w:p></w:body>"
    );
}

#[test]
fn self_closing_paragraphs_are_paragraphs() {
    let body = "<w:body><w:p/><w:p><w:r><w:t>B</w:t></w:r></w:p></w:body>";
    let mut pkg = with_doc(body);
    assert_eq!(extract_paragraph_texts(&pkg).unwrap(), vec!["".to_string(), "B".to_string()]);
    assert_eq!(extract_paragraphs(&pkg).unwrap().len(), 2);
    replace_paragraph_texts(&mut pkg, &["A".to_string()]).unwrap();
    assert_eq!(
        extract_paragraph_texts(&pkg).unwrap(),
        vec!["A".to_string(), "B".to_string()]
    );
}

#[test]
fn styled_paragraphs_count_where_the_style_is_body_text() {
    let scans = |style: &str| {
        let doc = format!(
            "<w:document><w:body><w:p><w:pPr><w:pStyle w:val=\"{style}\"/></w:pPr><w:r><w:rPr><w:b/></w:rPr><w:t>x</w:t></w:r></w:p></w:body></w:document>"
        );
        scan_events(&parse_events(doc.as_bytes(), DOC).unwrap())
    };
    let none = vec![None];
    let caption = crisp_docx::heading_inference::infer_headings(&scans("Caption"), &none, None);
    assert_eq!(caption.len(), 0);
    let body = crisp_docx::heading_inference::infer_headings(&scans("BodyText"), &none, None);
    assert_eq!(body.len(), 1);
}

#[test]
fn paragraphs_in_tables_are_not_counted() {
    let doc = "<w:document><w:body><w:tbl><w:tr><w:tc><w:p><w:r><w:t>cell</w:t></w:r></w:p></w:tc></w:tr></w:tbl><w:p/><w:p><w:r><w:t>text</w:t></w:r></w:p></w:body></w:document>";
    let scans = scan_events(&parse_events(doc.as_bytes(), DOC).unwrap());
    assert_eq!(scans.len(), 2);
}

fn index(styles: &[&str]) -> StyleIndex {
    let mut idx = StyleIndex::default();
    for name in styles {
        idx.styles.insert(
            name.to_string(),
            StyleInfo {
                name: name.to_string(),
                style_id: name.to_string(),
                type_val: 1,
                outline_level: None,
            },
        );
        idx.id_to_name.insert(name.to_string(), name.to_string());
        idx.name_to_id.insert(name.to_string(), name.to_string());
    }
    idx
}

#[test]
fn normal_is_the_last_resort() {
    let mapper = StyleMapper::new(&index(&["Body Text", "Normal"]), NameMap::new());
    assert_eq!(mapper.map("Whatever", &SemanticClass::Unknown, 0), "Normal");
}

#[test]
fn a_style_without_an_id_in_the_blueprint_stays() {
    let mut pkg = with_doc(
        "<w:p><w:pPr><w:pStyle w:val=\"Src\"/></w:pPr></w:p>",
    );
    let mut blueprint = index(&["Normal"]);
    blueprint.name_to_id = NameMap::new();
    let mapper = StyleMapper::new(&blueprint, NameMap::new());
    apply_style_mapping(&mut pkg, &mapper, &index(&["Src"]), &blueprint).unwrap();
    assert!(doc_of(&pkg).contains("w:val=\"Src\""));
}

#[test]
fn apostrophes_alone_are_rendered() {
    let mut pkg = with_doc("<w:p><w:r><w:t>don't</w:t></w:r></w:p>");
    let report =
        normalize_quotes_in_package(&mut pkg, QuoteStyle::German, QuoteOptions::default()).unwrap();
    assert_eq!(report.changed, 0);
    assert!(doc_of(&pkg).contains("don\u{2019}t"));
}

#[test]
fn complex_script_bold_alone_is_no_bold() {
    let doc = "<w:p><w:r><w:rPr><w:bCs/></w:rPr><w:t>x</w:t></w:r></w:p>";
    let mut pkg = with_doc(doc);
    assert_eq!(strip_paragraph_bold(&mut pkg).unwrap(), 0);
    assert_eq!(doc_of(&pkg), doc);
}

#[test]
fn the_text_of_a_note_is_no_separator() {
    let notes = b"<w:footnotes><w:footnote w:id=\"1\"><w:p><w:r><w:rPr><w:b/></w:rPr><w:footnoteRef/></w:r><w:r><w:t>Text.</w:t></w:r></w:p></w:footnote></w:footnotes>";
    let fmt = capture_from_events(&parse_events(notes, "word/footnotes.xml").unwrap()).0;
    assert_eq!(fmt.separator, Some(String::new()));
}

#[test]
fn unknown_languages_come_back_verbatim() {
    assert_eq!(map_lang_to_code(" Klingon "), " Klingon ");
}

#[test]
fn properties_without_contents_are_kept() {
    let mut pkg = with_doc("<w:p><w:pPr/><w:r><w:t>a</w:t></w:r></w:p>");
    replace_paragraph_texts(&mut pkg, &["b".to_string()]).unwrap();
    assert!(doc_of(&pkg).starts_with("<w:p><w:pPr/>"));
}

#[test]
fn tab_stops_are_no_text() {
    let pkg = with_doc(
        "<w:p><w:pPr><w:tabs><w:tab/></w:tabs></w:pPr><w:r><w:t>a</w:t></w:r></w:p>",
    );
    assert_eq!(extract_paragraph_texts(&pkg).unwrap(), vec!["a".to_string()]);
}

#[test]
fn run_texts_make_the_paragraph_text() {
    let pkg = with_doc(
        "<w:body><w:p><w:r><w:t>a</w:t><w:tab/></w:r><w:r><w:t>b</w:t></w:r></w:p><w:p/></w:body>",
    );
    let texts = extract_paragraph_texts(&pkg).unwrap();
    let joined: Vec<String> = extract_paragraphs(&pkg)
        .unwrap()
        .iter()
        .map(|p| p.runs.iter().map(|r| r.text.as_str()).collect())
        .collect();
    assert_eq!(texts, joined);
    assert_eq!(texts[0], "a\tb");
}

#[test]
fn replacing_texts_keeps_what_else_a_paragraph_holds() {
    let mut pkg = with_doc(
        "<w:p><w:pPr><w:jc w:val=\"center\"/></w:pPr><w:bookmarkStart w:id=\"1\"/><w:r><w:t>a</w:t></w:r><w:r><w:footnoteReference w:id=\"2\"/></w:r><w:bookmarkEnd w:id=\"1\"/></w:p>",
    );
    replace_paragraph_texts(&mut pkg, &["b".to_string()]).unwrap();
    let doc = doc_of(&pkg);
    assert!(doc.contains("<w:pPr><w:jc w:val=\"center\"/></w:pPr>"));
    assert!(doc.contains("<w:bookmarkStart w:id=\"1\"/>"));
    assert!(doc.contains("<w:footnoteReference w:id=\"2\"/>"));
    assert!(doc.contains("<w:bookmarkEnd w:id=\"1\"/>"));
}

#[test]
fn case_and_white_space_do_not_matter_for_a_class() {
    let class = classify_style(" Heading 2 ").heading_level;
    assert_eq!(class, 2);
    assert_eq!(classify_style(" heading 2 ").heading_level, class);
    assert_eq!(classify_style("Heading 2").heading_level, class);
}

#[test]
fn cleaning_and_stripping_again_find_nothing() {
    let doc = "<w:p w:rsidR=\"1\" w:note='say \"x\"'>\n<w:r>\n<w:rPr>\n<w:b/>\n<w:color w:val=\"1\"/>\n</w:rPr>\n<w:t>x</w:t></w:r></w:p>";
    let mut pkg = with_doc(doc);
    assert_eq!(clean_runs(&mut pkg).unwrap(), 1);
    assert_eq!(clean_runs(&mut pkg).unwrap(), 0);
    assert_eq!(strip_paragraph_bold(&mut pkg).unwrap(), 1);
    assert_eq!(strip_paragraph_bold(&mut pkg).unwrap(), 0);
}

#[test]
fn no_tracking_attribute_is_left() {
    let mut pkg = with_doc("<w:p w:rsidR=\"1\" w:a=\"2\"><w:r w:b='say \"x\"'/></w:p>");
    assert_eq!(strip_rsids(&mut pkg).unwrap(), 1);
    assert_eq!(doc_of(&pkg), "<w:p w:a=\"2\"><w:r w:b='say \"x\"'/></w:p>");
    assert_eq!(strip_rsids(&mut pkg).unwrap(), 0);
}

#[test]
fn every_old_tag_is_counted_once() {
    let mut pkg = with_doc("<w:sz-cs/><w:b-cs/><w:b-cs/><w:i-cs/>");
    assert_eq!(normalize_tags(&mut pkg).unwrap(), 4);
    assert_eq!(doc_of(&pkg), "<w:szCs/><w:bCs/><w:bCs/><w:iCs/>");
}

#[test]
fn notes_converted_and_back_leave_the_whole_package() {
    let mut pkg = with_doc("<w:p><w:r><w:footnoteReference w:id=\"1\"/></w:r></w:p>");
    pkg.set_part("word/footnotes.xml", b"<w:footnotes><w:footnote w:id=\"1\"/></w:footnotes>".to_vec());
    pkg.set_part(
        "word/_rels/document.xml.rels",
        b"<Relationship Type=\"http://schemas.openxmlformats.org/officeDocument/2006/relationships/footnotes\" Target=\"footnotes.xml\"/>".to_vec(),
    );
    pkg.set_part(
        "[Content_Types].xml",
        b"<Override PartName=\"/word/footnotes.xml\" ContentType=\"application/vnd.openxmlformats-officedocument.wordprocessingml.footnotes+xml\"/>".to_vec(),
    );
    let names = |p: &Package| -> Vec<(String, Vec<u8>)> {
        p.parts().iter().map(|(n, d)| (n.to_string(), d.to_vec())).collect()
    };
    let before = names(&pkg);
    convert_notes_kind(&mut pkg, NotesKind::Endnotes).unwrap();
    let rels = String::from_utf8(
        pkg.get_part("word/_rels/document.xml.rels").unwrap().to_vec(),
    )
    .unwrap();
    assert!(rels.contains("relationships/endnotes\" Target=\"endnotes.xml\""));
    convert_notes_kind(&mut pkg, NotesKind::Footnotes).unwrap();
    assert_eq!(names(&pkg), before);
}

#[test]
fn an_applied_format_is_found_again() {
    let mut pkg = Package::new();
    pkg.set_part(
        "word/footnotes.xml",
        b"<w:footnotes><w:footnote w:id=\"1\"><w:p><w:r><w:footnoteRef/></w:r><w:r><w:t>Text.</w:t></w:r></w:p></w:footnote></w:footnotes>".to_vec(),
    );
    let fmt = FootnoteFormat {
        marker_rpr_xml: Some(b"<w:rPr><w:b/></w:rPr>".to_vec()),
        separator: Some("\t".to_string()),
    };
    assert_eq!(apply_footnote_format(&mut pkg, &fmt).unwrap(), 1);
    let found = extract_footnote_format(&pkg).unwrap();
    assert_eq!(found.marker_rpr_xml, fmt.marker_rpr_xml);
    assert_eq!(found.separator, fmt.separator);
}

#[test]
fn texts_lose_only_their_markers() {
    let mut pkg = with_doc(
        "<w:body><w:p><w:r><w:t>a[1]b[2] c[9]</w:t></w:r></w:p><w:p><w:r><w:t>d</w:t></w:r></w:p></w:body>",
    );
    let mut notes: BTreeMap<u32, &str> = BTreeMap::new();
    notes.insert(1, "One.");
    notes.insert(2, "Two.");
    assert_eq!(inject_footnotes(&mut pkg, &notes).unwrap().inserted, 2);
    assert_eq!(
        extract_paragraph_texts(&pkg).unwrap(),
        vec!["ab c[9]".to_string(), "d".to_string()]
    );
    assert!(doc_of(&pkg).contains("<w:footnoteReference w:id=\"1\"/>"));
}

#[test]
fn a_format_is_found_again_after_endnotes_and_changed_properties() {
    let own = "<w:footnotes><w:footnote w:id=\"0\"><w:p><w:r><w:footnoteRef/></w:r></w:p></w:footnote><w:endnote w:id=\"1\"><w:p><w:r><w:footnoteRef/></w:r><w:r><w:t>E.</w:t></w:r></w:p></w:endnote>";
    let mut pkg = with_doc("<w:p/>");
    pkg.set_part(
        "word/footnotes.xml",
        format!("{own}<w:footnote w:id=\"1\"><w:p><w:r><w:rPr><w:i/><w:rPrChange><w:rPr><w:b/></w:rPr></w:rPrChange></w:rPr><w:footnoteRef/></w:r><w:r><w:t> Text.</w:t></w:r></w:p></w:footnote></w:footnotes>").into_bytes(),
    );
    let fmt = FootnoteFormat {
        marker_rpr_xml: Some(b"<w:rPr><w:b/><w:rPrChange><w:rPr/></w:rPrChange></w:rPr>".to_vec()),
        separator: Some("\t".to_string()),
    };
    assert_eq!(apply_footnote_format(&mut pkg, &fmt).unwrap(), 2);
    let found = extract_footnote_format(&pkg).unwrap();
    assert_eq!(found.marker_rpr_xml, fmt.marker_rpr_xml);
    assert_eq!(found.separator, fmt.separator);
    let notes = String::from_utf8(pkg.get_part("word/footnotes.xml").unwrap().to_vec()).unwrap();
    assert!(notes.starts_with(
        "<w:footnotes><w:footnote w:id=\"0\"><w:p><w:r><w:footnoteRef/></w:r></w:p></w:footnote>"
    ));
    assert_eq!(doc_of(&pkg), "<w:p/>");
}

#[test]
fn notes_are_read_by_number() {
    let notes = read_notes(r#"{"2": "Two.", "1": "One.", "+7": "Seven."}"#).unwrap();
    let all: Vec<(u32, &str)> = notes.iter().map(|(n, t)| (*n, t.as_str())).collect();
    assert_eq!(all, vec![(1, "One."), (2, "Two."), (7, "Seven.")]);
    assert!(read_notes("{}").unwrap().is_empty());
}

#[test]
fn of_keys_for_one_number_the_last_in_order_counts() {
    let notes = read_notes(r#"{"1": "a", "01": "b"}"#).unwrap();
    assert_eq!(notes.get(&1).map(|t| t.as_str()), Some("a"));
    let notes = read_notes(r#"{"1": "a", "1": "b"}"#).unwrap();
    assert_eq!(notes.get(&1).map(|t| t.as_str()), Some("b"));
}

#[test]
fn a_file_of_notes_can_be_wrong() {
    match read_notes(r#"{"1": "a", "x": "b", "-1": "c"}"#) {
        Err(NotesError::Key(key)) => assert_eq!(key, "-1"),
        other => panic!("unexpected: {other:?}"),
    }
    assert!(matches!(read_notes(r#"{"4294967296": "a"}"#), Err(NotesError::Key(_))));
    assert!(matches!(read_notes(r#"{"1": 2}"#), Err(NotesError::Json(_))));
    assert!(matches!(read_notes(r#"["a"]"#), Err(NotesError::Json(_))));
    assert!(matches!(read_notes("{"), Err(NotesError::Json(_))));
}

#[test]
fn pairs_are_numbered_in_order() {
    let pair = |k: &str, t: &str| (k.to_string(), t.to_string());
    let notes = numbered_notes(&vec![pair("01", "a"), pair("1", "b")]).unwrap();
    assert_eq!(notes.len(), 1);
    assert_eq!(notes.get(&1).map(|t| t.as_str()), Some("b"));
    assert_eq!(numbered_notes(&vec![pair("1", "a"), pair("", "b")]).unwrap_err(), "");
}

#[test]
fn levels_belong_to_headings() {
    for name in ["Heading 1", "heading 9", "Heading 10", "Heading 0", "Titre 3", "Body Text", ""] {
        let c = classify_style(name);
        assert!(c.heading_level <= 9);
        match c.class {
            SemanticClass::Heading(n) => assert_eq!(n, c.heading_level),
            _ => assert_eq!(c.heading_level, 0),
        }
    }
    assert_eq!(classify_style("heading 9").heading_level, 9);
}

#[test]
fn properties_inside_a_run_hide_no_text() {
    let pkg = with_doc(
        "<w:p><w:r><w:pPr><w:t>a</w:t></w:pPr><w:t>b</w:t></w:r></w:p>",
    );
    let texts = extract_paragraph_texts(&pkg).unwrap();
    let joined: String =
        extract_paragraphs(&pkg).unwrap()[0].runs.iter().map(|r| r.text.as_str()).collect();
    assert_eq!(texts, vec![joined]);
}

#[test]
fn every_marker_with_a_note_is_counted() {
    let mut pkg = with_doc(
        "<w:body><w:p><w:r><w:t>a[1][1]</w:t></w:r><w:r><w:t>b[2]</w:t></w:r></w:p></w:body>",
    );
    let mut notes: BTreeMap<u32, &str> = BTreeMap::new();
    notes.insert(1, "One.");
    notes.insert(2, "Two.");
    notes.insert(3, "Three.");
    let report = inject_footnotes(&mut pkg, &notes).unwrap();
    assert_eq!(report.inserted, 3);
    assert_eq!(report.unused_ids, vec![3]);
    assert_eq!(extract_paragraph_texts(&pkg).unwrap(), vec!["ab".to_string()]);
}
