//! Extraction and replacement of paragraphs.

use crisp_docx::{
    extract_paragraph_texts, extract_paragraphs, replace_paragraph_texts, replace_paragraphs,
    Package, ParagraphInfo, Run,
};
use std::io::{Cursor, Write};


fn make_doc(body: &str) -> Vec<u8> {
    let buf = Cursor::new(Vec::new());
    let mut zw = zip::ZipWriter::new(buf);
    let opts: zip::write::SimpleFileOptions = zip::write::SimpleFileOptions::default()
        .compression_method(zip::CompressionMethod::Deflated);
    zw.start_file("[Content_Types].xml", opts).unwrap();
    zw.write_all(br#"<?xml version="1.0" encoding="UTF-8" standalone="yes"?><Types xmlns="http://schemas.openxmlformats.org/package/2006/content-types"><Override PartName="/word/document.xml" ContentType="application/vnd.openxmlformats-officedocument.wordprocessingml.document.main+xml"/></Types>"#).unwrap();
    zw.start_file("word/document.xml", opts).unwrap();
    let doc = format!(
        r#"<?xml version="1.0" encoding="UTF-8" standalone="yes"?><w:document xmlns:w="http://schemas.openxmlformats.org/wordprocessingml/2006/main">{body}</w:document>"#
    );
    zw.write_all(doc.as_bytes()).unwrap();
    zw.finish().unwrap().into_inner()
}

#[test]
fn extracts_single_run_paragraph() {
    let body = r#"<w:body><w:p><w:r><w:t>Hello.</w:t></w:r></w:p></w:body>"#;
    let pkg = Package::from_bytes(&make_doc(body)).unwrap();
    let ps = extract_paragraphs(&pkg).unwrap();
    assert_eq!(ps.len(), 1);
    assert_eq!(ps[0].runs.len(), 1);
    assert_eq!(ps[0].runs[0].text, "Hello.");
    assert!(ps[0].runs[0].rpr_xml.is_none());
}

#[test]
fn extracts_run_with_rpr() {
    let body =
        r#"<w:body><w:p><w:r><w:rPr><w:b/></w:rPr><w:t>Bold.</w:t></w:r></w:p></w:body>"#;
    let pkg = Package::from_bytes(&make_doc(body)).unwrap();
    let ps = extract_paragraphs(&pkg).unwrap();
    assert_eq!(ps[0].runs[0].text, "Bold.");
    let rpr = ps[0].runs[0].rpr_xml.as_ref().unwrap();
    let s = std::str::from_utf8(rpr).unwrap();
    assert!(s.contains("w:b"), "rPr missing bold: {s}");
    assert!(s.starts_with("<w:rPr"), "rPr missing tags: {s}");
}

#[test]
fn extracts_mixed_runs_in_order() {
    let body = r#"<w:body><w:p>
      <w:r><w:t xml:space="preserve">Plain </w:t></w:r>
      <w:r><w:rPr><w:b/></w:rPr><w:t>bold</w:t></w:r>
      <w:r><w:t xml:space="preserve"> tail.</w:t></w:r>
    </w:p></w:body>"#;
    let pkg = Package::from_bytes(&make_doc(body)).unwrap();
    let ps = extract_paragraphs(&pkg).unwrap();
    assert_eq!(ps[0].runs.len(), 3);
    assert_eq!(ps[0].runs[0].text, "Plain ");
    assert_eq!(ps[0].runs[1].text, "bold");
    assert_eq!(ps[0].runs[2].text, " tail.");
    assert!(ps[0].runs[0].rpr_xml.is_none());
    assert!(ps[0].runs[1].rpr_xml.is_some());
    assert!(ps[0].runs[2].rpr_xml.is_none());
    assert_eq!(ps[0].full_text(), "Plain bold tail.");
}

#[test]
fn extracts_ppr_and_footnote_ref() {
    let body = r#"<w:body><w:p>
      <w:pPr><w:pStyle w:val="Heading1"/></w:pPr>
      <w:r><w:t>Cite</w:t><w:footnoteReference w:id="1"/></w:r>
    </w:p></w:body>"#;
    let pkg = Package::from_bytes(&make_doc(body)).unwrap();
    let ps = extract_paragraphs(&pkg).unwrap();
    let ppr = ps[0].ppr_xml.as_ref().unwrap();
    let s = std::str::from_utf8(ppr).unwrap();
    assert!(s.contains("Heading1"), "lost pStyle: {s}");
    assert_eq!(ps[0].runs[0].text, "Cite");
    assert_eq!(ps[0].runs[0].footnote_refs.len(), 1);
}

#[test]
fn round_trips_complex_paragraph() {
    let body = r#"<w:body><w:p>
      <w:pPr><w:pStyle w:val="Body"/></w:pPr>
      <w:r><w:t xml:space="preserve">Plain </w:t></w:r>
      <w:r><w:rPr><w:b/></w:rPr><w:t>bold</w:t></w:r>
      <w:r><w:t xml:space="preserve"> tail</w:t><w:footnoteReference w:id="3"/></w:r>
    </w:p></w:body>"#;
    let mut pkg = Package::from_bytes(&make_doc(body)).unwrap();
    let ps = extract_paragraphs(&pkg).unwrap();
    replace_paragraphs(&mut pkg, &ps).unwrap();
    let ps2 = extract_paragraphs(&pkg).unwrap();
    assert_eq!(ps.len(), ps2.len());
    assert_eq!(ps[0].full_text(), ps2[0].full_text());
    assert_eq!(ps[0].runs.len(), ps2[0].runs.len());
    assert_eq!(ps2[0].runs[1].text, "bold");
    assert!(ps2[0].runs[1].rpr_xml.is_some());
    // footnote ref survives
    assert_eq!(ps2[0].runs[2].footnote_refs.len(), 1);
}

#[test]
fn replace_swaps_runs() {
    let body = r#"<w:body><w:p><w:r><w:t>Hello.</w:t></w:r></w:p></w:body>"#;
    let mut pkg = Package::from_bytes(&make_doc(body)).unwrap();
    let mut info = ParagraphInfo::default();
    info.runs.push(Run {
        text: "Hallo".into(),
        rpr_xml: None,
        footnote_refs: vec![],
    });
    info.runs.push(Run {
        text: " Welt.".into(),
        rpr_xml: Some(b"<w:rPr><w:i/></w:rPr>".to_vec()),
        footnote_refs: vec![],
    });
    replace_paragraphs(&mut pkg, &[info]).unwrap();
    let ps2 = extract_paragraphs(&pkg).unwrap();
    assert_eq!(ps2[0].full_text(), "Hallo Welt.");
    assert_eq!(ps2[0].runs.len(), 2);
    assert!(ps2[0].runs[0].rpr_xml.is_none());
    assert!(ps2[0].runs[1].rpr_xml.is_some());
}

#[test]
fn multiple_paragraphs_round_trip() {
    let body = r#"<w:body>
      <w:p><w:r><w:t>One.</w:t></w:r></w:p>
      <w:p><w:r><w:rPr><w:b/></w:rPr><w:t>Two.</w:t></w:r></w:p>
      <w:p><w:r><w:t>Three.</w:t></w:r></w:p>
    </w:body>"#;
    let mut pkg = Package::from_bytes(&make_doc(body)).unwrap();
    let ps = extract_paragraphs(&pkg).unwrap();
    assert_eq!(ps.len(), 3);
    assert_eq!(ps[0].full_text(), "One.");
    assert_eq!(ps[1].full_text(), "Two.");
    assert_eq!(ps[2].full_text(), "Three.");
    assert!(ps[1].runs[0].rpr_xml.is_some());
    replace_paragraphs(&mut pkg, &ps).unwrap();
    let ps2 = extract_paragraphs(&pkg).unwrap();
    assert_eq!(ps2.len(), 3);
    for (a, b) in ps.iter().zip(ps2.iter()) {
        assert_eq!(a.full_text(), b.full_text());
        assert_eq!(a.runs.len(), b.runs.len());
    }
}

#[test]
fn replace_fewer_paragraphs_passes_through_extras() {
    let body = r#"<w:body>
      <w:p><w:r><w:t>One.</w:t></w:r></w:p>
      <w:p><w:r><w:t>Two.</w:t></w:r></w:p>
    </w:body>"#;
    let mut pkg = Package::from_bytes(&make_doc(body)).unwrap();
    let mut info = ParagraphInfo::default();
    info.runs.push(Run {
        text: "Eins.".into(),
        ..Default::default()
    });
    replace_paragraphs(&mut pkg, &[info]).unwrap();
    let ps = extract_paragraphs(&pkg).unwrap();
    assert_eq!(ps.len(), 2);
    assert_eq!(ps[0].full_text(), "Eins.");
    assert_eq!(ps[1].full_text(), "Two.");
}


#[test]
fn extracts_single_paragraph_text() {
    let body = r#"<w:body><w:p><w:r><w:t>Hello.</w:t></w:r></w:p></w:body>"#;
    let pkg = Package::from_bytes(&make_doc(body)).unwrap();
    let texts = extract_paragraph_texts(&pkg).unwrap();
    assert_eq!(texts, vec!["Hello.".to_string()]);
}

#[test]
fn extracts_multiple_paragraphs_in_order() {
    let body = r#"<w:body><w:p><w:r><w:t>First.</w:t></w:r></w:p><w:p><w:r><w:t>Second.</w:t></w:r></w:p></w:body>"#;
    let pkg = Package::from_bytes(&make_doc(body)).unwrap();
    let texts = extract_paragraph_texts(&pkg).unwrap();
    assert_eq!(texts, vec!["First.", "Second."]);
}

#[test]
fn concatenates_split_runs_into_single_text() {
    let body = r#"<w:body><w:p><w:r><w:t>Hello </w:t></w:r><w:r><w:t>world.</w:t></w:r></w:p></w:body>"#;
    let pkg = Package::from_bytes(&make_doc(body)).unwrap();
    let texts = extract_paragraph_texts(&pkg).unwrap();
    assert_eq!(texts, vec!["Hello world."]);
}

#[test]
fn tabs_and_breaks_become_special_chars() {
    let body = r#"<w:body><w:p><w:r><w:t>a</w:t><w:tab/><w:t>b</w:t><w:br/><w:t>c</w:t></w:r></w:p></w:body>"#;
    let pkg = Package::from_bytes(&make_doc(body)).unwrap();
    let texts = extract_paragraph_texts(&pkg).unwrap();
    assert_eq!(texts, vec!["a\tb\nc"]);
}

#[test]
fn replace_swaps_paragraph_text() {
    let body = r#"<w:body><w:p><w:r><w:t>Hello.</w:t></w:r></w:p><w:p><w:r><w:t>World.</w:t></w:r></w:p></w:body>"#;
    let mut pkg = Package::from_bytes(&make_doc(body)).unwrap();
    replace_paragraph_texts(&mut pkg, &["Hallo.".into(), "Welt.".into()]).unwrap();
    let texts = extract_paragraph_texts(&pkg).unwrap();
    assert_eq!(texts, vec!["Hallo.", "Welt."]);
}

#[test]
fn replace_preserves_paragraph_style_via_ppr() {
    let body = r#"<w:body><w:p><w:pPr><w:pStyle w:val="Heading1"/></w:pPr><w:r><w:t>Old.</w:t></w:r></w:p></w:body>"#;
    let mut pkg = Package::from_bytes(&make_doc(body)).unwrap();
    replace_paragraph_texts(&mut pkg, &["New.".into()]).unwrap();
    let xml = pkg
        .get_part("word/document.xml")
        .map(String::from_utf8_lossy)
        .unwrap()
        .into_owned();
    assert!(xml.contains("Heading1"), "lost pStyle: {xml}");
    assert!(xml.contains("New."), "lost new text: {xml}");
}

#[test]
fn replace_preserves_footnote_references() {
    let body = r#"<w:body><w:p><w:r><w:t>Cite</w:t><w:footnoteReference w:id="1"/></w:r></w:p></w:body>"#;
    let mut pkg = Package::from_bytes(&make_doc(body)).unwrap();
    replace_paragraph_texts(&mut pkg, &["Zitat".into()]).unwrap();
    let xml = pkg
        .get_part("word/document.xml")
        .map(String::from_utf8_lossy)
        .unwrap()
        .into_owned();
    assert!(xml.contains("Zitat"), "missing text: {xml}");
    assert!(
        xml.contains("w:footnoteReference") && xml.contains(r#"w:id="1""#),
        "lost footnote ref: {xml}"
    );
}

#[test]
fn a_paragraph_in_a_text_box_belongs_to_the_paragraph_around_it() {
    let body = r#"<w:body><w:p><w:r><w:t>outer</w:t><w:pict><w:p><w:pPr><w:pStyle w:val="Inner"/></w:pPr><w:r><w:t>inner</w:t></w:r></w:p></w:pict></w:r><w:r><w:t>end</w:t></w:r></w:p><w:p><w:r><w:t>next</w:t></w:r></w:p></w:body>"#;
    let mut pkg = Package::from_bytes(&make_doc(body)).unwrap();
    assert_eq!(extract_paragraph_texts(&pkg).unwrap(), ["outerinnerend", "next"]);
    let infos = extract_paragraphs(&pkg).unwrap();
    assert_eq!(infos.len(), 2);
    assert_eq!(infos[0].full_text(), "outerinnerend");
    assert_eq!(infos[0].runs.len(), 2);
    assert!(infos[0].ppr_xml.is_none());
    replace_paragraph_texts(&mut pkg, &["new".to_string()]).unwrap();
    assert_eq!(extract_paragraph_texts(&pkg).unwrap(), ["new", "next"]);
    let mut pkg = Package::from_bytes(&make_doc(body)).unwrap();
    replace_paragraphs(&mut pkg, &infos).unwrap();
    let again = extract_paragraphs(&pkg).unwrap();
    assert_eq!(again[0].full_text(), "outerinnerend");
    assert_eq!(again[1].full_text(), "next");
}

#[test]
fn properties_with_a_change_record_are_kept_whole() {
    let ppr = r#"<w:pPr><w:jc w:val="left"/><w:pPrChange w:id="1"><w:pPr><w:jc w:val="right"/></w:pPr></w:pPrChange></w:pPr>"#;
    let rpr = r#"<w:rPr><w:b/><w:rPrChange w:id="2"><w:rPr><w:i/></w:rPr></w:rPrChange></w:rPr>"#;
    let body = format!(
        r#"<w:body><w:p>{ppr}<w:r>{rpr}<w:t>x</w:t></w:r></w:p></w:body>"#
    );
    let mut pkg = Package::from_bytes(&make_doc(&body)).unwrap();
    let infos = extract_paragraphs(&pkg).unwrap();
    assert_eq!(infos[0].ppr_xml.as_deref(), Some(ppr.as_bytes()));
    assert_eq!(infos[0].runs[0].rpr_xml.as_deref(), Some(rpr.as_bytes()));
    replace_paragraph_texts(&mut pkg, &["y".to_string()]).unwrap();
    let doc = String::from_utf8(pkg.get_part("word/document.xml").unwrap().to_vec()).unwrap();
    assert!(doc.contains(ppr));
}

#[test]
fn references_follow_the_text_in_the_new_run() {
    let body = r#"<w:body><w:p><w:bookmarkStart w:id="0"/><w:r><w:t>a</w:t></w:r><w:r><w:footnoteReference w:id="7"/></w:r><w:bookmarkEnd w:id="0"/></w:p></w:body>"#;
    let mut pkg = Package::from_bytes(&make_doc(body)).unwrap();
    replace_paragraph_texts(&mut pkg, &["b".to_string()]).unwrap();
    let doc = String::from_utf8(pkg.get_part("word/document.xml").unwrap().to_vec()).unwrap();
    assert!(doc.contains(
        r#"<w:p><w:bookmarkStart w:id="0"/><w:r><w:t xml:space="preserve">b</w:t><w:footnoteReference w:id="7"/></w:r><w:bookmarkEnd w:id="0"/></w:p>"#
    ));
}
