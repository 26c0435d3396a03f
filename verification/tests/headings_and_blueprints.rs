//! Inference of headings, and what a blueprint prescribes.

use crisp_docx::blueprint::{analyze_blueprint, parse_defaults, parse_sections};
use crisp_docx::heading_inference::{
    infer_headings, infer_levels, scan_events, HeadingInference, ParagraphScan,
};
use crisp_docx::xml::parse_events;
use crisp_docx::Package;
use std::io::{Cursor, Write};

/// A paragraph's size in millionths of a point.
fn size_of(scan: &ParagraphScan) -> Option<i64> {
    let runs: Vec<f64> = scan.run_sizes.iter().filter_map(|s| s.parse::<f64>().ok()).collect();
    let half = if runs.is_empty() {
        scan.ppr_size.as_ref()?.parse::<f64>().ok()?
    } else {
        runs.iter().sum::<f64>() / runs.len() as f64
    };
    Some((half / 2.0 * 1e6).round() as i64)
}

fn infer(doc: &[u8]) -> Vec<HeadingInference> {
    let scans = scan_events(&parse_events(doc, "word/document.xml").unwrap());
    let sizes: Vec<Option<i64>> = scans.iter().map(size_of).collect();
    infer_headings(&scans, &sizes, None)
}

/// Twips in points.
fn points(twips: &Option<String>) -> Option<f64> {
    twips.as_ref()?.parse::<f64>().ok().map(|n| (n / 20.0 * 100.0).round() / 100.0)
}

/// The first size that is a number, in points.
fn half_points(sizes: &[String]) -> Option<f64> {
    sizes.iter().find_map(|s| s.parse::<f64>().ok()).map(|n| n / 2.0)
}

fn pkg_with(parts: &[(&str, &[u8])]) -> Package {
    let buf = Cursor::new(Vec::new());
    let mut zw = zip::ZipWriter::new(buf);
    let opts: zip::write::SimpleFileOptions = zip::write::SimpleFileOptions::default()
        .compression_method(zip::CompressionMethod::Deflated);
    zw.start_file("[Content_Types].xml", opts).unwrap();
    zw.write_all(br#"<?xml version="1.0" encoding="UTF-8" standalone="yes"?><Types xmlns="http://schemas.openxmlformats.org/package/2006/content-types"><Override PartName="/word/document.xml" ContentType="application/vnd.openxmlformats-officedocument.wordprocessingml.document.main+xml"/></Types>"#)
        .unwrap();
    for (name, bytes) in parts {
        zw.start_file(*name, opts).unwrap();
        zw.write_all(bytes).unwrap();
    }
    let bytes = zw.finish().unwrap().into_inner();
    Package::from_bytes(&bytes).unwrap()
}

fn doc(body_inner: &str) -> Vec<u8> {
    format!(
        r#"<?xml version="1.0" encoding="UTF-8" standalone="yes"?><w:document xmlns:w="http://schemas.openxmlformats.org/wordprocessingml/2006/main"><w:body>{body_inner}</w:body></w:document>"#,
    )
    .into_bytes()
}

#[test]
fn no_candidates_when_nothing_is_bold() {
    let body = r#"<w:p><w:r><w:t>Some text.</w:t></w:r></w:p>"#;
    let result = infer(&doc(body));
    assert!(result.is_empty());
}

#[test]
fn detects_single_bold_short_paragraph_as_level_1() {
    let body = r#"<w:p><w:r><w:rPr><w:b/><w:sz w:val="36"/></w:rPr><w:t>Big Bold Heading</w:t></w:r></w:p>
        <w:p><w:r><w:rPr><w:sz w:val="24"/></w:rPr><w:t>Some regular body text here that is sufficiently long to not be a heading.</w:t></w:r></w:p>"#;
    let result = infer(&doc(body));
    assert_eq!(result.len(), 1);
    assert_eq!(result[0].paragraph_index, 0);
    assert_eq!(result[0].heading_level, 1);
}

#[test]
fn clusters_distinct_sizes_into_levels() {
    // 24pt heading, 18pt subheading, 14pt body.
    let body = r#"
        <w:p><w:r><w:rPr><w:b/><w:sz w:val="48"/></w:rPr><w:t>Top</w:t></w:r></w:p>
        <w:p><w:r><w:rPr><w:b/><w:sz w:val="36"/></w:rPr><w:t>Sub</w:t></w:r></w:p>
        <w:p><w:r><w:rPr><w:sz w:val="28"/></w:rPr><w:t>Body text long enough to count as body content here.</w:t></w:r></w:p>
    "#;
    let result = infer(&doc(body));
    assert_eq!(result.len(), 2);
    assert_eq!(result[0].heading_level, 1); // 24pt → level 1
    assert_eq!(result[1].heading_level, 2); // 18pt → level 2
}

#[test]
fn skips_paragraphs_with_existing_heading_pstyle() {
    let body = r#"
        <w:p><w:pPr><w:pStyle w:val="Heading1"/></w:pPr><w:r><w:rPr><w:b/></w:rPr><w:t>Already a heading</w:t></w:r></w:p>
        <w:p><w:r><w:rPr><w:b/><w:sz w:val="36"/></w:rPr><w:t>Bold short body</w:t></w:r></w:p>
    "#;
    let result = infer(&doc(body));
    assert_eq!(result.len(), 1);
    assert_eq!(result[0].paragraph_index, 1);
}

#[test]
fn skips_long_text_even_if_bold() {
    // 200 chars, bold → NOT a heading candidate.
    let long = "x".repeat(200);
    let body = format!(r#"<w:p><w:r><w:rPr><w:b/></w:rPr><w:t>{long}</w:t></w:r></w:p>"#);
    let result = infer(&doc(&body));
    assert!(result.is_empty());
}

#[test]
fn ppr_default_bold_propagates_to_runs_without_explicit_bold() {
    // The pPr says <w:b/>, the runs DON'T say bold but they should
    // still count as effectively bold.
    let body = r#"<w:p><w:pPr><w:rPr><w:b/></w:rPr></w:pPr><w:r><w:rPr><w:sz w:val="36"/></w:rPr><w:t>Heading</w:t></w:r></w:p>
        <w:p><w:r><w:rPr><w:sz w:val="20"/></w:rPr><w:t>Long enough body text to set body size baseline.</w:t></w:r></w:p>"#;
    let result = infer(&doc(body));
    assert_eq!(result.len(), 1);
    assert_eq!(result[0].heading_level, 1);
}

#[test]
fn parses_letter_size_section() {
    let doc = br#"<?xml version="1.0" encoding="UTF-8" standalone="yes"?><w:document xmlns:w="http://schemas.openxmlformats.org/wordprocessingml/2006/main"><w:body><w:sectPr><w:pgSz w:w="12240" w:h="15840"/><w:pgMar w:top="1440" w:right="1440" w:bottom="1440" w:left="1440" w:header="720" w:footer="720" w:gutter="0"/></w:sectPr></w:body></w:document>"#;
    let sections = parse_sections(doc).unwrap();
    assert_eq!(sections.len(), 1);
    let s = &sections[0];
    assert_eq!(points(&s.page_width), Some(612.0));
    assert_eq!(points(&s.page_height), Some(792.0));
    assert_eq!(points(&s.left_margin), Some(72.0));
    assert_eq!(points(&s.right_margin), Some(72.0));
    assert_eq!(points(&s.top_margin), Some(72.0));
    assert_eq!(points(&s.bottom_margin), Some(72.0));
    assert_eq!(points(&s.header_distance), Some(36.0));
    assert_eq!(points(&s.footer_distance), Some(36.0));
    assert_eq!(points(&s.gutter), Some(0.0));
}

#[test]
fn detects_landscape_orientation() {
    let doc = br#"<?xml version="1.0" encoding="UTF-8" standalone="yes"?><w:document xmlns:w="http://schemas.openxmlformats.org/wordprocessingml/2006/main"><w:body><w:sectPr><w:pgSz w:w="15840" w:h="12240" w:orient="landscape"/></w:sectPr></w:body></w:document>"#;
    let sections = parse_sections(doc).unwrap();
    assert_eq!(sections[0].orientation.as_deref(), Some("landscape"));
}

#[test]
fn reads_doc_defaults_font_and_size() {
    let styles = br#"<?xml version="1.0" encoding="UTF-8" standalone="yes"?><w:styles xmlns:w="http://schemas.openxmlformats.org/wordprocessingml/2006/main"><w:docDefaults><w:rPrDefault><w:rPr><w:rFonts w:ascii="Times New Roman"/><w:sz w:val="28"/></w:rPr></w:rPrDefault></w:docDefaults></w:styles>"#;
    let (font, sizes) = parse_defaults(styles).unwrap();
    let size = half_points(&sizes);
    assert_eq!(font.as_deref(), Some("Times New Roman"));
    assert_eq!(size, Some(14.0));
}

#[test]
fn falls_back_to_normal_style_rpr() {
    let styles = br#"<?xml version="1.0" encoding="UTF-8" standalone="yes"?><w:styles xmlns:w="http://schemas.openxmlformats.org/wordprocessingml/2006/main"><w:style w:type="paragraph" w:styleId="Normal"><w:name w:val="Normal"/><w:rPr><w:rFonts w:ascii="Calibri"/><w:sz w:val="22"/></w:rPr></w:style></w:styles>"#;
    let (font, sizes) = parse_defaults(styles).unwrap();
    let size = half_points(&sizes);
    assert_eq!(font.as_deref(), Some("Calibri"));
    assert_eq!(size, Some(11.0));
}

#[test]
fn analyze_combines_all_slices() {
    let doc = br#"<?xml version="1.0" encoding="UTF-8" standalone="yes"?><w:document xmlns:w="http://schemas.openxmlformats.org/wordprocessingml/2006/main"><w:body><w:p><w:pPr><w:pStyle w:val="Heading1"/></w:pPr><w:r><w:t>Heading</w:t></w:r></w:p><w:sectPr><w:pgSz w:w="12240" w:h="15840"/></w:sectPr></w:body></w:document>"#;
    let styles = br#"<?xml version="1.0" encoding="UTF-8" standalone="yes"?><w:styles xmlns:w="http://schemas.openxmlformats.org/wordprocessingml/2006/main"><w:docDefaults><w:rPrDefault><w:rPr><w:rFonts w:ascii="Arial"/><w:sz w:val="20"/></w:rPr></w:rPrDefault></w:docDefaults><w:style w:type="paragraph" w:styleId="Normal"><w:name w:val="Normal"/></w:style><w:style w:type="paragraph" w:styleId="Heading1"><w:name w:val="heading 1"/><w:pPr><w:outlineLvl w:val="0"/></w:pPr></w:style></w:styles>"#;
    let pkg = pkg_with(&[("word/document.xml", doc), ("word/styles.xml", styles)]);
    let schema = analyze_blueprint(&pkg).unwrap();
    assert_eq!(schema.default_font, "Arial");
    assert_eq!(half_points(&schema.default_font_sizes), Some(10.0));
    assert_eq!(schema.sections.len(), 1);
    assert_eq!(points(&schema.sections[0].page_width), Some(612.0));
    assert!(schema.styles.styles.contains_key("heading 1"));
    assert!(schema.styles.body_para_style_names.contains("Heading1"));
}

#[test]
fn levels_follow_the_sizes_above_the_body() {
    let body = doc(
        r#"<w:p><w:r><w:rPr><w:b/><w:sz w:val="48"/></w:rPr><w:t>Top</w:t></w:r></w:p><w:p><w:r><w:rPr><w:b/><w:sz w:val="20"/></w:rPr><w:t>Small</w:t></w:r></w:p>"#,
    );
    let scans = scan_events(&parse_events(&body, "word/document.xml").unwrap());
    let sizes: Vec<Option<i64>> = scans.iter().map(size_of).collect();
    let found = infer_levels(&scans, &sizes, None, 12_000_000);
    assert_eq!(found[0].heading_level, 1);
    assert_eq!(found[0].preview, "Top");
    assert_eq!(found[0].effective_size, 24_000_000);
}

#[test]
fn a_font_that_is_not_given_is_times_new_roman() {
    let pkg = pkg_with(&[("word/document.xml", &doc("<w:p/>"))]);
    let schema = analyze_blueprint(&pkg).unwrap();
    assert_eq!(schema.default_font, "Times New Roman");
    assert!(schema.default_font_sizes.is_empty());
    assert!(schema.sections.is_empty());
    assert!(schema.footnote_format.separator.is_none());
}

#[test]
fn empty_sections_count() {
    let s = parse_sections(b"<w:body><w:sectPr/><w:sectPr><w:pgSz/></w:sectPr></w:body>").unwrap();
    assert_eq!(s.len(), 2);
    assert_eq!(s[1].index, 1);
    assert!(s[1].page_width.is_none());
}
