//! Packages, and the operations on them from the archive's bytes.

use crisp_docx::names::NameMap;
use crisp_docx::{
    apply_style_mapping, clean_runs, convert_notes_kind, extract_paragraph_texts,
    inject_footnotes, normalize_tags, replace_paragraph_texts, strip_paragraph_bold, strip_rsids,
    transplant_body, Error, NotesKind, Package, StyleIndex, StyleMapper,
};
use std::collections::BTreeMap;
use std::io::{Cursor, Write};

/// Make a docx whose body contains a single `<w:p>` whose attributes carry
/// every tracking attribute that is stripped.
fn docx_with_rsids() -> Vec<u8> {
    let body = br#"<w:p w14:paraId="A1B2" w14:textId="C3D4" w:rsidR="00112233" w:rsidRDefault="44556677" w:rsidRPr="DEADBEEF" w:rsidP="55667788"><w:r w:rsidR="11223344" w:rsidRPr="99887766"><w:t xml:space="preserve">hello</w:t></w:r></w:p>"#;
    zip_package(&[
        ("[Content_Types].xml", CONTENT_TYPES_MINIMAL.as_bytes()),
        ("word/document.xml", &build_document(body)),
    ])
}

/// Make a docx whose runs use Apple textutil's non-standard tag names.
fn docx_with_textutil_tags() -> Vec<u8> {
    let body = br#"<w:p><w:r><w:rPr><w:rFonts w:ascii="Arial"/><w:sz w:val="28"/><w:sz-cs w:val="28"/><w:b/><w:b-cs/><w:i/><w:i-cs/></w:rPr><w:t>hi</w:t></w:r></w:p>"#;
    zip_package(&[
        ("[Content_Types].xml", CONTENT_TYPES_MINIMAL.as_bytes()),
        ("word/document.xml", &build_document(body)),
    ])
}

/// Make a docx with a working footnotes part (id=1) referenced from the body.
fn docx_with_footnotes() -> Vec<u8> {
    let body = br#"<w:p><w:r><w:t xml:space="preserve">Body. </w:t></w:r><w:r><w:rPr><w:rStyle w:val="FootnoteReference"/></w:rPr><w:footnoteReference w:id="1"/></w:r><w:r><w:t xml:space="preserve"> after.</w:t></w:r></w:p>"#;
    let footnotes = br#"<?xml version="1.0" encoding="UTF-8" standalone="yes"?><w:footnotes xmlns:w="http://schemas.openxmlformats.org/wordprocessingml/2006/main"><w:footnote w:id="-1" w:type="separator"><w:p><w:r><w:separator/></w:r></w:p></w:footnote><w:footnote w:id="0" w:type="continuationSeparator"><w:p><w:r><w:continuationSeparator/></w:r></w:p></w:footnote><w:footnote w:id="1"><w:p><w:r><w:rPr><w:rStyle w:val="FootnoteReference"/></w:rPr><w:footnoteRef/></w:r><w:r><w:t xml:space="preserve"> the note body</w:t></w:r></w:p></w:footnote></w:footnotes>"#;
    let rels = br#"<?xml version="1.0" encoding="UTF-8" standalone="yes"?><Relationships xmlns="http://schemas.openxmlformats.org/package/2006/relationships"><Relationship Id="rId10" Type="http://schemas.openxmlformats.org/officeDocument/2006/relationships/footnotes" Target="footnotes.xml"/></Relationships>"#;
    let content_types = br#"<?xml version="1.0" encoding="UTF-8" standalone="yes"?><Types xmlns="http://schemas.openxmlformats.org/package/2006/content-types"><Override PartName="/word/document.xml" ContentType="application/vnd.openxmlformats-officedocument.wordprocessingml.document.main+xml"/><Override PartName="/word/footnotes.xml" ContentType="application/vnd.openxmlformats-officedocument.wordprocessingml.footnotes+xml"/></Types>"#;
    zip_package(&[
        ("[Content_Types].xml", content_types),
        ("word/document.xml", &build_document(body)),
        ("word/footnotes.xml", footnotes),
        ("word/_rels/document.xml.rels", rels),
    ])
}

const CONTENT_TYPES_MINIMAL: &str = r#"<?xml version="1.0" encoding="UTF-8" standalone="yes"?><Types xmlns="http://schemas.openxmlformats.org/package/2006/content-types"><Override PartName="/word/document.xml" ContentType="application/vnd.openxmlformats-officedocument.wordprocessingml.document.main+xml"/></Types>"#;

fn build_document(body_inner: &[u8]) -> Vec<u8> {
    let mut v = br#"<?xml version="1.0" encoding="UTF-8" standalone="yes"?><w:document xmlns:w="http://schemas.openxmlformats.org/wordprocessingml/2006/main" xmlns:w14="http://schemas.microsoft.com/office/word/2010/wordml"><w:body>"#.to_vec();
    v.extend_from_slice(body_inner);
    v.extend_from_slice(b"</w:body></w:document>");
    v
}

fn zip_package(entries: &[(&str, &[u8])]) -> Vec<u8> {
    let buf = Cursor::new(Vec::new());
    let mut zw = zip::ZipWriter::new(buf);
    let opts: zip::write::SimpleFileOptions = zip::write::SimpleFileOptions::default()
        .compression_method(zip::CompressionMethod::Deflated);
    for (name, bytes) in entries {
        zw.start_file(*name, opts).unwrap();
        zw.write_all(bytes).unwrap();
    }
    zw.finish().unwrap().into_inner()
}

/// A docx whose text holds the markers [1] and [2].
fn docx_with_inline_markers() -> Vec<u8> {
    let body = br#"<w:p><w:r><w:t xml:space="preserve">First claim[1] and second claim[2] end.</w:t></w:r></w:p><w:sectPr/>"#;
    zip_package(&[
        ("[Content_Types].xml", CONTENT_TYPES_MINIMAL.as_bytes()),
        ("word/document.xml", &build_document(body)),
        ("word/_rels/document.xml.rels", EMPTY_RELS.as_bytes()),
    ])
}

/// A blueprint of letter size.
fn docx_blueprint() -> Vec<u8> {
    let body = br#"<w:p><w:r><w:t>blueprint-only paragraph</w:t></w:r></w:p><w:sectPr><w:pgSz w:w="12240" w:h="15840"/></w:sectPr>"#;
    zip_package(&[
        ("[Content_Types].xml", CONTENT_TYPES_MINIMAL.as_bytes()),
        ("word/document.xml", &build_document(body)),
        ("word/_rels/document.xml.rels", EMPTY_RELS.as_bytes()),
    ])
}

/// A source with a page size of its own and one footnote.
fn docx_source_with_footnotes() -> Vec<u8> {
    let body = br#"<w:p><w:r><w:t>source paragraph one</w:t></w:r><w:r><w:rPr><w:rStyle w:val="FootnoteReference"/></w:rPr><w:footnoteReference w:id="1"/></w:r></w:p><w:p><w:r><w:t>source paragraph two</w:t></w:r></w:p><w:sectPr><w:pgSz w:w="8000" w:h="10000"/></w:sectPr>"#;
    let footnotes = br#"<?xml version="1.0" encoding="UTF-8" standalone="yes"?><w:footnotes xmlns:w="http://schemas.openxmlformats.org/wordprocessingml/2006/main"><w:footnote w:id="1"><w:p><w:r><w:rPr><w:rStyle w:val="FootnoteReference"/></w:rPr><w:footnoteRef/></w:r><w:r><w:t xml:space="preserve"> source note 1</w:t></w:r></w:p></w:footnote></w:footnotes>"#;
    zip_package(&[
        ("[Content_Types].xml", CONTENT_TYPES_MINIMAL.as_bytes()),
        ("word/document.xml", &build_document(body)),
        ("word/footnotes.xml", footnotes),
    ])
}

const EMPTY_RELS: &str = r#"<?xml version="1.0" encoding="UTF-8" standalone="yes"?><Relationships xmlns="http://schemas.openxmlformats.org/package/2006/relationships"></Relationships>"#;

fn make_minimal_docx() -> Vec<u8> {
    let buf = Cursor::new(Vec::new());
    let mut zw = zip::ZipWriter::new(buf);
    let opts: zip::write::SimpleFileOptions = zip::write::SimpleFileOptions::default()
        .compression_method(zip::CompressionMethod::Deflated);
    zw.start_file("[Content_Types].xml", opts).unwrap();
    zw.write_all(br#"<?xml version="1.0" encoding="UTF-8" standalone="yes"?><Types xmlns="http://schemas.openxmlformats.org/package/2006/content-types"><Override PartName="/word/document.xml" ContentType="application/vnd.openxmlformats-officedocument.wordprocessingml.document.main+xml"/></Types>"#)
        .unwrap();
    zw.start_file("word/document.xml", opts).unwrap();
    zw.write_all(br#"<?xml version="1.0" encoding="UTF-8" standalone="yes"?><w:document xmlns:w="http://schemas.openxmlformats.org/wordprocessingml/2006/main"><w:body><w:p><w:r><w:t>hi</w:t></w:r></w:p></w:body></w:document>"#)
        .unwrap();
    zw.finish().unwrap().into_inner()
}

#[test]
fn loads_and_round_trips() {
    let bytes = make_minimal_docx();
    let pkg = Package::from_bytes(&bytes).unwrap();
    assert!(pkg.get_part("word/document.xml").is_some());
    assert!(pkg.get_part("[Content_Types].xml").is_some());
    assert_eq!(pkg.parts().len(), 2);
}

#[test]
fn rejects_non_opc_zip() {
    let buf = Cursor::new(Vec::new());
    let mut zw = zip::ZipWriter::new(buf);
    zw.start_file("hello.txt", zip::write::SimpleFileOptions::default())
        .unwrap();
    zw.write_all(b"hi").unwrap();
    let bytes = zw.finish().unwrap().into_inner();
    assert!(matches!(
        Package::from_bytes(&bytes),
        Err(Error::InvalidPackage { .. })
    ));
}

#[test]
fn set_and_rename_part() {
    let mut pkg = Package::from_bytes(&make_minimal_docx()).unwrap();
    pkg.set_part("word/extra.xml", b"<x/>".to_vec());
    assert_eq!(pkg.get_part("word/extra.xml"), Some(b"<x/>".as_slice()));
    assert!(pkg.rename_part("word/extra.xml", "word/renamed.xml"));
    assert!(pkg.get_part("word/extra.xml").is_none());
    assert_eq!(pkg.get_part("word/renamed.xml"), Some(b"<x/>".as_slice()));
}

fn part_str<'a>(pkg: &'a Package, name: &str) -> &'a str {
    std::str::from_utf8(pkg.get_part(name).expect("part missing")).expect("non-utf8 part")
}

#[test]
fn round_trip_preserves_byte_identity() {
    let bytes = docx_with_rsids();
    let pkg = Package::from_bytes(&bytes).unwrap();
    // Same number of parts, same names, same content.
    let expected = ["[Content_Types].xml", "word/document.xml"];
    let names: Vec<_> = pkg.parts().into_iter().map(|(n, _)| n.to_string()).collect();
    assert_eq!(names, expected);
}

#[test]
fn strip_rsids_end_to_end() {
    let mut pkg = Package::from_bytes(&docx_with_rsids()).unwrap();
    let n = strip_rsids(&mut pkg).unwrap();
    assert_eq!(n, 8, "fixture has 8 rsid-family attrs across <w:p> + <w:r>");
    let doc = part_str(&pkg, "word/document.xml");
    for needle in [
        "paraId",
        "textId",
        "rsidR",
        "rsidRDefault",
        "rsidRPr",
        "rsidP",
    ] {
        assert!(!doc.contains(needle), "should be gone: {needle}");
    }
    assert!(doc.contains("hello"), "content preserved");
}

#[test]
fn strip_rsids_idempotent() {
    let mut pkg = Package::from_bytes(&docx_with_rsids()).unwrap();
    let first = strip_rsids(&mut pkg).unwrap();
    let second = strip_rsids(&mut pkg).unwrap();
    assert!(first > 0);
    assert_eq!(second, 0);
}

#[test]
fn normalize_tags_end_to_end() {
    let mut pkg = Package::from_bytes(&docx_with_textutil_tags()).unwrap();
    let n = normalize_tags(&mut pkg).unwrap();
    assert_eq!(n, 3, "expected three renames: sz-cs, b-cs, i-cs");
    let doc = part_str(&pkg, "word/document.xml");
    for old in ["w:sz-cs", "w:b-cs", "w:i-cs"] {
        assert!(!doc.contains(old), "{old} should be renamed");
    }
    for new in ["w:szCs", "w:bCs", "w:iCs"] {
        assert!(doc.contains(new), "{new} should be present");
    }
}

#[test]
fn convert_footnotes_to_endnotes_end_to_end() {
    let mut pkg = Package::from_bytes(&docx_with_footnotes()).unwrap();
    convert_notes_kind(&mut pkg, NotesKind::Endnotes).unwrap();

    // Part was renamed.
    assert!(pkg.get_part("word/footnotes.xml").is_none());
    assert!(pkg.get_part("word/endnotes.xml").is_some());

    // Inside the (formerly footnotes) part, all the relevant element names
    // and style values now use the endnote spelling.
    let en = part_str(&pkg, "word/endnotes.xml");
    assert!(en.contains("<w:endnotes"));
    assert!(en.contains("<w:endnote "));
    assert!(en.contains("w:endnoteRef"));
    assert!(!en.contains("w:footnote"));

    // document.xml's reference was rewritten too.
    let doc = part_str(&pkg, "word/document.xml");
    assert!(doc.contains("w:endnoteReference"));
    assert!(!doc.contains("w:footnoteReference"));

    // Relationship + Content_Types updated.
    let rels = part_str(&pkg, "word/_rels/document.xml.rels");
    assert!(rels.contains("relationships/endnotes"));
    assert!(rels.contains("endnotes.xml"));
    assert!(!rels.contains("relationships/footnotes"));
    assert!(!rels.contains("footnotes.xml"));

    let ct = part_str(&pkg, "[Content_Types].xml");
    assert!(ct.contains("/word/endnotes.xml"));
    assert!(ct.contains("wordprocessingml.endnotes+xml"));
    assert!(!ct.contains("/word/footnotes.xml"));
}

#[test]
fn convert_endnotes_back_to_footnotes_is_reversible() {
    let mut pkg = Package::from_bytes(&docx_with_footnotes()).unwrap();
    convert_notes_kind(&mut pkg, NotesKind::Endnotes).unwrap();
    convert_notes_kind(&mut pkg, NotesKind::Footnotes).unwrap();

    // Back to the footnotes layout.
    assert!(pkg.get_part("word/footnotes.xml").is_some());
    assert!(pkg.get_part("word/endnotes.xml").is_none());
    let doc = part_str(&pkg, "word/document.xml");
    assert!(doc.contains("w:footnoteReference"));
    assert!(!doc.contains("w:endnoteReference"));
}

#[test]
fn convert_noop_when_already_target() {
    let mut pkg = Package::from_bytes(&docx_with_footnotes()).unwrap();
    convert_notes_kind(&mut pkg, NotesKind::Footnotes).unwrap();
    // Still has footnotes, no endnotes.
    assert!(pkg.get_part("word/footnotes.xml").is_some());
    assert!(pkg.get_part("word/endnotes.xml").is_none());
}

#[test]
fn inject_footnotes_creates_part_and_rewrites_runs() {
    let mut pkg = Package::from_bytes(&docx_with_inline_markers()).unwrap();
    let mut notes: BTreeMap<u32, &str> = BTreeMap::new();
    notes.insert(1, "Note one.");
    notes.insert(2, "Note two.");

    let report = inject_footnotes(&mut pkg, &notes).unwrap();
    assert_eq!(report.inserted, 2);
    assert!(report.unknown_ids.is_empty());
    assert!(report.unused_ids.is_empty());

    // Document body now references both notes.
    let doc = part_str(&pkg, "word/document.xml");
    assert!(doc.contains(r#"w:id="1""#));
    assert!(doc.contains(r#"w:id="2""#));
    assert!(doc.contains("w:footnoteReference"));
    assert!(doc.contains("FootnoteReference"));
    // Inline brackets gone.
    assert!(!doc.contains("[1]"));
    assert!(!doc.contains("[2]"));

    // Footnotes part exists with the entries plus the two separators.
    let fn_part = part_str(&pkg, "word/footnotes.xml");
    assert!(fn_part.contains(r#"w:id="-1""#));
    assert!(fn_part.contains(r#"w:id="0""#));
    assert!(fn_part.contains(r#"w:id="1""#));
    assert!(fn_part.contains(r#"w:id="2""#));
    assert!(fn_part.contains("Note one."));
    assert!(fn_part.contains("Note two."));

    // Content-types + rels patched.
    let ct = part_str(&pkg, "[Content_Types].xml");
    assert!(ct.contains("/word/footnotes.xml"));
    assert!(ct.contains("wordprocessingml.footnotes+xml"));

    let rels = part_str(&pkg, "word/_rels/document.xml.rels");
    assert!(rels.contains("relationships/footnotes"));
    assert!(rels.contains(r#"Target="footnotes.xml""#));
}

#[test]
fn inject_footnotes_reports_unknown_and_unused() {
    let mut pkg = Package::from_bytes(&docx_with_inline_markers()).unwrap();
    let mut notes: BTreeMap<u32, &str> = BTreeMap::new();
    notes.insert(1, "Note one.");
    // [2] is in the body but not in `notes`.
    notes.insert(99, "Never used.");

    let report = inject_footnotes(&mut pkg, &notes).unwrap();
    assert_eq!(report.inserted, 1);
    assert_eq!(report.unknown_ids, Vec::<u32>::new()); // [2] isn't *seen* by find_first_marker because it's not in `notes`
    assert_eq!(report.unused_ids, vec![99]);

    // The body still contains the unmatched [2] verbatim.
    let doc = part_str(&pkg, "word/document.xml");
    assert!(doc.contains("[2]"));
}

#[test]
fn transplant_swaps_body_and_preserves_blueprint_sectpr() {
    let mut bp = Package::from_bytes(&docx_blueprint()).unwrap();
    let src = Package::from_bytes(&docx_source_with_footnotes()).unwrap();

    transplant_body(&mut bp, &src).unwrap();

    let doc = part_str(&bp, "word/document.xml");

    // Source content is present.
    assert!(doc.contains("source paragraph one"));
    assert!(doc.contains("source paragraph two"));

    // Blueprint's distinctive paragraph is gone — only its sectPr survives.
    assert!(!doc.contains("blueprint-only paragraph"));

    // Blueprint's sectPr (letter size) is preserved; source's (8000x10000) is dropped.
    assert!(doc.contains("12240"), "letter width missing");
    assert!(doc.contains("15840"), "letter height missing");
    assert!(!doc.contains("w:w=\"8000\""), "source sectPr leaked");
    assert!(!doc.contains("w:h=\"10000\""), "source sectPr leaked");

    // Footnotes part carried over.
    let fn_part = part_str(&bp, "word/footnotes.xml");
    assert!(fn_part.contains("source note 1"));

    // Content-types and rels patched.
    let ct = part_str(&bp, "[Content_Types].xml");
    assert!(ct.contains("/word/footnotes.xml"));
    let rels = part_str(&bp, "word/_rels/document.xml.rels");
    assert!(rels.contains("relationships/footnotes"));
    assert!(rels.contains(r#"Target="footnotes.xml""#));
}

#[test]
fn transplant_strips_rsids_from_grafted_runs() {
    // Source has rsid attrs on a paragraph; blueprint has none. After
    // transplant, the result must be rsid-free.
    let mut bp = Package::from_bytes(&docx_blueprint()).unwrap();
    let src = Package::from_bytes(&docx_with_rsids()).unwrap();
    transplant_body(&mut bp, &src).unwrap();
    let doc = part_str(&bp, "word/document.xml");
    for needle in ["paraId", "rsidR", "rsidRPr", "rsidRDefault"] {
        assert!(!doc.contains(needle), "should be stripped: {needle}");
    }
}

#[test]
fn transplant_remaps_styleids_when_blueprint_uses_different_ids() {
    // Blueprint with a custom styleId for the H1 heading: "MyH1" named
    // "Heading 1". Source uses pandoc's "Heading1". The mapper should
    // rewrite "Heading1" → "MyH1" via name-roundtripping.
    let blueprint_doc = r#"<?xml version="1.0" encoding="UTF-8" standalone="yes"?><w:document xmlns:w="http://schemas.openxmlformats.org/wordprocessingml/2006/main"><w:body><w:p><w:pPr><w:pStyle w:val="MyH1"/></w:pPr><w:r><w:t>Title</w:t></w:r></w:p><w:sectPr/></w:body></w:document>"#;
    let blueprint_styles = r#"<?xml version="1.0" encoding="UTF-8" standalone="yes"?><w:styles xmlns:w="http://schemas.openxmlformats.org/wordprocessingml/2006/main"><w:style w:type="paragraph" w:styleId="MyH1"><w:name w:val="heading 1"/><w:pPr><w:outlineLvl w:val="0"/></w:pPr></w:style><w:style w:type="paragraph" w:styleId="Normal"><w:name w:val="Normal"/></w:style></w:styles>"#;
    let source_doc = r#"<?xml version="1.0" encoding="UTF-8" standalone="yes"?><w:document xmlns:w="http://schemas.openxmlformats.org/wordprocessingml/2006/main"><w:body><w:p><w:pPr><w:pStyle w:val="Heading1"/></w:pPr><w:r><w:t>Source title</w:t></w:r></w:p><w:sectPr/></w:body></w:document>"#;
    let source_styles = r#"<?xml version="1.0" encoding="UTF-8" standalone="yes"?><w:styles xmlns:w="http://schemas.openxmlformats.org/wordprocessingml/2006/main"><w:style w:type="paragraph" w:styleId="Heading1"><w:name w:val="heading 1"/><w:pPr><w:outlineLvl w:val="0"/></w:pPr></w:style><w:style w:type="paragraph" w:styleId="Normal"><w:name w:val="Normal"/></w:style></w:styles>"#;
    let content_types = r#"<?xml version="1.0" encoding="UTF-8" standalone="yes"?><Types xmlns="http://schemas.openxmlformats.org/package/2006/content-types"><Override PartName="/word/document.xml" ContentType="application/vnd.openxmlformats-officedocument.wordprocessingml.document.main+xml"/><Override PartName="/word/styles.xml" ContentType="application/vnd.openxmlformats-officedocument.wordprocessingml.styles+xml"/></Types>"#;
    let rels = r#"<?xml version="1.0" encoding="UTF-8" standalone="yes"?><Relationships xmlns="http://schemas.openxmlformats.org/package/2006/relationships"><Relationship Id="rId1" Type="http://schemas.openxmlformats.org/officeDocument/2006/relationships/styles" Target="styles.xml"/></Relationships>"#;

    let make = |doc: &str, styles: &str| -> Vec<u8> {
        let buf = Cursor::new(Vec::new());
        let mut zw = zip::ZipWriter::new(buf);
        let opts: zip::write::SimpleFileOptions = zip::write::SimpleFileOptions::default()
            .compression_method(zip::CompressionMethod::Deflated);
        zw.start_file("[Content_Types].xml", opts).unwrap();
        zw.write_all(content_types.as_bytes()).unwrap();
        zw.start_file("word/document.xml", opts).unwrap();
        zw.write_all(doc.as_bytes()).unwrap();
        zw.start_file("word/styles.xml", opts).unwrap();
        zw.write_all(styles.as_bytes()).unwrap();
        zw.start_file("word/_rels/document.xml.rels", opts).unwrap();
        zw.write_all(rels.as_bytes()).unwrap();
        zw.finish().unwrap().into_inner()
    };

    let mut bp = Package::from_bytes(&make(blueprint_doc, blueprint_styles)).unwrap();
    let src = Package::from_bytes(&make(source_doc, source_styles)).unwrap();
    transplant_body(&mut bp, &src).unwrap();

    let doc = part_str(&bp, "word/document.xml");
    assert!(
        doc.contains(r#"w:val="MyH1""#),
        "expected pStyle remapped to MyH1, got: {doc}"
    );
    assert!(
        !doc.contains(r#"w:val="Heading1""#),
        "source styleId should be gone"
    );
    // Source content is in.
    assert!(doc.contains("Source title"));

    // Direct apply_style_mapping test, decoupled from transplant.
    let mut bp2 = Package::from_bytes(&make(blueprint_doc, blueprint_styles)).unwrap();
    // Force the document to contain a source-styleId paragraph.
    let src_bytes = source_doc.as_bytes().to_vec();
    bp2.set_part("word/document.xml", src_bytes);
    let bp_idx = StyleIndex::from_package(&bp2).unwrap();
    let src_idx = StyleIndex::from_styles_xml(source_styles.as_bytes()).unwrap();
    let mapper = StyleMapper::new(&bp_idx, NameMap::new());
    let n = apply_style_mapping(&mut bp2, &mapper, &src_idx, &bp_idx).unwrap();
    assert_eq!(n, 1, "expected exactly one paragraph rewritten");
    assert!(part_str(&bp2, "word/document.xml").contains(r#"w:val="MyH1""#));
}

#[test]
fn bytes_written_are_read_back() {
    let pkg = Package::from_bytes(&docx_with_footnotes()).unwrap();
    let reloaded = Package::from_bytes(&pkg.to_bytes().unwrap()).unwrap();
    assert_eq!(pkg.parts(), reloaded.parts());
}

#[test]
fn parts_are_written_in_order() {
    let mut pkg = Package::new();
    pkg.set_part("word/document.xml", b"<a/>".to_vec());
    pkg.set_part("[Content_Types].xml", b"<b/>".to_vec());
    let bytes = pkg.to_bytes().unwrap();
    let mut archive = zip::ZipArchive::new(Cursor::new(bytes)).unwrap();
    assert_eq!(archive.by_index(0).unwrap().name(), "word/document.xml");
    assert_eq!(archive.by_index(1).unwrap().name(), "[Content_Types].xml");
}

#[test]
fn bytes_that_are_no_archive_are_refused() {
    assert!(matches!(
        Package::from_bytes(b"no archive"),
        Err(Error::Zip { .. })
    ));
}

#[test]
fn parts_are_listed_by_name() {
    let mut pkg = Package::new();
    pkg.set_part("b", b"2".to_vec());
    pkg.set_part("a", b"1".to_vec());
    let sorted = pkg.as_btree();
    assert_eq!(sorted.len(), 2);
    assert_eq!(sorted.key_at(0), "a");
    assert_eq!(*sorted.value_at(1), b"2".as_slice());
    assert!(pkg.remove_part("a"));
    assert!(!pkg.remove_part("a"));
    assert!(!pkg.rename_part("a", "c"));
    assert!(pkg.source().is_none());
    pkg.get_part_mut("b").unwrap().push(b'3');
    assert_eq!(pkg.get_part("b"), Some(b"23".as_slice()));
}

#[test]
fn notes_converted_twice_are_as_before() {
    let start = Package::from_bytes(&docx_with_footnotes()).unwrap();
    let mut pkg = Package::from_bytes(&docx_with_footnotes()).unwrap();
    convert_notes_kind(&mut pkg, NotesKind::Endnotes).unwrap();
    convert_notes_kind(&mut pkg, NotesKind::Footnotes).unwrap();
    assert_eq!(pkg.get_part("word/footnotes.xml"), start.get_part("word/footnotes.xml"));
    assert_eq!(pkg.get_part("word/document.xml"), start.get_part("word/document.xml"));
    let mut same = Package::from_bytes(&docx_with_footnotes()).unwrap();
    convert_notes_kind(&mut same, NotesKind::Footnotes).unwrap();
    assert_eq!(same.parts(), start.parts());
}

#[test]
fn tags_normalized_twice_stay() {
    let mut pkg = Package::from_bytes(&docx_with_textutil_tags()).unwrap();
    assert_eq!(normalize_tags(&mut pkg).unwrap(), 3);
    assert_eq!(normalize_tags(&mut pkg).unwrap(), 0);
}

#[test]
fn runs_are_cleaned_in_place() {
    let mut pkg = Package::from_bytes(&docx_with_textutil_tags()).unwrap();
    clean_runs(&mut pkg).unwrap();
    let doc = part_str(&pkg, "word/document.xml");
    assert!(!doc.contains("w:rFonts"));
    assert!(doc.contains("<w:b/>"));
    let once = pkg.get_part("word/document.xml").unwrap().to_vec();
    clean_runs(&mut pkg).unwrap();
    assert_eq!(pkg.get_part("word/document.xml"), Some(once.as_slice()));
}

#[test]
fn bold_is_stripped_in_place() {
    let mut pkg = Package::from_bytes(&docx_with_textutil_tags()).unwrap();
    strip_paragraph_bold(&mut pkg).unwrap();
    assert!(!part_str(&pkg, "word/document.xml").contains("<w:b/>"));
}

#[test]
fn texts_written_are_read_back() {
    let mut pkg = Package::from_bytes(&docx_with_footnotes()).unwrap();
    replace_paragraph_texts(&mut pkg, &["a < b & \"c\"".to_string()]).unwrap();
    assert_eq!(extract_paragraph_texts(&pkg).unwrap(), ["a < b & \"c\""]);
    assert!(part_str(&pkg, "word/document.xml").contains(r#"<w:footnoteReference w:id="1"/>"#));
}

#[test]
fn packages_without_a_document() {
    let mut pkg = Package::new();
    assert_eq!(strip_paragraph_bold(&mut pkg).unwrap(), 0);
    assert!(extract_paragraph_texts(&pkg).is_err());
    assert!(transplant_body(&mut pkg, &Package::new()).is_err());
}
