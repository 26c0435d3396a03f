//! The checks of a package, line by line.

use crisp_docx::check::resolve_relative_target;
use crisp_docx::translate::{merge_translations, needs_rebuild, rebuild_paragraph};
use crisp_docx::{check_package, strip_rsids, Package, ParagraphInfo, Run};

const HEAD: &str = r#"<w:document xmlns:w="w" xmlns:w14="w14" xmlns:r="r"><w:body>"#;

const TAIL: &str = "</w:body></w:document>";

fn package(body: &str, others: &[(&str, &str)]) -> Package {
    let mut pkg = Package::new();
    let doc = [HEAD, body, TAIL].concat();
    pkg.set_part("word/document.xml", doc.into_bytes());
    for (name, data) in others {
        pkg.set_part(name, data.as_bytes().to_vec());
    }
    pkg
}

fn lines(pkg: &Package) -> (Vec<String>, Vec<String>) {
    let report = check_package(pkg).unwrap();
    assert_eq!(report.is_clean(), report.issues.is_empty());
    (report.ok, report.issues)
}

#[test]
fn resolve_relative_target_basic() {
    assert_eq!(
        resolve_relative_target("word", "footnotes.xml"),
        "word/footnotes.xml"
    );
    assert_eq!(
        resolve_relative_target("word", "/word/footnotes.xml"),
        "word/footnotes.xml"
    );
    assert_eq!(
        resolve_relative_target("word", "../docProps/core.xml"),
        "docProps/core.xml"
    );
}

#[test]
fn check_vielfalt_doc_is_clean() {
    let pkg = package(
        r#"<w:p w14:paraId="1" w:rsidR="00A"><w:hyperlink r:id="rId1"/></w:p><w:bookmarkStart w:id="0"/><w:bookmarkEnd w:id="0"/><w:sectPr/>"#,
        &[
            (
                "word/settings.xml",
                r#"<w:settings><w:rsids><w:rsid w:val="00A"/></w:rsids></w:settings>"#,
            ),
            (
                "word/_rels/document.xml.rels",
                r#"<Relationships><Relationship Id="rId1" Target="settings.xml"/></Relationships>"#,
            ),
        ],
    );
    let report = check_package(&pkg).unwrap();
    assert!(report.is_clean(), "expected a clean report");
    assert!(!report.ok.is_empty());
    assert_eq!(
        report.ok,
        [
            "All 3 XML/rels parts parse cleanly",
            "1 rsid value(s), all declared in settings.xml",
            "1 w14:paraId values across all parts, all unique",
            "All relationship targets present in ZIP",
            "Body structure valid (4 children, sectPr at end: true)",
            "1 bookmarkStart ID(s), all unique",
            "1 body relationship reference(s), all resolved",
        ]
    );
}

#[test]
fn a_missing_document_is_an_issue() {
    let (ok, issues) = lines(&Package::new());
    assert_eq!(
        issues,
        ["word/document.xml missing — cannot check rsids"]
    );
    assert_eq!(ok[0], "All 0 XML/rels parts parse cleanly");
}

#[test]
fn unreadable_parts_are_issues() {
    let pkg = package("<w:p/><w:sectPr/>", &[("word/bad.xml", "<a></b>")]);
    let (_, issues) = lines(&pkg);
    assert_eq!(issues.len(), 1);
    assert!(issues[0].starts_with("XML parse error: word/bad.xml: "));
}

#[test]
fn stripping_cures_undeclared_rsids() {
    let mut pkg = package(
        r#"<w:p w14:paraId="1" w:rsidR="00A"/><w:p w14:paraId="1" w:rsidP="00B"/><w:sectPr/>"#,
        &[],
    );
    let (_, issues) = lines(&pkg);
    assert_eq!(issues.len(), 2);
    assert_eq!(strip_rsids(&mut pkg).unwrap(), 4);
    let (ok, issues) = lines(&pkg);
    assert!(issues.is_empty());
    assert!(ok.contains(&"No rsid attributes in body paragraphs".to_string()));
}

#[test]
fn undeclared_rsids_are_issues() {
    let pkg = package(r#"<w:p w:rsidR="0\B"/><w:p w:rsidRPr="00A"/><w:sectPr/>"#, &[]);
    let (_, issues) = lines(&pkg);
    assert_eq!(
        issues,
        ["2 paragraph rsid value(s) not in settings.xml <w:rsids> — causes 'Word found unreadable content'. Sample: [\"00A\", \"0\\\\B\"]"]
    );
}

#[test]
fn repeated_identifiers_are_issues() {
    let pkg = package(
        r#"<w:p w14:paraId="X"/><w:p w14:paraId="X"/><w:bookmarkStart w:id="7"/><w:bookmarkStart w:id="7"/><w:sectPr/>"#,
        &[],
    );
    let (_, issues) = lines(&pkg);
    assert_eq!(
        issues,
        [
            "Duplicate w14:paraId \"X\" appears 2x in: [\"word/document.xml\", \"word/document.xml\"]",
            "Duplicate bookmarkStart id=\"7\" appears 2x",
        ]
    );
}

#[test]
fn targets_that_are_not_there_are_issues() {
    let pkg = package(
        r#"<w:p r:id="rId9"/><w:sectPr/>"#,
        &[(
            "word/_rels/document.xml.rels",
            r#"<Relationships><Relationship Id="rId1" Target="gone.xml"/><Relationship Id="rId2" Target="http://x" TargetMode="External"/></Relationships>"#,
        )],
    );
    let (_, issues) = lines(&pkg);
    assert_eq!(
        issues,
        [
            "Missing rel target \"gone.xml\" (resolved: \"word/gone.xml\") in word/_rels/document.xml.rels",
            "Body references 1 rId(s) not in document.xml.rels: [\"rId9\"]",
        ]
    );
}

#[test]
fn the_order_of_the_body_is_checked() {
    let (_, issues) = lines(&package("<w:sectPr/><w:p/>", &[]));
    assert_eq!(issues, ["Body <w:sectPr> is not the last child"]);
    let (_, issues) = lines(&package("<w:r/><w:b></w:b><w:sectPr/>", &[]));
    assert_eq!(
        issues,
        ["Body has unexpected element tags: [\"w:b\", \"w:r\"]"]
    );
    let (ok, _) = lines(&package("<w:p/>", &[]));
    assert!(ok.contains(&"Body structure valid (1 children, sectPr at end: false)".to_string()));
}

fn info(texts: &[(&str, Option<&str>)]) -> ParagraphInfo {
    let mut p = ParagraphInfo::default();
    for (text, rpr) in texts {
        let mut run = Run::default();
        run.text = text.to_string();
        run.rpr_xml = rpr.map(|r| r.as_bytes().to_vec());
        p.runs.push(run);
    }
    p
}

#[test]
fn untranslated_texts_stay() {
    let merged = merge_translations(
        &["a".to_string(), "b".to_string()],
        &[None, Some("B".to_string())],
    );
    assert_eq!(merged, ["a", "B"]);
}

#[test]
fn a_translation_takes_its_words_formats() {
    let p = info(&[("Hello ", None), ("bold", Some("<w:rPr><w:b/></w:rPr>"))]);
    assert!(needs_rebuild(&p, &Some("Hallo fett".to_string())));
    assert!(!needs_rebuild(&p, &None));
    let out = rebuild_paragraph(&p, "Hallo fett", &[(0, 0), (1, 1)]);
    let text: String = out.runs.iter().map(|r| r.text.as_str()).collect();
    assert_eq!(text, "Hallo fett");
    assert_eq!(out.runs.len(), 2);
    assert!(out.runs[1].rpr_xml.is_some());
}
