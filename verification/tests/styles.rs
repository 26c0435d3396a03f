//! Classes of styles and their mapping to a blueprint's styles.

use crisp_docx::names::NameMap;
use crisp_docx::{classify_style, SemanticClass, StyleIndex, StyleInfo, StyleMapper};


fn index_with(styles: &[(&str, u8, Option<u8>)]) -> StyleIndex {
    let mut idx = StyleIndex::default();
    for (name, type_val, outline_level) in styles {
        idx.styles.insert(
            name.to_string(),
            StyleInfo {
                name: name.to_string(),
                style_id: name.to_string(),
                type_val: *type_val,
                outline_level: *outline_level,
            },
        );
        idx.id_to_name.insert(name.to_string(), name.to_string());
        idx.name_to_id.insert(name.to_string(), name.to_string());
    }
    idx
}

#[test]
fn outline_level_drives_heading_assignments() {
    let idx = index_with(&[
        ("Normal", 1, None),
        ("Heading1Char", 2, Some(0)), // character style — must be ignored
        ("Heading 1", 1, Some(0)),
        ("Heading 2", 1, Some(1)),
        ("MyH3", 1, Some(2)),
    ]);
    let mapper = StyleMapper::new(&idx, NameMap::new());
    assert_eq!(mapper.bp_headings().get(&1), Some(&"Heading 1".to_string()));
    assert_eq!(mapper.bp_headings().get(&2), Some(&"Heading 2".to_string()));
    assert_eq!(mapper.bp_headings().get(&3), Some(&"MyH3".to_string()));
}

#[test]
fn semantic_class_fills_gaps() {
    let idx = index_with(&[
        ("Normal", 1, None),
        ("Title", 1, None),
        ("Footnote Text", 1, None),
        ("Caption", 1, None),
        ("Quote", 1, None),
    ]);
    let mapper = StyleMapper::new(&idx, NameMap::new());
    assert_eq!(mapper.bp_title(), Some("Title"));
    assert_eq!(mapper.bp_body(), Some("Normal"));
}

#[test]
fn user_override_wins_if_target_exists() {
    let idx = index_with(&[("Normal", 1, None), ("Heading 1", 1, Some(0))]);
    let mut overrides: NameMap<String> = NameMap::new();
    overrides.insert("SrcStyle".to_string(), "Heading 1".to_string());
    let mapper = StyleMapper::new(&idx, overrides);
    let result = mapper.map("SrcStyle", &SemanticClass::Unknown, 0);
    assert_eq!(result, "Heading 1");
}

#[test]
fn user_override_ignored_if_target_missing() {
    let idx = index_with(&[("Normal", 1, None), ("Heading 1", 1, Some(0))]);
    let mut overrides: NameMap<String> = NameMap::new();
    overrides.insert("SrcStyle".to_string(), "DoesNotExist".to_string());
    let mapper = StyleMapper::new(&idx, overrides);
    let result = mapper.map("SrcStyle", &SemanticClass::Body, 0);
    // Should fall back to Normal (bp_body).
    assert_eq!(result, "Normal");
}

#[test]
fn heading_reclassification_uses_blueprint_heading() {
    let idx = index_with(&[
        ("Normal", 1, None),
        ("Heading 1", 1, Some(0)),
        ("Heading 2", 1, Some(1)),
    ]);
    let mapper = StyleMapper::new(&idx, NameMap::new());
    // Source paragraph styled "Normal" but reclassified as Heading 2:
    let result = mapper.map("Normal", &SemanticClass::Heading(2), 2);
    assert_eq!(result, "Heading 2");
}

#[test]
fn heading_falls_back_to_adjacent_level() {
    let idx = index_with(&[
        ("Normal", 1, None),
        ("Heading 1", 1, Some(0)),
        // No H4 in blueprint
        ("Heading 5", 1, Some(4)),
    ]);
    let mapper = StyleMapper::new(&idx, NameMap::new());
    let result = mapper.map("Foo", &SemanticClass::Heading(4), 4);
    // adj +1 = 5 ✓
    assert_eq!(result, "Heading 5");
}

#[test]
fn exact_name_match_for_non_heading() {
    let idx = index_with(&[("Normal", 1, None), ("BodyText", 1, None)]);
    let mapper = StyleMapper::new(&idx, NameMap::new());
    assert_eq!(
        mapper.map("BodyText", &SemanticClass::Unknown, 0),
        "BodyText"
    );
}

#[test]
fn case_insensitive_match() {
    let idx = index_with(&[("Normal", 1, None), ("BodyText", 1, None)]);
    let mapper = StyleMapper::new(&idx, NameMap::new());
    assert_eq!(
        mapper.map("bodytext", &SemanticClass::Unknown, 0),
        "BodyText"
    );
}

#[test]
fn fallback_to_body_when_no_match() {
    let idx = index_with(&[("Normal", 1, None)]);
    let mapper = StyleMapper::new(&idx, NameMap::new());
    let result = mapper.map("Whatever", &SemanticClass::Unknown, 0);
    assert_eq!(result, "Normal");
}

#[test]
fn fallback_uses_first_para_style_when_no_normal() {
    let idx = index_with(&[("OnlyStyle", 1, None)]);
    let mapper = StyleMapper::new(&idx, NameMap::new());
    let result = mapper.map("Whatever", &SemanticClass::Unknown, 0);
    assert_eq!(result, "OnlyStyle");
}

#[test]
fn parses_styles_xml() {
    let xml = br#"<?xml version="1.0" encoding="UTF-8" standalone="yes"?><w:styles xmlns:w="http://schemas.openxmlformats.org/wordprocessingml/2006/main"><w:style w:type="paragraph" w:styleId="Heading1"><w:name w:val="Heading 1"/><w:basedOn w:val="Normal"/><w:pPr><w:outlineLvl w:val="0"/></w:pPr></w:style><w:style w:type="paragraph" w:styleId="Normal"><w:name w:val="Normal"/></w:style><w:style w:type="character" w:styleId="FootnoteReference"><w:name w:val="Footnote Reference"/></w:style></w:styles>"#;
    let idx = StyleIndex::from_styles_xml(xml).unwrap();
    assert!(idx.styles.contains_key("Heading 1"));
    assert!(idx.styles.contains_key("Normal"));
    let h1 = idx.styles.get("Heading 1").unwrap();
    assert_eq!(h1.type_val, 1);
    assert_eq!(h1.outline_level, Some(0));
}


fn class_of(name: &str) -> (String, u8) {
    let c = classify_style(name);
    (c.class.as_str(), c.heading_level)
}

#[test]
fn english_heading_levels() {
    assert_eq!(class_of("Heading 1"), ("heading1".into(), 1));
    assert_eq!(class_of("Heading 2"), ("heading2".into(), 2));
    assert_eq!(class_of("heading 9"), ("heading9".into(), 9));
    assert_eq!(class_of("H1"), ("heading1".into(), 1));
    assert_eq!(class_of("Heading 1 Char"), ("heading1".into(), 1));
}

#[test]
fn multilingual_headings() {
    assert_eq!(class_of("Überschrift 1"), ("heading1".into(), 1));
    assert_eq!(class_of("Titre 2"), ("heading2".into(), 2));
    assert_eq!(class_of("заголовок 3"), ("heading3".into(), 3));
    assert_eq!(class_of("Kop 1"), ("heading1".into(), 1));
}

#[test]
fn heading_regex_with_separators_and_zeros() {
    assert_eq!(class_of("Heading_02"), ("heading2".into(), 2));
    assert_eq!(class_of("Ueberschrift_01"), ("heading1".into(), 1));
    assert_eq!(class_of("Titolo3"), ("heading3".into(), 3));
    assert_eq!(class_of("Titre2"), ("heading2".into(), 2));
}

#[test]
fn title() {
    assert_eq!(class_of("Title"), ("title".into(), 0));
    assert_eq!(class_of("DocumentTitle"), ("title".into(), 0));
}

#[test]
fn body_class() {
    assert_eq!(class_of("Normal"), ("body".into(), 0));
    assert_eq!(class_of("Body Text"), ("body".into(), 0));
    assert_eq!(class_of("Fließtext"), ("body".into(), 0));
}

#[test]
fn footnote() {
    assert_eq!(class_of("Footnote Text"), ("footnote".into(), 0));
    assert_eq!(class_of("Fußnotentext"), ("footnote".into(), 0));
}

#[test]
fn caption() {
    assert_eq!(class_of("Caption"), ("caption".into(), 0));
    assert_eq!(class_of("Bildunterschrift"), ("caption".into(), 0));
}

#[test]
fn blockquote() {
    assert_eq!(class_of("Quote"), ("blockquote".into(), 0));
    assert_eq!(class_of("Intense Quote"), ("blockquote".into(), 0));
}

#[test]
fn abstract_class() {
    assert_eq!(class_of("Abstract"), ("abstract".into(), 0));
    assert_eq!(class_of("Zusammenfassung"), ("abstract".into(), 0));
}

#[test]
fn unknown() {
    assert_eq!(class_of("MyRandomStyle"), ("unknown".into(), 0));
    assert_eq!(class_of("RuntimeBlah"), ("unknown".into(), 0));
}
