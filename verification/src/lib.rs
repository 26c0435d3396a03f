//! Surgery on `.docx` packages, and the pure parts of a pipeline that translates them.
//!
//! A [`Package`] is a zip archive of named parts, most of them XML. The operations here
//! rewrite those parts event by event: every event that an operation has no business with
//! is written back as it was read. What an operation does is stated over the events of the
//! parts that it reads and the bytes of the parts that it writes.
//!
//! [`align`] transfers formatting from a text to its translation, [`llm`] decides what
//! providers of translations are asked and what their replies mean, and [`translate`] puts
//! translations into paragraphs.

pub mod align;
pub mod blueprint;
pub mod blueprint_laws;
pub mod bytes;
pub mod capture_laws;
pub mod check;
pub mod check_laws;
pub mod clean_runs;
pub mod cleaning_laws;
pub mod conversion_laws;
pub mod error;
pub mod footnote_form;
pub mod footnote_format;
pub mod footnote_laws;
pub mod heading_inference;
pub mod heading_laws;
pub mod injection_laws;
pub mod inline_md;
pub mod joined;
pub mod llm;
pub mod mapping_laws;
pub mod markdown_laws;
pub mod names;
pub mod normalize_tags;
pub mod note_injection;
pub mod note_laws;
pub mod notes_file;
pub mod notes_kind;
pub mod ns;
pub mod package;
pub mod paragraph_laws;
pub mod paragraph_runs;
pub mod paragraph_text;
pub mod quote_laws;
pub mod quote_style;
pub mod reading_laws;
pub mod rels;
pub mod rsid_strip;
pub mod run_laws;
pub mod run_texts;
pub mod separator_laws;
pub mod story;
pub mod strip_paragraph_bold;
pub mod style_classify;
pub mod style_laws;
pub mod style_mapper;
pub mod substitution;
pub mod text;
pub mod translate;
pub mod transplant;
pub mod wellformed;
pub mod xml;

pub use blueprint::{analyze_blueprint, BlueprintSchema, SectionInfo};
pub use check::{check_package, CheckReport};
pub use clean_runs::clean_runs;
pub use error::Error;
pub use footnote_format::{apply_footnote_format, extract_footnote_format, FootnoteFormat};
pub use heading_inference::{apply_heading_inferences, HeadingInference};
pub use normalize_tags::normalize_tags;
pub use note_injection::{inject_footnotes, InjectionReport};
pub use notes_file::{read_notes, NotesError};
pub use notes_kind::{convert_notes_kind, NotesKind};
pub use package::Package;
pub use paragraph_runs::{extract_paragraphs, replace_paragraphs, ParagraphInfo, Run};
pub use paragraph_text::{extract_paragraph_texts, replace_paragraph_texts};
pub use quote_style::{
    normalize_quotes, normalize_quotes_in_package, QuoteOptions, QuoteReport, QuoteStyle,
};
pub use rsid_strip::strip_rsids;
pub use strip_paragraph_bold::strip_paragraph_bold;
pub use style_classify::{classify_style, SemanticClass, StyleClassification};
pub use style_mapper::{apply_style_mapping, StyleIndex, StyleInfo, StyleMapper};
pub use transplant::transplant_body;
