//! Names of OOXML parts, relationship types and content types.

use vstd::prelude::*;

verus! {

/// The main story.
pub const PART_DOCUMENT: &'static str = "word/document.xml";

/// The footnotes.
pub const PART_FOOTNOTES: &'static str = "word/footnotes.xml";

/// The endnotes.
pub const PART_ENDNOTES: &'static str = "word/endnotes.xml";

/// The styles.
pub const PART_STYLES: &'static str = "word/styles.xml";

/// The settings.
pub const PART_SETTINGS: &'static str = "word/settings.xml";

/// The relationships of the main story.
pub const PART_DOCUMENT_RELS: &'static str = "word/_rels/document.xml.rels";

/// The content types of the package.
pub const PART_CONTENT_TYPES: &'static str = "[Content_Types].xml";

/// Content type of the footnotes part.
pub const CT_FOOTNOTES: &'static str =
    "application/vnd.openxmlformats-officedocument.wordprocessingml.footnotes+xml";

/// Content type of the endnotes part.
pub const CT_ENDNOTES: &'static str =
    "application/vnd.openxmlformats-officedocument.wordprocessingml.endnotes+xml";

/// Relationship type of the footnotes part.
pub const REL_TYPE_FOOTNOTES: &'static str =
    "http://schemas.openxmlformats.org/officeDocument/2006/relationships/footnotes";

/// Relationship type of the endnotes part.
pub const REL_TYPE_ENDNOTES: &'static str =
    "http://schemas.openxmlformats.org/officeDocument/2006/relationships/endnotes";

} // verus!
