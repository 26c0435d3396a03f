//! Failures of the package operations.

use quick_xml::Error as XmlError;
use std::io::Error as IoError;
use vstd::prelude::*;

verus! {

/// `quick_xml::Error`, carried through unopened.
#[verifier::external_type_specification]
#[verifier::external_body]
pub struct ExXmlError(XmlError);

/// `zip::result::ZipError`, carried through unopened.
#[verifier::external_type_specification]
#[verifier::external_body]
pub struct ExZipError(zip::result::ZipError);

/// `std::io::Error`, carried through unopened.
#[verifier::external_type_specification]
#[verifier::external_body]
pub struct ExIoError(IoError);

/// All failures the package operations can produce.
///
/// The variants are coarse on purpose: most callers want to know whether the
/// document survived the operation, not which element tripped a parse.
#[allow(inconsistent_fields)]
#[derive(Debug)]
pub enum Error {
    /// I/O error reading or writing the docx zip on disk.
    Io { path: String, source: std::io::Error },
    /// The file exists but is not a usable docx package.
    InvalidPackage { path: String, reason: String },
    /// A zip-level error.
    Zip(zip::result::ZipError),
    /// An XML parse error while reading a part.
    XmlParse { part: String, source: quick_xml::Error },
    /// A bare I/O error not tied to a known path.
    Plain(std::io::Error),
}

impl Error {
    /// An XML parse failure in the part named `part`.
    pub open spec fn is_xml_parse(self, part: Seq<char>) -> bool {
        self matches Error::XmlParse { part: p, .. } && p@ == part
    }
}

} // verus!
