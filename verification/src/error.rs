//! Errors of document conversion.
use vstd::prelude::*;

verus! {

/// An I/O error (`std::io::Error`), carried through unchanged.
#[verifier::external_type_specification]
#[verifier::external_body]
pub struct ExIoError(std::io::Error);

/// An error of the ZIP container (`zip::result::ZipError`), carried through
/// unchanged.
#[verifier::external_type_specification]
#[verifier::external_body]
pub struct ExZipError(zip::result::ZipError);

/// Why a document could not be converted.
#[derive(Debug)]
pub enum DocxToImageError {
    /// No usable conversion tool was found; the message says what to install.
    NoTool(String),
    /// An external tool exited unsuccessfully.
    CommandFailed { cmd: String, code: i32, stderr: String },
    /// Reading or writing a file failed.
    Io(std::io::Error),
    /// An image could not be decoded.
    Image(String),
    /// The DOCX container could not be read or written.
    Zip(zip::result::ZipError),
    /// No usable font was found.
    Font(String),
}

} // verus!
