//! The error types that the conversion surfaces, together with their
//! specification-level models.

use vstd::prelude::*;

verus! {

/// A content document that is not well-formed XML, carrying the
/// underlying parser's description of the failure.
#[derive(Debug, PartialEq, Eq)]
pub struct XmlParseError {
    pub message: String,
}

impl View for XmlParseError {
    type V = Seq<char>;

    open spec fn view(&self) -> Seq<char> {
        self.message@
    }
}

/// The failure kinds of the underlying ZIP reader.
#[derive(Debug, PartialEq, Eq)]
pub enum ZipErrorKind {
    /// An I/O failure while reading an entry.
    Io,
    /// An entry whose data could not be decoded as UTF-8 text (or whose
    /// data stream was invalid).
    InvalidText,
    /// The bytes are probably not a ZIP archive.
    InvalidArchive,
    /// The archive uses a feature the reader does not support.
    UnsupportedArchive,
    /// The requested entry is not in the archive.
    FileNotFound,
}

/// Failure scenarios for a malformatted EPUB file that is a valid ZIP file.
#[derive(Debug, PartialEq, Eq)]
pub enum MalformattedEpubError {
    /// Malformatted or missing `container.xml` file.
    MalformattedContainer,
    /// Malformatted package document.
    MalformattedContentOpf,
    /// Malformatted navigation document, with a description.
    MalformattedTocNcx(String),
    /// Malformatted manifest or missing resources.
    MalformattedManifest,
    /// A content file that could not be processed: its path, and the
    /// underlying parse failure's description.
    MalformattedHTML(String, String),
}

/// The top-level error type that captures all failure scenarios of the
/// conversion.
#[derive(Debug, PartialEq, Eq)]
pub enum ParseError {
    /// An error in the underlying ZIP archive.
    ZipError(ZipErrorKind),
    /// A structurally malformatted EPUB.
    EpubError(MalformattedEpubError),
}

/// The model of `MalformattedEpubError`, with text as character sequences.
pub enum EpubErrV {
    Container,
    ContentOpf,
    TocNcx(Seq<char>),
    Manifest,
    Html(Seq<char>, Seq<char>),
}

/// The model of `ParseError`. Which ZIP failure kind occurred is not part
/// of the model: it is whatever the ZIP reader reported.
pub enum ParseErrV {
    Zip,
    Epub(EpubErrV),
}

impl View for MalformattedEpubError {
    type V = EpubErrV;

    open spec fn view(&self) -> EpubErrV {
        match self {
            MalformattedEpubError::MalformattedContainer => EpubErrV::Container,
            MalformattedEpubError::MalformattedContentOpf => EpubErrV::ContentOpf,
            MalformattedEpubError::MalformattedTocNcx(s) => EpubErrV::TocNcx(s@),
            MalformattedEpubError::MalformattedManifest => EpubErrV::Manifest,
            MalformattedEpubError::MalformattedHTML(s, m) => EpubErrV::Html(s@, m@),
        }
    }
}

impl View for ParseError {
    type V = ParseErrV;

    open spec fn view(&self) -> ParseErrV {
        match self {
            ParseError::ZipError(_) => ParseErrV::Zip,
            ParseError::EpubError(e) => ParseErrV::Epub(e@),
        }
    }
}

} // verus!
