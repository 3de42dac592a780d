//! Content type detection: magic bytes first, the file name's extension where
//! the content alone is ambiguous.
use vstd::prelude::*;

use crate::filename::{
    extension_of, guess, guessed, office_type, office_type_by_extension, the_name_tells_the_kind,
};
use crate::text::{same_text, text_view};

verus! {

/// What kind of document a file is, as far as extraction cares.
#[derive(Debug, Clone, Copy, PartialEq, Eq, Structural)]
pub enum DocType {
    Unknown,
    Pdf,
    Docx,
    Xlsx,
    Pptx,
    Jpeg,
    Tiff,
    /// Plain text or source code, recognised by extension only.
    Text,
}

impl Default for DocType {
    fn default() -> (r: DocType)
        ensures
            r == DocType::Unknown,
    {
        DocType::Unknown
    }
}

impl DocType {
    /// The stored form.
    pub open spec fn text(self) -> Seq<char> {
        match self {
            DocType::Unknown => "unknown"@,
            DocType::Pdf => "pdf"@,
            DocType::Docx => "docx"@,
            DocType::Xlsx => "xlsx"@,
            DocType::Pptx => "pptx"@,
            DocType::Jpeg => "jpeg"@,
            DocType::Tiff => "tiff"@,
            DocType::Text => "text"@,
        }
    }

    /// The stored form: lower case, and stable between versions.
    pub fn as_str(self) -> (r: &'static str)
        ensures
            r@ == self.text(),
    {
        match self {
            DocType::Unknown => "unknown",
            DocType::Pdf => "pdf",
            DocType::Docx => "docx",
            DocType::Xlsx => "xlsx",
            DocType::Pptx => "pptx",
            DocType::Jpeg => "jpeg",
            DocType::Tiff => "tiff",
            DocType::Text => "text",
        }
    }
}

/// How many of a file's first bytes are looked at, however large the file is.
pub const SNIFF_LEN: usize = 8192;

/// The media type that `infer::get` tells from a file's first bytes.
pub uninterp spec fn media_type(head: Seq<u8>) -> Option<Seq<char>>;

/// `infer::get` compares the bytes with the signatures of the formats it
/// knows and gives the first that matches; which media type belongs to which
/// bytes is not stated. It follows skippable frames by recursion, so the
/// number of bytes is bounded.
#[verifier::external_body]
fn sniffed_media_type(head: &[u8]) -> (r: Option<String>)
    requires
        head@.len() <= SNIFF_LEN,
    ensures
        text_view(r) == media_type(head@),
{
    infer::get(head).map(|kind| kind.mime_type().to_string())
}

/// The document that a media type stands for, together with the extension of
/// the file's name: the three office formats look like any other zip archive.
pub open spec fn document_of(media: Option<Seq<char>>, ext: Option<Seq<char>>) -> DocType {
    match media {
        Some(m) => if m == "application/pdf"@ {
            DocType::Pdf
        } else if m == "image/jpeg"@ {
            DocType::Jpeg
        } else if m == "image/tiff"@ {
            DocType::Tiff
        } else if m == "application/zip"@ && office_type(ext) is Some {
            office_type(ext).unwrap()
        } else {
            guessed(ext)
        },
        None => guessed(ext),
    }
}

/// The document that a file is, from the media type of its content and from
/// its path.
pub fn classify(media: &Option<String>, path: &str) -> (r: DocType)
    ensures
        r == document_of(text_view(*media), extension_of(path@)),
{
    if let Some(m) = media {
        let m = m.as_str();
        if same_text(m, "application/pdf") {
            return DocType::Pdf;
        }
        if same_text(m, "image/jpeg") {
            return DocType::Jpeg;
        }
        if same_text(m, "image/tiff") {
            return DocType::Tiff;
        }
        if same_text(m, "application/zip") {
            if let Some(office) = office_type_by_extension(path) {
                return office;
            }
        }
    }
    guess(path)
}

/// Determine a file's type from its first bytes and its path.
pub fn sniff(head: &[u8], path: &str) -> (r: DocType)
    requires
        head@.len() <= SNIFF_LEN,
    ensures
        r == document_of(media_type(head@), extension_of(path@)),
{
    let media = sniffed_media_type(head);
    classify(&media, path)
}

/// No two kinds of document have the same stored form.
pub proof fn stored_document_types_are_distinct(a: DocType, b: DocType)
    ensures
        a.text() == b.text() ==> a == b,
{
    reveal_strlit("unknown");
    reveal_strlit("pdf");
    reveal_strlit("docx");
    reveal_strlit("xlsx");
    reveal_strlit("pptx");
    reveal_strlit("jpeg");
    reveal_strlit("tiff");
    reveal_strlit("text");
    if a != b {
        assert(a.text().len() != b.text().len() || a.text()[0] != b.text()[0] || a.text()[1]
            != b.text()[1]);
    }
}

/// What the content shows decides before the name: a PDF and the two kinds of image are
/// told by their bytes, whatever the file is called. Everything else, a zip archive too,
/// is what its name says.
pub proof fn the_content_decides_before_the_name(media: Option<Seq<char>>, ext: Option<Seq<char>>)
    ensures
        document_of(Some("application/pdf"@), ext) == DocType::Pdf,
        document_of(Some("image/jpeg"@), ext) == DocType::Jpeg,
        document_of(Some("image/tiff"@), ext) == DocType::Tiff,
        media != Some("application/pdf"@) && media != Some("image/jpeg"@) && media != Some(
            "image/tiff"@,
        ) ==> document_of(media, ext) == guessed(ext),
{
    reveal_strlit("application/pdf");
    reveal_strlit("image/jpeg");
    reveal_strlit("image/tiff");
    assert("application/pdf"@.len() == 15 && "image/jpeg"@.len() == 10 && "image/tiff"@.len()
        == 10);
    assert("image/jpeg"@[6] == 'j' && "image/tiff"@[6] == 't');
    if ext is Some {
        the_name_tells_the_kind(ext->0);
    }
}

} // verus!
