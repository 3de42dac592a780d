//! What can be derived mechanically from a file: its type, the text and
//! properties that its format holds, and facts of the repository it lies in.
use vstd::prelude::*;

use crate::filename::extension_of;
use crate::image::{extract_image, is_image_outcome};
use crate::metadata::FileMetadata;
use crate::office::{
    extract_docx, extract_pptx, extract_xlsx, is_docx_outcome, is_pptx_outcome, is_xlsx_outcome,
};
use crate::sniff::{document_of, media_type, sniff, DocType, SNIFF_LEN};
use crate::text::{cut_text, first_chars, text_view};

verus! {

/// Raised whenever extraction changes in a way that makes earlier results worth
/// replacing.
pub const EXTRACTOR_VERSION: u32 = 1;

/// At most this many bytes of a file are read.
pub const MAX_EXTRACT_BYTES: u64 = 67_108_864;

/// At most this many characters of a file's text are kept.
pub const MAX_BODY_TEXT_CHARS: usize = 8_000;

/// Metadata extracted from one file.
#[derive(Debug, PartialEq)]
pub struct Extraction {
    pub doc_type: DocType,
    pub title: Option<String>,
    pub author: Option<String>,
    pub language: Option<String>,
    pub page_count: Option<i64>,
    pub word_count: Option<i64>,
    pub image_taken_at_unix: Option<i64>,
    pub image_camera_model: Option<String>,
    pub git_branch: Option<String>,
    pub git_head_commit: Option<String>,
    pub git_head_author: Option<String>,
    pub git_head_at_unix: Option<i64>,
    pub body_text: Option<String>,
}

/// An extraction that found nothing.
pub open spec fn nothing_found() -> Extraction {
    Extraction {
        doc_type: DocType::Unknown,
        title: None,
        author: None,
        language: None,
        page_count: None,
        word_count: None,
        image_taken_at_unix: None,
        image_camera_model: None,
        git_branch: None,
        git_head_commit: None,
        git_head_author: None,
        git_head_at_unix: None,
        body_text: None,
    }
}

impl Default for Extraction {
    fn default() -> (r: Extraction)
        ensures
            r == nothing_found(),
    {
        Extraction {
            doc_type: DocType::Unknown,
            title: None,
            author: None,
            language: None,
            page_count: None,
            word_count: None,
            image_taken_at_unix: None,
            image_camera_model: None,
            git_branch: None,
            git_head_commit: None,
            git_head_author: None,
            git_head_at_unix: None,
            body_text: None,
        }
    }
}

/// Cut a text to its first [`MAX_BODY_TEXT_CHARS`] characters.
pub fn cap_body_text(text: &str) -> (r: String)
    ensures
        r@ == first_chars(text@, MAX_BODY_TEXT_CHARS as nat),
{
    cut_text(text, MAX_BODY_TEXT_CHARS)
}

/// Whether a kind of document is extracted from the file's content.
pub open spec fn reads_content(doc_type: DocType) -> bool {
    doc_type != DocType::Unknown && doc_type != DocType::Text && doc_type != DocType::Pdf
}

/// Whether a kind of document is extracted from the file's content. What a PDF
/// holds is extracted elsewhere.
pub fn needs_bytes(doc_type: DocType) -> (r: bool)
    ensures
        r == reads_content(doc_type),
{
    match doc_type {
        DocType::Unknown | DocType::Text | DocType::Pdf => false,
        _ => true,
    }
}

/// Whether `r` is the outcome of extracting the content of a file of the given
/// kind.
pub open spec fn is_content_outcome(
    r: Result<Extraction, String>,
    doc_type: DocType,
    bytes: Seq<u8>,
) -> bool {
    match doc_type {
        DocType::Jpeg | DocType::Tiff => is_image_outcome(r, bytes),
        DocType::Docx => is_docx_outcome(r, bytes),
        DocType::Xlsx => is_xlsx_outcome(r, bytes),
        DocType::Pptx => is_pptx_outcome(r, bytes),
        DocType::Pdf | DocType::Unknown | DocType::Text => match r {
            Ok(e) => e == nothing_found(),
            Err(_) => false,
        },
    }
}

/// Extract the content of a file of the given kind.
pub fn extract_content(doc_type: DocType, bytes: &[u8]) -> (r: Result<Extraction, String>)
    ensures
        is_content_outcome(r, doc_type, bytes@),
{
    match doc_type {
        DocType::Jpeg | DocType::Tiff => extract_image(bytes),
        DocType::Docx => extract_docx(bytes),
        DocType::Xlsx => extract_xlsx(bytes),
        DocType::Pptx => extract_pptx(bytes),
        DocType::Pdf | DocType::Unknown | DocType::Text => Ok(Extraction::default()),
    }
}

/// Facts of the repository that a file lies in.
#[derive(Debug, PartialEq)]
pub struct GitFacts {
    pub branch: Option<String>,
    pub head_commit: Option<String>,
    pub head_author: Option<String>,
    pub head_at_unix: Option<i64>,
}

/// An extraction with the facts of a repository; without any it stays as it is.
pub open spec fn with_git_facts(e: Extraction, facts: Option<GitFacts>) -> Extraction {
    match facts {
        Some(f) => Extraction {
            git_branch: f.branch,
            git_head_commit: f.head_commit,
            git_head_author: f.head_author,
            git_head_at_unix: f.head_at_unix,
            ..e
        },
        None => e,
    }
}

/// Add the facts of a file's repository, where there are any. They do not
/// depend on the kind of document.
pub fn merge_git_facts(extraction: &mut Extraction, facts: Option<GitFacts>)
    ensures
        *final(extraction) == with_git_facts(*old(extraction), facts),
{
    if let Some(f) = facts {
        extraction.git_branch = f.branch;
        extraction.git_head_commit = f.head_commit;
        extraction.git_head_author = f.head_author;
        extraction.git_head_at_unix = f.head_at_unix;
    }
}

/// Extraction failed. The file stays queued for another attempt.
#[derive(Debug)]
pub enum ExtractError {
    /// The file could not be read.
    Io { path: String, reason: String },
    /// The extractor gave up in the middle.
    Panicked { doc_type: DocType, path: String },
    /// The content is not what its type promises.
    Malformed { doc_type: DocType, path: String, reason: String },
}

/// The name of a kind of document in messages.
pub open spec fn kind_name(doc_type: DocType) -> Seq<char> {
    match doc_type {
        DocType::Unknown => "Unknown"@,
        DocType::Pdf => "Pdf"@,
        DocType::Docx => "Docx"@,
        DocType::Xlsx => "Xlsx"@,
        DocType::Pptx => "Pptx"@,
        DocType::Jpeg => "Jpeg"@,
        DocType::Tiff => "Tiff"@,
        DocType::Text => "Text"@,
    }
}

fn name_of_type(doc_type: DocType) -> (r: &'static str)
    ensures
        r@ == kind_name(doc_type),
{
    match doc_type {
        DocType::Unknown => "Unknown",
        DocType::Pdf => "Pdf",
        DocType::Docx => "Docx",
        DocType::Xlsx => "Xlsx",
        DocType::Pptx => "Pptx",
        DocType::Jpeg => "Jpeg",
        DocType::Tiff => "Tiff",
        DocType::Text => "Text",
    }
}

impl ExtractError {
    /// The failure in words.
    pub open spec fn words(self) -> Seq<char> {
        match self {
            ExtractError::Io { path, reason } => "reading "@ + path@ + ": "@ + reason@,
            ExtractError::Panicked { doc_type, path } => kind_name(doc_type)
                + " extractor panicked on "@ + path@,
            ExtractError::Malformed { doc_type, path, reason } => kind_name(doc_type)
                + " extractor failed on "@ + path@ + ": "@ + reason@,
        }
    }

    /// The failure in words.
    pub fn message(&self) -> (r: String)
        ensures
            r@ == self.words(),
    {
        let mut out = String::new();
        match self {
            ExtractError::Io { path, reason } => {
                out.append("reading ");
                out.append(path.as_str());
                out.append(": ");
                out.append(reason.as_str());
            },
            ExtractError::Panicked { doc_type, path } => {
                out.append(name_of_type(*doc_type));
                out.append(" extractor panicked on ");
                out.append(path.as_str());
            },
            ExtractError::Malformed { doc_type, path, reason } => {
                out.append(name_of_type(*doc_type));
                out.append(" extractor failed on ");
                out.append(path.as_str());
                out.append(": ");
                out.append(reason.as_str());
            },
        }
        assert(out@ =~= self.words());
        out
    }
}

/// Whether `r` is the outcome for a file once its content was extracted with
/// the given result.
pub open spec fn is_finished(
    r: Result<Extraction, ExtractError>,
    doc_type: DocType,
    path: Seq<char>,
    content: Result<Extraction, String>,
    facts: Option<GitFacts>,
) -> bool {
    match content {
        Ok(e) => match r {
            Ok(found) => found == with_git_facts(Extraction { doc_type, ..e }, facts),
            Err(_) => false,
        },
        Err(reason) => match r {
            Err(ExtractError::Malformed { doc_type: kind, path: p, reason: why }) => kind == doc_type
                && p@ == path && why@ == reason@,
            _ => false,
        },
    }
}

/// Turn the result of extracting a file's content into the outcome for the
/// file.
pub fn finish_extraction(
    doc_type: DocType,
    path: &str,
    content: Result<Extraction, String>,
    facts: Option<GitFacts>,
) -> (r: Result<Extraction, ExtractError>)
    ensures
        is_finished(r, doc_type, path@, content, facts),
{
    match content {
        Ok(e) => {
            let mut found = e;
            found.doc_type = doc_type;
            merge_git_facts(&mut found, facts);
            Ok(found)
        },
        Err(reason) => Err(ExtractError::Malformed { doc_type, path: path.to_owned(), reason }),
    }
}

/// Sniff and extract in one: from the first bytes of a file its kind, from its
/// bytes what that kind holds, and the facts of its repository on top.
pub fn extract(path: &str, head: &[u8], bytes: &[u8], facts: Option<GitFacts>) -> (r: Result<
    Extraction,
    ExtractError,
>)
    requires
        head@.len() <= SNIFF_LEN,
    ensures
        exists|content: Result<Extraction, String>|
            #![trigger is_content_outcome(
                content,
                document_of(media_type(head@), extension_of(path@)),
                bytes@,
            )]
            is_content_outcome(
                content,
                document_of(media_type(head@), extension_of(path@)),
                bytes@,
            ) && is_finished(
                r,
                document_of(media_type(head@), extension_of(path@)),
                path@,
                content,
                facts,
            ),
{
    let doc_type = sniff(head, path);
    let content = extract_content(doc_type, bytes);
    finish_extraction(doc_type, path, content, facts)
}

/// Whether metadata says what an extraction says.
pub open spec fn is_metadata_of(
    m: FileMetadata,
    e: Extraction,
    extracted_at_unix: i64,
) -> bool {
    &&& text_view(m.doc_type) == Some(e.doc_type.text())
    &&& m == (FileMetadata {
        doc_type: m.doc_type,
        title: e.title,
        author: e.author,
        language: e.language,
        page_count: e.page_count,
        word_count: e.word_count,
        image_taken_at_unix: e.image_taken_at_unix,
        image_camera_model: e.image_camera_model,
        git_branch: e.git_branch,
        git_head_commit: e.git_head_commit,
        git_head_author: e.git_head_author,
        git_head_at_unix: e.git_head_at_unix,
        body_text: e.body_text,
        extracted_at_unix,
        extractor_version: EXTRACTOR_VERSION,
    })
}

/// The form in which an extraction is stored.
pub fn to_file_metadata(extraction: Extraction, extracted_at_unix: i64) -> (r: FileMetadata)
    ensures
        is_metadata_of(r, extraction, extracted_at_unix),
{
    FileMetadata {
        doc_type: Some(extraction.doc_type.as_str().to_owned()),
        title: extraction.title,
        author: extraction.author,
        language: extraction.language,
        page_count: extraction.page_count,
        word_count: extraction.word_count,
        image_taken_at_unix: extraction.image_taken_at_unix,
        image_camera_model: extraction.image_camera_model,
        git_branch: extraction.git_branch,
        git_head_commit: extraction.git_head_commit,
        git_head_author: extraction.git_head_author,
        git_head_at_unix: extraction.git_head_at_unix,
        body_text: extraction.body_text,
        extracted_at_unix,
        extractor_version: EXTRACTOR_VERSION,
    }
}

// Laws.

/// What is found in a file's content is what is said of the file, with its kind. The facts
/// of its repository are added, and take the place of nothing else. Content that cannot be
/// read is an error that says why, and the only one.
pub proof fn a_file_says_what_its_content_and_its_repository_say(
    r: Result<Extraction, ExtractError>,
    doc_type: DocType,
    path: Seq<char>,
    content: Result<Extraction, String>,
    facts: Option<GitFacts>,
)
    requires
        is_finished(r, doc_type, path, content, facts),
    ensures
        r is Ok <==> content is Ok,
        content matches Ok(e) ==> {
            let found = r->Ok_0;
            &&& found.doc_type == doc_type
            &&& found.title == e.title
            &&& found.author == e.author
            &&& found.language == e.language
            &&& found.page_count == e.page_count
            &&& found.word_count == e.word_count
            &&& found.image_taken_at_unix == e.image_taken_at_unix
            &&& found.image_camera_model == e.image_camera_model
            &&& found.body_text == e.body_text
            &&& facts is None ==> found.git_branch == e.git_branch && found.git_head_commit
                == e.git_head_commit && found.git_head_author == e.git_head_author
                && found.git_head_at_unix == e.git_head_at_unix
            &&& facts matches Some(f) ==> found.git_branch == f.branch && found.git_head_commit
                == f.head_commit && found.git_head_author == f.head_author
                && found.git_head_at_unix == f.head_at_unix
        },
        content matches Err(reason) ==> {
            &&& r->Err_0 matches ExtractError::Malformed { doc_type: kind, path: p, reason: why }
            &&& kind == doc_type
            &&& p@ == path
            &&& why@ == reason@
        },
{
}

/// What is stored of a file is what was found, each thing in its place, with when it was
/// found and by which version.
pub proof fn what_is_stored_is_what_was_found(m: FileMetadata, e: Extraction, at: i64)
    requires
        is_metadata_of(m, e, at),
    ensures
        text_view(m.doc_type) == Some(e.doc_type.text()),
        m.title == e.title,
        m.author == e.author,
        m.language == e.language,
        m.page_count == e.page_count,
        m.word_count == e.word_count,
        m.image_taken_at_unix == e.image_taken_at_unix,
        m.image_camera_model == e.image_camera_model,
        m.git_branch == e.git_branch,
        m.git_head_commit == e.git_head_commit,
        m.git_head_author == e.git_head_author,
        m.git_head_at_unix == e.git_head_at_unix,
        m.body_text == e.body_text,
        m.extracted_at_unix == at,
        m.extractor_version == 1,
{
}

/// Only office documents and images are read. What comes of any other file does not
/// depend on its bytes: nothing is found in it, and nothing goes wrong.
pub proof fn only_documents_and_images_are_read(
    r: Result<Extraction, String>,
    doc_type: DocType,
    bytes: Seq<u8>,
)
    ensures
        reads_content(doc_type) <==> doc_type == DocType::Docx || doc_type == DocType::Xlsx
            || doc_type == DocType::Pptx || doc_type == DocType::Jpeg || doc_type == DocType::Tiff,
        !reads_content(doc_type) ==> (is_content_outcome(r, doc_type, bytes) <==> r == Ok::<
            Extraction,
            String,
        >(nothing_found())),
{
}

/// Of a text the first eight thousand characters are kept, and all of a shorter one.
pub proof fn a_text_is_kept_up_to_its_limit(text: Seq<char>)
    ensures
        first_chars(text, MAX_BODY_TEXT_CHARS as nat).is_prefix_of(text),
        first_chars(text, MAX_BODY_TEXT_CHARS as nat).len() == (if text.len() < 8000 {
            text.len()
        } else {
            8000
        }),
{
}

} // verus!
