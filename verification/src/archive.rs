//! Zip archives: the names of the parts, and what is in them.
use vstd::prelude::*;

use crate::fspath::texts;

verus! {

/// A zip archive of the `zip` crate, opened over a source of bytes.
#[verifier::external_type_specification]
#[verifier::external_body]
#[verifier::reject_recursive_types(R)]
pub struct ExZipArchive<R>(zip::ZipArchive<R>);

/// A position in bytes held in memory.
#[verifier::external_type_specification]
#[verifier::external_body]
#[verifier::reject_recursive_types(T)]
pub struct ExCursor<T>(std::io::Cursor<T>);

/// Why a part could not be had, in the words of the `zip` crate.
#[derive(Debug)]
pub enum PartError {
    /// The archive has no such part, or none that can be opened.
    Missing(String),
    /// The part is there and its content could not be read to the end.
    Unreadable(String),
}

/// What comes of opening an archive: the names of its parts, or why it cannot
/// be opened.
pub enum Listing {
    Parts(Seq<Seq<char>>),
    Broken(Seq<char>),
}

/// What comes of reading a part: its content, or why it could not be had.
pub enum Content {
    Bytes(Seq<u8>),
    Missing(Seq<char>),
    Unreadable(Seq<char>),
}

/// The outcome of reading a part.
pub open spec fn content_of(r: Result<Vec<u8>, PartError>) -> Content {
    match r {
        Ok(bytes) => Content::Bytes(bytes@),
        Err(PartError::Missing(e)) => Content::Missing(e@),
        Err(PartError::Unreadable(e)) => Content::Unreadable(e@),
    }
}

/// The bytes that an archive was opened on.
pub uninterp spec fn archive_bytes(archive: zip::ZipArchive<std::io::Cursor<&[u8]>>) -> Seq<u8>;

/// The names of the parts that the `zip` crate finds in the bytes of an
/// archive, each once, or why it cannot open them.
pub uninterp spec fn part_names(bytes: Seq<u8>) -> Listing;

/// What the `zip` crate reads of the part with the given name, up to so many
/// bytes.
pub uninterp spec fn part_content(bytes: Seq<u8>, name: Seq<char>, most: nat) -> Content;

/// `zip::ZipArchive::new` reads the archive's directory; where there is none to
/// be found, its error is given in words.
#[verifier::external_body]
pub(crate) fn open_archive(bytes: &[u8]) -> (r: Result<
    zip::ZipArchive<std::io::Cursor<&[u8]>>,
    String,
>)
    ensures
        match r {
            Ok(archive) => archive_bytes(archive) == bytes@ && part_names(bytes@) is Parts,
            Err(e) => part_names(bytes@) == Listing::Broken(e@),
        },
{
    zip::ZipArchive::new(std::io::Cursor::new(bytes)).map_err(|e| e.to_string())
}

/// `zip::ZipArchive::file_names` gives the names of the parts.
#[verifier::external_body]
pub(crate) fn names_of_parts(archive: &zip::ZipArchive<std::io::Cursor<&[u8]>>) -> (r: Vec<String>)
    ensures
        part_names(archive_bytes(*archive)) == Listing::Parts(texts(r@)),
{
    archive.file_names().map(String::from).collect()
}

/// `zip::ZipArchive::by_name` finds a part by its name, and reading it through
/// `Read::take` gives its content up to its end or up to `most` bytes, whatever
/// it would unpack to; either can fail, with an error that is given in words.
/// The archive is left as it was.
#[verifier::external_body]
pub(crate) fn read_part(
    archive: &mut zip::ZipArchive<std::io::Cursor<&[u8]>>,
    name: &str,
    most: u64,
) -> (r: Result<Vec<u8>, PartError>)
    ensures
        archive_bytes(*final(archive)) == archive_bytes(*old(archive)),
        content_of(r) == part_content(archive_bytes(*old(archive)), name@, most as nat),
        r matches Ok(content) ==> content@.len() <= most,
{
    match archive.by_name(name) {
        Ok(part) => {
            let mut content: Vec<u8> = Vec::new();
            match std::io::Read::read_to_end(&mut std::io::Read::take(part, most), &mut content) {
                Ok(_) => Ok(content),
                Err(e) => Err(PartError::Unreadable(e.to_string())),
            }
        },
        Err(e) => Err(PartError::Missing(e.to_string())),
    }
}

} // verus!
