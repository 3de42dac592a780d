//! What files are and what they say: types, office documents, images, PDFs.
use std::io::{Cursor, Write};

use dafs::extract::{
    cap_body_text, extract, extract_content, finish_extraction, merge_git_facts, needs_bytes,
    to_file_metadata, ExtractError, Extraction, GitFacts, EXTRACTOR_VERSION, MAX_BODY_TEXT_CHARS,
};
use dafs::filename::{extension, guess, office_type_by_extension};
use dafs::frames::{frame, frame_length, unframe};
use dafs::image::{
    civil_to_unix, extract_image, join_make_model, ascii_field, datetime_field_to_unix, FieldValue,
};
use dafs::office::{
    detect_language, extract_docx, extract_paragraph_text, extract_pptx, extract_properties,
    extract_sheet_text, extract_table, extract_xlsx, matching_parts,
};
use dafs::pdf::{error_reply, metadata_tag, reply_for, text_of_pages};
use dafs::sniff::{sniff, DocType};
use dafs::text::count_words;

#[test]
fn known_source_extensions_are_text() {
    for ext in ["rs", "py", "md", "toml"] {
        assert_eq!(guess(&format!("file.{ext}")), DocType::Text, "ext: {ext}");
    }
}

#[test]
fn office_extensions_map_to_their_type() {
    assert_eq!(guess("a.docx"), DocType::Docx);
    assert_eq!(guess("a.xlsx"), DocType::Xlsx);
    assert_eq!(guess("a.pptx"), DocType::Pptx);
}

#[test]
fn an_unrecognised_extension_is_unknown() {
    assert_eq!(guess("a.xyzzy"), DocType::Unknown);
}

#[test]
fn extension_matching_is_case_insensitive() {
    assert_eq!(guess("REPORT.PDF"), DocType::Pdf);
    assert_eq!(guess("Notes.MD"), DocType::Text);
}

#[test]
fn a_file_with_no_extension_is_unknown() {
    assert_eq!(guess("Makefile"), DocType::Unknown);
}

#[test]
fn an_extension_is_what_follows_the_last_dot_of_the_name() {
    assert_eq!(extension("/a/b.tar.gz"), Some("gz".to_string()));
    assert_eq!(extension("/a.d/Makefile"), None);
    assert_eq!(extension("/home/u/.bashrc"), None);
    assert_eq!(extension("/home/u/notes."), Some(String::new()));
    assert_eq!(office_type_by_extension("letter.docx"), Some(DocType::Docx));
    assert_eq!(office_type_by_extension("letter.txt"), None);
}

#[test]
fn pdf_magic_bytes_are_recognised_regardless_of_extension() {
    assert_eq!(sniff(b"%PDF-1.7\n...rest of a pdf...", "report.bin"), DocType::Pdf);
}

#[test]
fn a_docx_is_disambiguated_from_a_plain_zip_by_extension() {
    assert_eq!(sniff(b"PK\x03\x04rest-is-irrelevant-to-sniffing", "letter.docx"), DocType::Docx);
}

#[test]
fn an_unrecognised_zip_falls_back_to_unknown() {
    assert_eq!(sniff(b"PK\x03\x04rest-is-irrelevant-to-sniffing", "archive.zip"), DocType::Unknown);
}

#[test]
fn a_source_file_is_classified_as_text_by_extension() {
    assert_eq!(sniff(b"fn main() {}", "main.rs"), DocType::Text);
}

#[test]
fn an_empty_file_does_not_error() {
    assert_eq!(sniff(b"", "empty.bin"), DocType::Unknown);
}

#[test]
fn an_image_is_recognised_by_its_bytes() {
    assert_eq!(sniff(b"\xff\xd8\xff\xe0\x00\x10JFIF", "photo.dat"), DocType::Jpeg);
    assert_eq!(sniff(b"II*\0\x08\0\0\0\0\0", "scan.dat"), DocType::Tiff);
}

#[test]
fn every_document_type_has_its_own_stored_form() {
    let all = [
        DocType::Unknown,
        DocType::Pdf,
        DocType::Docx,
        DocType::Xlsx,
        DocType::Pptx,
        DocType::Jpeg,
        DocType::Tiff,
        DocType::Text,
    ];
    let mut forms: Vec<&str> = all.iter().map(|d| d.as_str()).collect();
    assert_eq!(forms, vec!["unknown", "pdf", "docx", "xlsx", "pptx", "jpeg", "tiff", "text"]);
    forms.sort_unstable();
    forms.dedup();
    assert_eq!(forms.len(), all.len());
}

/// An archive made of these parts.
fn build_zip(parts: &[(&str, &str)]) -> Vec<u8> {
    let mut cursor = Cursor::new(Vec::new());
    let mut zip = zip::ZipWriter::new(&mut cursor);
    let options = zip::write::SimpleFileOptions::default();
    for (name, contents) in parts {
        zip.start_file(*name, options).expect("start_file");
        zip.write_all(contents.as_bytes()).expect("write_all");
    }
    zip.finish().expect("finish");
    cursor.into_inner()
}

const CORE_XML: &str = r#"<?xml version="1.0" encoding="UTF-8"?>
<cp:coreProperties xmlns:cp="http://schemas.openxmlformats.org/package/2006/metadata/core-properties"
                    xmlns:dc="http://purl.org/dc/elements/1.1/">
  <dc:title>Quarterly Report</dc:title>
  <dc:creator>Ada Lovelace</dc:creator>
</cp:coreProperties>"#;

#[test]
fn docx_extracts_title_author_and_word_count() {
    let document_xml = r#"<?xml version="1.0" encoding="UTF-8"?>
<w:document xmlns:w="http://schemas.openxmlformats.org/wordprocessingml/2006/main">
  <w:body>
    <w:p><w:r><w:t>Hello there</w:t></w:r></w:p>
    <w:p><w:r><w:t>General Kenobi</w:t></w:r></w:p>
  </w:body>
</w:document>"#;
    let bytes = build_zip(&[("docProps/core.xml", CORE_XML), ("word/document.xml", document_xml)]);

    let extraction = extract_docx(&bytes).expect("extract_docx");
    assert_eq!(extraction.title.as_deref(), Some("Quarterly Report"));
    assert_eq!(extraction.author.as_deref(), Some("Ada Lovelace"));
    assert_eq!(extraction.word_count, Some(4));
    assert_eq!(extraction.page_count, None);
}

#[test]
fn docx_paragraphs_do_not_glue_words_together() {
    let document_xml = r#"<w:document xmlns:w="x">
  <w:body>
    <w:p><w:r><w:t>first</w:t></w:r></w:p>
    <w:p><w:r><w:t>second</w:t></w:r></w:p>
  </w:body>
</w:document>"#;
    let bytes = build_zip(&[("word/document.xml", document_xml)]);
    let extraction = extract_docx(&bytes).expect("extract_docx");
    // Two distinct tokens, not "firstsecond" glued into one.
    assert_eq!(extraction.word_count, Some(2));
}

#[test]
fn xlsx_resolves_shared_string_references() {
    let shared_strings_xml = r#"<?xml version="1.0" encoding="UTF-8"?>
<sst xmlns="http://schemas.openxmlformats.org/spreadsheetml/2006/main" count="2" uniqueCount="2">
  <si><t>Hello</t></si>
  <si><t>World</t></si>
</sst>"#;
    let sheet_xml = r#"<?xml version="1.0" encoding="UTF-8"?>
<worksheet xmlns="http://schemas.openxmlformats.org/spreadsheetml/2006/main">
  <sheetData>
    <row r="1">
      <c r="A1" t="s"><v>0</v></c>
      <c r="B1" t="s"><v>1</v></c>
      <c r="C1"><v>42</v></c>
    </row>
  </sheetData>
</worksheet>"#;
    let bytes = build_zip(&[
        ("docProps/core.xml", CORE_XML),
        ("xl/sharedStrings.xml", shared_strings_xml),
        ("xl/worksheets/sheet1.xml", sheet_xml),
    ]);

    let extraction = extract_xlsx(&bytes).expect("extract_xlsx");
    assert_eq!(extraction.word_count, Some(2));
    assert_eq!(extraction.page_count, Some(1));

    let table = extract_table(shared_strings_xml.as_bytes());
    assert_eq!(table, vec!["Hello", "World"]);
    assert_eq!(extract_sheet_text(sheet_xml.as_bytes(), &table), "Hello World \n");
}

#[test]
fn xlsx_reads_inline_strings_without_shared_string_table() {
    let sheet_xml = r#"<worksheet xmlns="x">
  <sheetData>
    <row r="1">
      <c r="A1" t="inlineStr"><is><t>Inline text</t></is></c>
    </row>
  </sheetData>
</worksheet>"#;
    let bytes = build_zip(&[("xl/worksheets/sheet1.xml", sheet_xml)]);
    let extraction = extract_xlsx(&bytes).expect("extract_xlsx");
    assert_eq!(extraction.word_count, Some(2));
}

#[test]
fn xlsx_counts_multiple_sheets_as_page_count() {
    let sheet_xml = r#"<worksheet xmlns="x"><sheetData></sheetData></worksheet>"#;
    let bytes = build_zip(&[
        ("xl/worksheets/sheet1.xml", sheet_xml),
        ("xl/worksheets/sheet2.xml", sheet_xml),
        ("xl/worksheets/_rels/sheet1.xml.rels", "<Relationships/>"),
    ]);
    let extraction = extract_xlsx(&bytes).expect("extract_xlsx");
    assert_eq!(extraction.page_count, Some(2));
}

#[test]
fn pptx_slide_count_is_the_page_count() {
    let slide_xml = r#"<p:sld xmlns:a="http://schemas.openxmlformats.org/drawingml/2006/main">
  <a:t>Title slide</a:t>
</p:sld>"#;
    let bytes = build_zip(&[
        ("docProps/core.xml", CORE_XML),
        ("ppt/slides/slide1.xml", slide_xml),
        ("ppt/slides/slide2.xml", slide_xml),
    ]);

    let extraction = extract_pptx(&bytes).expect("extract_pptx");
    assert_eq!(extraction.page_count, Some(2));
    assert_eq!(extraction.title.as_deref(), Some("Quarterly Report"));
    assert_eq!(extraction.word_count, Some(4)); // "Title slide" on two slides
}

#[test]
fn short_text_does_not_get_a_language_guess() {
    let document_xml = r#"<w:document xmlns:w="x"><w:body><w:p><w:r><w:t>hi</w:t></w:r></w:p></w:body></w:document>"#;
    let bytes = build_zip(&[("word/document.xml", document_xml)]);
    let extraction = extract_docx(&bytes).expect("extract_docx");
    assert_eq!(extraction.language, None);
}

#[test]
fn long_english_text_is_detected_as_english() {
    let document_xml = r#"<w:document xmlns:w="x"><w:body><w:p><w:r><w:t>
            The quick brown fox jumps over the lazy dog near the riverbank
            every single morning before the sun rises above the hills.
        </w:t></w:r></w:p></w:body></w:document>"#;
    let bytes = build_zip(&[("word/document.xml", document_xml)]);
    let extraction = extract_docx(&bytes).expect("extract_docx");
    assert_eq!(extraction.language.as_deref(), Some("eng"));
}

#[test]
fn missing_core_properties_still_extracts_body_text() {
    let document_xml = r#"<w:document xmlns:w="x"><w:body><w:p><w:r><w:t>no properties here</w:t></w:r></w:p></w:body></w:document>"#;
    let bytes = build_zip(&[("word/document.xml", document_xml)]);
    let extraction = extract_docx(&bytes).expect("extract_docx");
    assert_eq!(extraction.title, None);
    assert_eq!(extraction.author, None);
    assert_eq!(extraction.word_count, Some(3));
}

/// Properties that are not well formed are none, and the document is read all the
/// same.
#[test]
fn malformed_core_properties_still_extract_body_text() {
    let document_xml = r#"<w:document xmlns:w="x"><w:body><w:p><w:r><w:t>no properties here</w:t></w:r></w:p></w:body></w:document>"#;
    for core in ["<c><dc:title>Half a title</dc:title></wrong>", "<c><dc:title>Half a title</dc:title><"] {
        assert_eq!(extract_properties(core.as_bytes()), (None, None));
        let bytes = build_zip(&[("docProps/core.xml", core), ("word/document.xml", document_xml)]);
        let extraction = extract_docx(&bytes).expect("extract_docx");
        assert_eq!((extraction.title, extraction.author), (None, None));
        assert_eq!(extraction.word_count, Some(3));
    }
    let whole = "<c><dc:title>A title</dc:title></c>";
    assert_eq!(extract_properties(whole.as_bytes()), (Some("A title".to_string()), None));
    // A body that breaks off keeps what came before.
    assert_eq!(extract_paragraph_text(b"<d><p><t>kept</t></p><p><t>kept too</wrong>"), "kept\nkept too");
}

#[test]
fn missing_content_part_is_an_error_not_a_default() {
    let bytes = build_zip(&[("docProps/core.xml", CORE_XML)]);
    assert!(extract_docx(&bytes).is_err());
    assert!(extract_xlsx(&bytes).is_err());
    assert!(extract_pptx(&bytes).is_err());
}

#[test]
fn corrupt_zip_returns_err_not_panic() {
    let garbage = b"this is not a zip file at all".to_vec();
    assert!(extract_docx(&garbage).is_err());
    assert!(extract_xlsx(&garbage).is_err());
    assert!(extract_pptx(&garbage).is_err());
}

#[test]
fn truncated_zip_returns_err_not_panic() {
    let mut bytes =
        build_zip(&[("docProps/core.xml", CORE_XML), ("word/document.xml", "<w:document/>")]);
    bytes.truncate(bytes.len() / 2);
    assert!(extract_docx(&bytes).is_err());
}

#[test]
fn a_paragraph_ends_in_a_line_break() {
    let xml = "<d><p><t>one</t><t>two</t></p><p>loose<t>three</t></p></d>";
    assert_eq!(extract_paragraph_text(xml.as_bytes()), "onetwo\nthree\n");
}

#[test]
fn properties_are_read_by_their_local_names() {
    assert_eq!(
        extract_properties(CORE_XML.as_bytes()),
        (Some("Quarterly Report".to_string()), Some("Ada Lovelace".to_string()))
    );
    assert_eq!(extract_properties(b"<a><b>x</b></a>"), (None, None));
}

#[test]
fn parts_are_chosen_by_prefix_and_suffix_in_order() {
    let names: Vec<String> =
        ["b/2.xml", "b/1.xml", "c/1.xml", "b/1.txt"].iter().map(|s| s.to_string()).collect();
    assert_eq!(matching_parts(&names, "b/", ".xml"), vec!["b/1.xml", "b/2.xml"]);
    assert!(matching_parts(&names, "d/", ".xml").is_empty());
}

#[test]
fn word_count_splits_on_whitespace() {
    assert_eq!(count_words("hello   world\nagain"), 3);
    assert_eq!(count_words(""), 0);
    assert_eq!(count_words(" \t\n"), 0);
}

#[test]
fn short_text_gets_no_language_guess() {
    assert_eq!(detect_language("hi"), None);
}

const TYPE_ASCII: u16 = 2;
const TYPE_LONG: u16 = 4;

/// A little-endian TIFF with one directory that holds the given entries.
fn build_tiff(entries: &[(u16, u16, u32, Vec<u8>)]) -> Vec<u8> {
    let ifd_offset: u32 = 8;
    let ifd_size = 2 + entries.len() * 12 + 4;
    let mut data_offset = 8 + ifd_size as u32;

    let mut ifd = Vec::new();
    ifd.extend_from_slice(&(entries.len() as u16).to_le_bytes());

    let mut data_area = Vec::new();
    for (tag, typ, count, raw) in entries {
        ifd.extend_from_slice(&tag.to_le_bytes());
        ifd.extend_from_slice(&typ.to_le_bytes());
        ifd.extend_from_slice(&count.to_le_bytes());
        if raw.len() <= 4 {
            let mut inline = raw.clone();
            inline.resize(4, 0);
            ifd.extend_from_slice(&inline);
        } else {
            ifd.extend_from_slice(&data_offset.to_le_bytes());
            let mut padded = raw.clone();
            if padded.len() % 2 != 0 {
                padded.push(0);
            }
            data_offset += padded.len() as u32;
            data_area.extend_from_slice(&padded);
        }
    }
    ifd.extend_from_slice(&0u32.to_le_bytes()); // no next directory

    let mut out = Vec::new();
    out.extend_from_slice(b"II");
    out.extend_from_slice(&42u16.to_le_bytes());
    out.extend_from_slice(&ifd_offset.to_le_bytes());
    out.extend_from_slice(&ifd);
    out.extend_from_slice(&data_area);
    out
}

fn ascii_entry(tag: u16, s: &str) -> (u16, u16, u32, Vec<u8>) {
    let mut raw = s.as_bytes().to_vec();
    raw.push(0);
    (tag, TYPE_ASCII, raw.len() as u32, raw)
}

const TAG_MAKE: u16 = 0x10f;
const TAG_MODEL: u16 = 0x110;
const TAG_DATETIME: u16 = 0x132;
const TAG_EXIF_IFD_POINTER: u16 = 0x8769;
const TAG_DATETIME_ORIGINAL: u16 = 0x9003;

#[test]
fn valid_exif_populates_taken_at_and_camera_model() {
    let bytes = build_tiff(&[
        ascii_entry(TAG_MAKE, "Nikon"),
        ascii_entry(TAG_MODEL, "D850"),
        ascii_entry(TAG_DATETIME, "2023:06:15 10:30:00"),
    ]);

    let extraction = extract_image(&bytes).expect("extract");
    assert_eq!(extraction.image_camera_model.as_deref(), Some("Nikon D850"));
    // 2023-06-15T10:30:00Z, computed independently via `date -u -d`.
    assert_eq!(extraction.image_taken_at_unix, Some(1_686_825_000));
}

#[test]
fn date_time_original_is_preferred_over_date_time() {
    let mut entries = vec![
        ascii_entry(TAG_DATETIME, "2000:01:01 00:00:00"),
        (TAG_EXIF_IFD_POINTER, TYPE_LONG, 1, Vec::new()),
    ];
    // The pointer's value is filled in below, once it is known where the
    // second directory lands.
    let placeholder_index = entries.len() - 1;

    let primary = build_tiff(&entries);
    let sub_ifd_offset = primary.len() as u32;

    let sub_entries = [ascii_entry(TAG_DATETIME_ORIGINAL, "2023:06:15 10:30:00")];
    let mut sub_ifd = Vec::new();
    sub_ifd.extend_from_slice(&(sub_entries.len() as u16).to_le_bytes());
    let mut sub_data = Vec::new();
    let mut sub_data_offset = sub_ifd_offset + 2 + sub_entries.len() as u32 * 12 + 4;
    for (tag, typ, count, raw) in &sub_entries {
        sub_ifd.extend_from_slice(&tag.to_le_bytes());
        sub_ifd.extend_from_slice(&typ.to_le_bytes());
        sub_ifd.extend_from_slice(&count.to_le_bytes());
        let mut padded = raw.clone();
        if padded.len() % 2 != 0 {
            padded.push(0);
        }
        sub_ifd.extend_from_slice(&sub_data_offset.to_le_bytes());
        sub_data_offset += padded.len() as u32;
        sub_data.extend_from_slice(&padded);
    }
    sub_ifd.extend_from_slice(&0u32.to_le_bytes());

    entries[placeholder_index].3 = sub_ifd_offset.to_le_bytes().to_vec();
    let mut bytes = build_tiff(&entries);
    bytes.extend_from_slice(&sub_ifd);
    bytes.extend_from_slice(&sub_data);

    let extraction = extract_image(&bytes).expect("extract");
    assert_eq!(extraction.image_taken_at_unix, Some(1_686_825_000));
}

#[test]
fn model_already_prefixed_with_make_is_not_duplicated() {
    let bytes =
        build_tiff(&[ascii_entry(TAG_MAKE, "Canon"), ascii_entry(TAG_MODEL, "Canon EOS R5")]);

    let extraction = extract_image(&bytes).expect("extract");
    assert_eq!(extraction.image_camera_model.as_deref(), Some("Canon EOS R5"));
}

#[test]
fn no_exif_segment_extracts_cleanly_with_no_fields() {
    // A bare JPEG without any segment: the ordinary case for a photo with its
    // metadata stripped.
    let bytes = b"\xff\xd8\xff\xd9";

    let extraction = extract_image(bytes).expect("extract");
    assert_eq!(extraction, Extraction::default());
}

#[test]
fn truncated_garbage_does_not_panic() {
    for bytes in [&b""[..], &b"II"[..], &b"II*\0"[..], &b"not an image at all"[..]] {
        // Either outcome is acceptable for unparseable input.
        let _ = extract_image(bytes);
    }
}

#[test]
fn a_make_and_a_model_are_joined() {
    let some = |s: &str| Some(s.to_string());
    assert_eq!(join_make_model(some("Nikon"), some("D850")), some("Nikon D850"));
    assert_eq!(join_make_model(some("Canon"), some("Canon EOS R5")), some("Canon EOS R5"));
    // Anything less exact than the very make is joined.
    assert_eq!(join_make_model(some("CANON"), some("Canon EOS R5")), some("CANON Canon EOS R5"));
    assert_eq!(join_make_model(some("Canon"), None), some("Canon"));
    assert_eq!(join_make_model(None, some("D850")), some("D850"));
    assert_eq!(join_make_model(None, None), None);
}

#[test]
fn dates_are_counted_from_the_epoch() {
    assert_eq!(civil_to_unix(1970, 1, 1, 0, 0, 0), Some(0));
    assert_eq!(civil_to_unix(1969, 12, 31, 23, 59, 59), Some(-1));
    assert_eq!(civil_to_unix(2000, 2, 29, 12, 0, 0), Some(951_825_600));
    assert_eq!(civil_to_unix(2023, 6, 15, 10, 30, 0), Some(1_686_825_000));
    assert_eq!(civil_to_unix(2023, 13, 1, 0, 0, 0), None);
    assert_eq!(civil_to_unix(2023, 0, 1, 0, 0, 0), None);
}

#[test]
fn a_text_field_is_trimmed_and_never_empty() {
    let field = |s: &str| Some(FieldValue::Ascii(vec![s.as_bytes().to_vec()]));
    assert_eq!(ascii_field(&field("  Nikon ")), Some("Nikon".to_string()));
    assert_eq!(ascii_field(&field("   ")), None);
    assert_eq!(ascii_field(&Some(FieldValue::Other)), None);
    assert_eq!(ascii_field(&None), None);
    assert_eq!(
        ascii_field(&Some(FieldValue::Ascii(vec![vec![b'a', 0xff]]))),
        Some("a\u{FFFD}".to_string())
    );
    assert_eq!(datetime_field_to_unix(&field("2023:06:15 10:30:00")), Some(1_686_825_000));
    assert_eq!(datetime_field_to_unix(&field("yesterday")), None);
    assert_eq!(datetime_field_to_unix(&field("    :  :     :  :  ")), None);
}

#[test]
fn an_unknown_file_extracts_cleanly_with_no_fields() {
    let extraction = extract("mystery.bin", &[0u8, 1, 2, 3], &[], None).expect("extract");
    assert_eq!(extraction.doc_type, DocType::Unknown);
    assert_eq!(extraction, Extraction { doc_type: DocType::Unknown, ..Default::default() });
}

#[test]
fn merge_git_facts_leaves_a_non_repo_file_untouched() {
    let mut extraction = Extraction { doc_type: DocType::Pdf, ..Default::default() };
    merge_git_facts(&mut extraction, None);
    assert_eq!(extraction, Extraction { doc_type: DocType::Pdf, ..Default::default() });
}

#[test]
fn what_the_repository_says_is_kept_with_the_file() {
    let facts = GitFacts {
        branch: Some("main".to_string()),
        head_commit: Some("abc123".to_string()),
        head_author: Some("Ada".to_string()),
        head_at_unix: Some(77),
    };
    let extraction = extract("/repo/main.rs", b"fn main() {}", &[], Some(facts)).expect("extract");
    assert_eq!(extraction.doc_type, DocType::Text);
    assert_eq!(extraction.git_branch.as_deref(), Some("main"));
    assert_eq!(extraction.git_head_commit.as_deref(), Some("abc123"));
    assert_eq!(extraction.git_head_author.as_deref(), Some("Ada"));
    assert_eq!(extraction.git_head_at_unix, Some(77));
}

#[test]
fn an_office_document_is_extracted_through_its_type() {
    let document_xml = "<w:document><w:p><w:t>two words</w:t></w:p></w:document>";
    let bytes = build_zip(&[("word/document.xml", document_xml)]);
    let extraction = extract("/a/letter.docx", &bytes, &bytes, None).expect("extract");
    assert_eq!(extraction.doc_type, DocType::Docx);
    assert_eq!(extraction.word_count, Some(2));
    assert_eq!(extraction.body_text.as_deref(), Some("two words\n"));

    let head = b"PK\x03\x04 but not an archive";
    match extract("/a/broken.docx", head, head, None) {
        Err(ExtractError::Malformed { doc_type, path, .. }) => {
            assert_eq!(doc_type, DocType::Docx);
            assert_eq!(path, "/a/broken.docx");
        }
        other => panic!("expected a malformed document, got {other:?}"),
    }
}

#[test]
fn only_what_is_looked_into_is_read() {
    assert!(needs_bytes(DocType::Docx));
    assert!(needs_bytes(DocType::Xlsx));
    assert!(needs_bytes(DocType::Pptx));
    assert!(needs_bytes(DocType::Jpeg));
    assert!(needs_bytes(DocType::Tiff));
    assert!(!needs_bytes(DocType::Text));
    assert!(!needs_bytes(DocType::Unknown));
    assert!(!needs_bytes(DocType::Pdf));
    assert_eq!(extract_content(DocType::Text, b"anything").expect("text"), Extraction::default());
}

#[test]
fn a_long_text_is_cut_at_a_character() {
    let long = "é".repeat(MAX_BODY_TEXT_CHARS + 10);
    assert_eq!(cap_body_text(&long).chars().count(), MAX_BODY_TEXT_CHARS);
    assert_eq!(cap_body_text("short"), "short");
}

#[test]
fn an_extraction_error_says_what_failed() {
    let io = ExtractError::Io { path: "/a.pdf".to_string(), reason: "no such file".to_string() };
    assert_eq!(io.message(), "reading /a.pdf: no such file");
    let panicked = ExtractError::Panicked { doc_type: DocType::Docx, path: "/a.docx".to_string() };
    assert!(panicked.message().contains("/a.docx"));
    let failed = finish_extraction(DocType::Xlsx, "/a.xlsx", Err("no sheets".to_string()), None);
    let message = failed.expect_err("malformed").message();
    assert!(message.contains("/a.xlsx") && message.contains("no sheets"), "{message}");
}

#[test]
fn to_file_metadata_carries_doc_type_as_its_stored_string() {
    let extraction = Extraction {
        doc_type: DocType::Docx,
        title: Some("Report".into()),
        ..Default::default()
    };
    let metadata = to_file_metadata(extraction, 1_000);
    assert_eq!(metadata.doc_type.as_deref(), Some("docx"));
    assert_eq!(metadata.title.as_deref(), Some("Report"));
    assert_eq!(metadata.extractor_version, EXTRACTOR_VERSION);
    assert_eq!(metadata.extracted_at_unix, 1_000);
}

#[test]
fn read_frame_then_write_frame_round_trips() {
    let buf = frame(&b"hello".to_vec());
    assert_eq!(buf, b"\x00\x00\x00\x05hello");
    let out = unframe(&buf).expect("read");
    assert_eq!(out, b"hello");
}

#[test]
fn read_frame_on_a_truncated_stream_is_an_error_not_a_panic() {
    // Declares a 100-byte frame but supplies none of it.
    assert!(unframe(&100u32.to_be_bytes().to_vec()).is_none());
}

#[test]
fn read_frame_on_empty_input_is_an_error() {
    assert!(unframe(&Vec::new()).is_none());
}

#[test]
fn a_frame_s_length_is_big_endian() {
    assert_eq!(frame_length(0, 0, 1, 2), 258);
    assert_eq!(frame_length(0xff, 0xff, 0xff, 0xff), u32::MAX);
    assert_eq!(frame(&Vec::new()), vec![0, 0, 0, 0]);
    // What follows the frame is not part of it.
    assert_eq!(unframe(&b"\x00\x00\x00\x02abc".to_vec()), Some(b"ab".to_vec()));
}

#[test]
fn a_pdf_s_pages_are_put_together() {
    let pages = vec!["first page".to_string(), "second".to_string()];
    assert_eq!(text_of_pages(&pages), "first page\nsecond\n");
    let reply = reply_for(&Some(" Title ".to_string()), &Some("  ".to_string()), &pages);
    assert_eq!(reply.page_count, Some(2));
    assert_eq!(reply.word_count, Some(3));
    assert_eq!(reply.author, None);
    assert_eq!(reply.error, None);
    assert_eq!(metadata_tag(&None), None);
    let failed = error_reply("it broke".to_string());
    assert_eq!(failed.error.as_deref(), Some("it broke"));
    assert!(failed.title.is_none());
    assert!(failed.page_count.is_none());
}

/// The white space that parts words is what Unicode lists, and nothing else is.
#[test]
fn words_are_parted_by_unicode_white_space() {
    let listed = |n: u32| {
        matches!(n, 9..=13 | 32 | 0x85 | 0xa0 | 0x1680 | 0x2000..=0x200a | 0x2028 | 0x2029 | 0x202f
            | 0x205f | 0x3000)
    };
    for n in 0..=0x10ffff {
        let Some(c) = char::from_u32(n) else { continue };
        assert_eq!(count_words(&format!("a{c}b")), if listed(n) { 2 } else { 1 }, "{n:#x}");
    }
}
