use pdfmerge::container::Container;
use pdfmerge::data_url::gen_data_url_from_buffer;
use pdfmerge::encryption::{derive_key, encrypt_bytes, encrypt_pdf_streams, AesStrength};
use pdfmerge::object::{Dict, ObjectValue, Stream};
use pdfmerge::paths::{
    candidate_file_name, file_ext_given, get_file_ext, next_candidate, output_file_name,
    output_file_name_given,
};
use pdfmerge::text::{contains, decimal, ends_with, text_eq};
use pdfmerge::thumbnails::{
    document_without_pages, load_failure, source_kind, thumbnail_id, LoadFailure, SourceKind,
};

fn hex(text: &str) -> Vec<u8> {
    (0..text.len()).step_by(2).map(|i| u8::from_str_radix(&text[i..i + 2], 16).unwrap()).collect()
}

#[test]
fn derive_key_cuts_or_fills_the_password() {
    assert_eq!(derive_key("abc", &AesStrength::Aes128), {
        let mut key = vec![0u8; 16];
        key[..3].copy_from_slice(b"abc");
        key
    });
    assert_eq!(derive_key("0123456789abcdefXYZ", &AesStrength::Aes128), b"0123456789abcdef".to_vec());
    assert_eq!(derive_key("", &AesStrength::Aes256), vec![0u8; 32]);
    assert_eq!(derive_key("0123456789abcdef0123456789abcdef!", &AesStrength::Aes256).len(), 32);
    // Two bytes stand for one letter outside ASCII.
    assert_eq!(&derive_key("é", &AesStrength::Aes128)[..3], &[0xc3, 0xa9, 0]);
    assert_eq!(AesStrength::Aes128.key_length(), 16);
    assert_eq!(AesStrength::Aes256.key_length(), 32);
}

#[test]
fn encrypt_bytes_is_aes_in_cbc_mode_with_a_zero_vector() {
    // The first block of each is the published single-block example of AES.
    let plain = hex("6bc1bee22e409f96e93d7e117393172a");
    let out = encrypt_bytes(&plain, &hex("2b7e151628aed2a6abf7158809cf4f3c"), &AesStrength::Aes128);
    assert_eq!(out.len(), 32);
    assert_eq!(&out[..16], &hex("3ad77bb40d7a3660a89ecaf32466ef97")[..]);
    let out = encrypt_bytes(
        &plain,
        &hex("603deb1015ca71be2b73aef0857d77811f352c073b6108d72d9810a30914dff4"),
        &AesStrength::Aes256,
    );
    assert_eq!(out.len(), 32);
    assert_eq!(&out[..16], &hex("f3eed1bdb5d2a03c064b5a7e3db181f8")[..]);
    // Padding fills the last block, and a fixed vector makes equal data equal.
    let key = derive_key("k", &AesStrength::Aes128);
    assert_eq!(encrypt_bytes(b"", &key, &AesStrength::Aes128).len(), 16);
    assert_eq!(
        encrypt_bytes(b"same", &key, &AesStrength::Aes128),
        encrypt_bytes(b"same", &key, &AesStrength::Aes128)
    );
    assert_ne!(encrypt_bytes(b"same", &key, &AesStrength::Aes128), b"same".to_vec());
}

#[test]
fn encrypt_pdf_streams_changes_streams_only() {
    let mut doc = Container::new();
    let mut d = Dict::new();
    d.set(b"Filter".to_vec(), ObjectValue::Name(b"FlateDecode".to_vec()));
    d.set(b"DecodeParms".to_vec(), ObjectValue::Null);
    d.set(b"Kind".to_vec(), ObjectValue::Integer(1));
    doc.objects.insert((1, 0), ObjectValue::Stream(Stream::new(d, b"payload".to_vec())));
    doc.objects.insert((2, 0), ObjectValue::Integer(9));
    doc.objects.insert((3, 0), ObjectValue::Stream(Stream::new(Dict::new(), vec![])));
    doc.max_id = 3;
    encrypt_pdf_streams(&mut doc, "secret", &AesStrength::Aes128);
    let key = derive_key("secret", &AesStrength::Aes128);
    match &doc.objects[&(1, 0)] {
        ObjectValue::Stream(s) => {
            assert_eq!(s.content, encrypt_bytes(b"payload", &key, &AesStrength::Aes128));
            assert_eq!(s.content.len(), 16);
            assert_eq!(s.dict.get(b"Length"), Some(&ObjectValue::Integer(16)));
            assert_eq!(s.dict.get(b"Filter"), None);
            assert_eq!(s.dict.get(b"DecodeParms"), None);
            assert_eq!(s.dict.get(b"Kind"), Some(&ObjectValue::Integer(1)));
            assert_eq!(s.dict.len(), 2);
        }
        other => panic!("{:?} is no stream", other),
    }
    assert_eq!(doc.objects[&(2, 0)], ObjectValue::Integer(9));
    match &doc.objects[&(3, 0)] {
        ObjectValue::Stream(s) => assert_eq!(s.content.len(), 16),
        other => panic!("{:?} is no stream", other),
    }
    assert_eq!(doc.objects.len(), 3);
    assert_eq!(doc.max_id, 3);
}

#[test]
fn data_url_holds_the_base64_text() {
    assert_eq!(gen_data_url_from_buffer(b"hello"), "data:image/webp;base64,aGVsbG8=");
    assert_eq!(gen_data_url_from_buffer(b""), "data:image/webp;base64,");
    assert_eq!(gen_data_url_from_buffer(&[0xfb, 0xff]), "data:image/webp;base64,+/8=");
}

#[test]
fn decimal_writes_numbers() {
    assert_eq!(decimal(0), "0");
    assert_eq!(decimal(7), "7");
    assert_eq!(decimal(10), "10");
    assert_eq!(decimal(1234567890), "1234567890");
    assert_eq!(decimal(u64::MAX), "18446744073709551615");
}

#[test]
fn text_searches() {
    assert!(ends_with(b"report.pdf", b".pdf"));
    assert!(ends_with(b".pdf", b".pdf"));
    assert!(ends_with(b"any", b""));
    assert!(!ends_with(b"pdf", b".pdf"));
    assert!(!ends_with(b"report.pdx", b".pdf"));
    assert!(contains(b"file is encrypted", b"encrypted"));
    assert!(contains(b"password", b"password"));
    assert!(contains(b"abc", b""));
    assert!(contains(b"", b""));
    assert!(!contains(b"passwor", b"password"));
    assert!(!contains(b"pass word", b"password"));
    assert!(text_eq("txt", "txt"));
    assert!(!text_eq("txt", "tx"));
    assert!(!text_eq("txt", "tXt"));
}

#[test]
fn output_file_name_ends_in_pdf() {
    assert_eq!(output_file_name("report.pdf", Some("report")), "report.pdf");
    assert_eq!(output_file_name("REPORT.PDF", Some("REPORT")), "REPORT.PDF");
    assert_eq!(output_file_name("report.docx", Some("report")), "report.pdf");
    assert_eq!(output_file_name("report", Some("report")), "report.pdf");
    assert_eq!(output_file_name("..", None), "...pdf");
    assert_eq!(output_file_name("pdf", Some("pdf")), "pdf.pdf");
}

#[test]
fn candidate_file_names_are_numbered() {
    assert_eq!(candidate_file_name(Some("merged"), Some("pdf"), 0), "merged_0.pdf");
    assert_eq!(candidate_file_name(Some("merged"), Some("PDF"), 12), "merged_12.PDF");
    assert_eq!(candidate_file_name(None, None, 3), "output_3.pdf");
}

#[test]
fn source_kind_follows_the_extension() {
    assert_eq!(source_kind("txt"), SourceKind::Text);
    assert_eq!(source_kind("png"), SourceKind::Image);
    assert_eq!(source_kind("jpg"), SourceKind::Image);
    assert_eq!(source_kind("pdf"), SourceKind::Container);
    assert_eq!(source_kind("jpeg"), SourceKind::Container);
    assert_eq!(source_kind(""), SourceKind::Container);
}

#[test]
fn load_failure_follows_the_message() {
    assert_eq!(load_failure("a password is needed", false), LoadFailure::PasswordRequired);
    assert_eq!(load_failure("a password is needed", true), LoadFailure::PasswordIncorrect);
    assert_eq!(load_failure("the file is encrypted", false), LoadFailure::PasswordRequired);
    assert_eq!(load_failure("the file is broken", true), LoadFailure::Unreadable);
    assert_eq!(LoadFailure::PasswordRequired.key(), "PDF_PASSWORD_REQUIRED");
    assert_eq!(LoadFailure::PasswordIncorrect.key(), "PDF_PASSWORD_INCORRECT");
    assert_eq!(LoadFailure::Unreadable.key(), "PDF_LOAD_ERROR");
}

#[test]
fn thumbnail_id_joins_document_and_page() {
    assert_eq!(thumbnail_id("doc", 0), "doc_0");
    assert_eq!(thumbnail_id("4f1c", 41), "4f1c_41");
    let d = document_without_pages("id".into(), "a.pdf".into(), "/tmp/a.pdf".into(), "File not found");
    assert_eq!(d.error, Some("File not found".to_string()));
    assert!(d.thumbnails.is_empty());
    assert_eq!(d.file_path, "/tmp/a.pdf");
}

#[test]
fn next_candidate_counts_on() {
    assert_eq!(next_candidate(Some("report"), Some("pdf"), 0), ("report_0.pdf".to_string(), 1));
    assert_eq!(next_candidate(None, None, 7), ("output_7.pdf".to_string(), 8));
    assert_eq!(
        next_candidate(Some("a"), Some("txt"), u64::MAX - 1),
        ("a_18446744073709551614.txt".to_string(), u64::MAX)
    );
}

#[test]
fn output_file_name_goes_by_the_lowered_text() {
    assert_eq!(output_file_name_given("Report.PDF", "report.pdf", Some("Report")), "Report.PDF");
    assert_eq!(output_file_name_given("notes.txt", "notes.txt", Some("notes")), "notes.pdf");
    assert_eq!(output_file_name_given("notes", "notes", None), "notes.pdf");
    // Only the lowered text decides whether the name is kept.
    assert_eq!(output_file_name_given("a", "x.pdf", Some("b")), "a");
    assert_eq!(output_file_name_given("a.pdf", "a.txt", Some("b")), "b.pdf");
}

#[test]
fn ciphertext_fills_whole_blocks_with_padding() {
    let key128 = [1u8; 16];
    let key256 = [2u8; 32];
    for (length, padded) in [(0usize, 16usize), (1, 16), (15, 16), (16, 32), (17, 32), (32, 48)] {
        let data = vec![9u8; length];
        assert_eq!(encrypt_bytes(&data, &key128, &AesStrength::Aes128).len(), padded);
        assert_eq!(encrypt_bytes(&data, &key256, &AesStrength::Aes256).len(), padded);
    }
}

#[test]
fn file_extension_is_reported_in_lower_case() {
    assert_eq!(file_ext_given(Some("PDF"), "/a/Report.PDF"), Ok("pdf".to_string()));
    assert_eq!(file_ext_given(Some("Jpg"), "x.Jpg"), Ok("jpg".to_string()));
    assert_eq!(file_ext_given(Some(""), "x."), Ok("".to_string()));
    assert_eq!(
        file_ext_given(None, "/a/notes"),
        Err("Could not get file extension for /a/notes".to_string())
    );
    assert_eq!(get_file_ext("/a/Report.PDF"), Ok("pdf".to_string()));
    assert_eq!(get_file_ext("archive.tar.GZ"), Ok("gz".to_string()));
    assert_eq!(get_file_ext("notes"), Err("Could not get file extension for notes".to_string()));
    assert_eq!(get_file_ext(".hidden"), Err("Could not get file extension for .hidden".to_string()));
    assert_eq!(get_file_ext(""), Err("Could not get file extension for ".to_string()));
}
