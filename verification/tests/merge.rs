use lopdf::encryption::crypt_filters::{Aes128CryptFilter, CryptFilter};
use pdfmerge::collector::OpenedSource;
use pdfmerge::commands::{
    container_bytes, encrypt_container, seal, write_encrypted, Download, MergeSession, MergedFile,
    SealFailure,
};
use pdfmerge::sealing::read_cipher;
use pdfmerge::container::Container;
use pdfmerge::encryption::{ALL_PERMISSIONS, EncryptionAlgorithm};
use pdfmerge::error::ErrorKind;
use pdfmerge::object::{Dict, ObjectId, ObjectValue, StringFormat};
use pdfmerge::structs::{CommandErrRes, ThumbnailDownloadData};
use std::collections::BTreeMap;
use std::sync::Arc;

/// The bytes of a container with `pages` pages. The content stream of page
/// `i` is the text `<tag>-<i>`, and all pages use one font.
fn sample(tag: &str, pages: usize) -> lopdf::Document {
    let mut doc = lopdf::Document::with_version("1.5");
    let pages_id = doc.new_object_id();
    let mut font = lopdf::Dictionary::new();
    font.set("Type", lopdf::Object::Name(b"Font".to_vec()));
    font.set("Subtype", lopdf::Object::Name(b"Type1".to_vec()));
    font.set("BaseFont", lopdf::Object::Name(b"Courier".to_vec()));
    let font_id = doc.add_object(font);
    let mut kids = Vec::new();
    for i in 0..pages {
        let content = format!("{}-{}", tag, i).into_bytes();
        let content_id = doc.add_object(lopdf::Stream::new(lopdf::Dictionary::new(), content));
        let mut fonts = lopdf::Dictionary::new();
        fonts.set("F1", lopdf::Object::Reference(font_id));
        let mut resources = lopdf::Dictionary::new();
        resources.set("Font", lopdf::Object::Dictionary(fonts));
        let mut page = lopdf::Dictionary::new();
        page.set("Type", lopdf::Object::Name(b"Page".to_vec()));
        page.set("Parent", lopdf::Object::Reference(pages_id));
        page.set("Contents", lopdf::Object::Reference(content_id));
        page.set("Resources", lopdf::Object::Dictionary(resources));
        page.set(
            "MediaBox",
            lopdf::Object::Array(vec![
                lopdf::Object::Integer(0),
                lopdf::Object::Integer(0),
                lopdf::Object::Real(595.5),
                lopdf::Object::Real(842.25),
            ]),
        );
        kids.push(lopdf::Object::Reference(doc.add_object(page)));
    }
    let mut tree = lopdf::Dictionary::new();
    tree.set("Type", lopdf::Object::Name(b"Pages".to_vec()));
    tree.set("Count", lopdf::Object::Integer(pages as i64));
    tree.set("Kids", lopdf::Object::Array(kids));
    doc.objects.insert(pages_id, lopdf::Object::Dictionary(tree));
    let mut catalog = lopdf::Dictionary::new();
    catalog.set("Type", lopdf::Object::Name(b"Catalog".to_vec()));
    catalog.set("Pages", lopdf::Object::Reference(pages_id));
    let catalog_id = doc.add_object(catalog);
    doc.trailer.set("Root", lopdf::Object::Reference(catalog_id));
    let id = lopdf::Object::String(vec![7u8; 16], lopdf::StringFormat::Hexadecimal);
    doc.trailer.set("ID", lopdf::Object::Array(vec![id.clone(), id]));
    doc
}

fn bytes_of(doc: &mut lopdf::Document) -> Vec<u8> {
    let mut out = Vec::new();
    doc.save_to(&mut out).expect("the sample can be written");
    out
}

fn sample_bytes(tag: &str, pages: usize) -> Vec<u8> {
    bytes_of(&mut sample(tag, pages))
}

fn encrypted_sample_bytes(tag: &str, pages: usize, password: &str) -> Vec<u8> {
    let mut doc = sample(tag, pages);
    encrypt(&mut doc, password, b"Default", b"Default", ALL_PERMISSIONS, true);
    bytes_of(&mut doc)
}

fn encrypt(
    doc: &mut lopdf::Document,
    password: &str,
    stream_filter: &[u8],
    string_filter: &[u8],
    permissions: u64,
    encrypt_metadata: bool,
) {
    let filter: Arc<dyn CryptFilter> = Arc::new(Aes128CryptFilter);
    let mut crypt_filters = BTreeMap::new();
    crypt_filters.insert(stream_filter.to_vec(), filter.clone());
    crypt_filters.insert(string_filter.to_vec(), filter);
    let state = lopdf::EncryptionState::try_from(lopdf::EncryptionVersion::V4 {
        document: doc,
        encrypt_metadata,
        crypt_filters,
        stream_filter: stream_filter.to_vec(),
        string_filter: string_filter.to_vec(),
        owner_password: password,
        user_password: password,
        permissions: lopdf::Permissions::from_bits_retain(permissions),
    })
    .expect("the keys can be derived");
    doc.encrypt(&state).expect("the sample can be encrypted");
}

fn to_lopdf(doc: &Container) -> lopdf::Document {
    let bytes = container_bytes(doc).expect("the container can be written");
    lopdf::Document::load_mem(&bytes).expect("the container can be parsed")
}

fn from_lopdf_object(object: &lopdf::Object) -> ObjectValue {
    match object {
        lopdf::Object::Null => ObjectValue::Null,
        lopdf::Object::Boolean(b) => ObjectValue::Boolean(*b),
        lopdf::Object::Integer(n) => ObjectValue::Integer(*n),
        lopdf::Object::Real(x) => ObjectValue::Real(x.to_string().into_bytes()),
        lopdf::Object::Name(n) => ObjectValue::Name(n.clone()),
        lopdf::Object::String(s, lopdf::StringFormat::Literal) => ObjectValue::String(s.clone(), StringFormat::Literal),
        lopdf::Object::String(s, lopdf::StringFormat::Hexadecimal) => {
            ObjectValue::String(s.clone(), StringFormat::Hexadecimal)
        }
        lopdf::Object::Array(items) => ObjectValue::Array(items.iter().map(from_lopdf_object).collect()),
        lopdf::Object::Dictionary(d) => ObjectValue::Dictionary(from_lopdf_dict(d)),
        lopdf::Object::Stream(s) => ObjectValue::Stream(pdfmerge::object::Stream {
            dict: from_lopdf_dict(&s.dict),
            content: s.content.clone(),
            allows_compression: s.allows_compression,
            start_position: s.start_position,
        }),
        lopdf::Object::Reference(id) => ObjectValue::Reference(*id),
    }
}

fn from_lopdf_dict(dict: &lopdf::Dictionary) -> Dict {
    let mut out = Dict::new();
    for (k, v) in dict.iter() {
        out.set(k.clone(), from_lopdf_object(v));
    }
    out
}

/// What the parser makes of the bytes, in the library's own types.
fn parse(bytes: &[u8]) -> Option<Container> {
    lopdf::Document::load_mem(bytes).ok().map(|doc| from_lopdf(&doc))
}

fn from_lopdf(doc: &lopdf::Document) -> Container {
    let mut out = Container::with_version(&doc.version);
    out.trailer = from_lopdf_dict(&doc.trailer);
    out.objects = doc.objects.iter().map(|(id, o)| (*id, from_lopdf_object(o))).collect();
    out.max_id = doc.max_id;
    out
}

fn open_source(bytes: &[u8], password: &Option<String>) -> Result<OpenedSource, ErrorKind> {
    match parse(bytes) {
        Some(source) => pdfmerge::collector::open_source(source, password),
        None => Err(ErrorKind::SourceLoadFailed),
    }
}

/// What the parser makes of each source that was read.
fn parsed(contents: &Vec<Option<Vec<u8>>>) -> Vec<Option<Container>> {
    contents.iter().map(|c| c.as_ref().and_then(|bytes| parse(bytes))).collect()
}

fn merge_pages(
    file_name: &str,
    output_path: Option<&str>,
    requests: &Vec<ThumbnailDownloadData>,
    contents: &Vec<Option<Vec<u8>>>,
    password: &Option<String>,
) -> Result<MergedFile, CommandErrRes> {
    pdfmerge::commands::merge_pages(file_name, output_path, requests, parsed(contents), password)
}

fn download_file(
    file_name: &str,
    output_path: Option<&str>,
    requests: &Vec<ThumbnailDownloadData>,
    contents: &Vec<Option<Vec<u8>>>,
    password: &Option<String>,
) -> Result<Download, CommandErrRes> {
    pdfmerge::commands::download_file(file_name, output_path, requests, parsed(contents), password)
}

fn request(path: &str, page_index: usize, password: Option<&str>) -> ThumbnailDownloadData {
    ThumbnailDownloadData {
        file_path: path.to_string(),
        page_index,
        password: password.map(|p| p.to_string()),
    }
}

fn entry<'a>(dict: &'a Dict, key: &[u8]) -> &'a ObjectValue {
    dict.get(key).unwrap_or_else(|| panic!("no entry {:?}", String::from_utf8_lossy(key)))
}

fn as_dict(value: &ObjectValue) -> &Dict {
    match value {
        ObjectValue::Dictionary(d) => d,
        other => panic!("{:?} is no dictionary", other),
    }
}

fn as_reference(value: &ObjectValue) -> ObjectId {
    match value {
        ObjectValue::Reference(id) => *id,
        other => panic!("{:?} is no reference", other),
    }
}

/// The page tree of a merged container, found from the trailer.
fn page_tree(doc: &Container) -> &Dict {
    let catalog = as_dict(&doc.objects[&as_reference(entry(&doc.trailer, b"Root"))]);
    assert_eq!(entry(catalog, b"Type"), &ObjectValue::Name(b"Catalog".to_vec()));
    let tree = as_dict(&doc.objects[&as_reference(entry(catalog, b"Pages"))]);
    assert_eq!(entry(tree, b"Type"), &ObjectValue::Name(b"Pages".to_vec()));
    tree
}

/// The texts of the content streams of the pages of a merged container, in
/// the order of its page tree.
fn page_texts(doc: &Container) -> Vec<String> {
    let kids = match entry(page_tree(doc), b"Kids") {
        ObjectValue::Array(kids) => kids,
        other => panic!("{:?} is no array", other),
    };
    kids.iter()
        .map(|kid| {
            let page = as_dict(&doc.objects[&as_reference(kid)]);
            match &doc.objects[&as_reference(entry(page, b"Contents"))] {
                ObjectValue::Stream(s) => String::from_utf8(s.content.clone()).unwrap(),
                other => panic!("{:?} is no stream", other),
            }
        })
        .collect()
}

fn merge(
    requests: &Vec<ThumbnailDownloadData>,
    contents: &Vec<Option<Vec<u8>>>,
    password: Option<&str>,
) -> Result<MergedFile, CommandErrRes> {
    merge_pages(
        "merged.pdf",
        Some("/downloads/merged.pdf"),
        requests,
        contents,
        &password.map(|p| p.to_string()),
    )
}

#[test]
fn merge_keeps_the_order_of_the_request() {
    let x = sample_bytes("x", 3);
    let y = sample_bytes("y", 1);
    let requests = vec![request("x.pdf", 2, None), request("y.pdf", 0, None), request("x.pdf", 0, None)];
    let contents = vec![Some(x.clone()), Some(y), Some(x)];
    let merged = merge(&requests, &contents, None).expect("the merge succeeds");
    assert_eq!(page_texts(&merged.document), vec!["x-2", "y-0", "x-0"]);
    assert_eq!(entry(page_tree(&merged.document), b"Count"), &ObjectValue::Integer(3));
    assert_eq!(merged.pages.len(), 3);
    assert_eq!(merged.document.version, "1.5");
    assert_eq!(merged.success.key, "PDF_DOWNLOAD_SUCCESS");
    assert_eq!(merged.success.file_name, "merged.pdf");
    assert_eq!(merged.success.file_path, "/downloads/merged.pdf");
    assert!(merged.encryption.is_none());
}

#[test]
fn merge_clones_a_shared_font_once_for_each_source() {
    let x = sample_bytes("x", 3);
    let requests = vec![request("x.pdf", 0, None), request("x.pdf", 1, None)];
    let contents = vec![Some(x.clone()), Some(x)];
    let merged = merge(&requests, &contents, None).expect("the merge succeeds");
    let fonts = merged
        .document
        .objects
        .values()
        .filter(|v| matches!(v, ObjectValue::Dictionary(d) if d.get(b"BaseFont").is_some()))
        .count();
    assert_eq!(fonts, 1);
}

#[test]
fn merge_leaves_no_dangling_reference() {
    let x = sample_bytes("x", 2);
    let y = sample_bytes("y", 2);
    let requests = vec![request("x.pdf", 1, None), request("y.pdf", 1, None)];
    let contents = vec![Some(x), Some(y)];
    let merged = merge(&requests, &contents, None).expect("the merge succeeds");
    let doc = to_lopdf(&merged.document);
    for (id, object) in doc.objects.iter() {
        let mut pending = vec![object];
        while let Some(next) = pending.pop() {
            match next {
                lopdf::Object::Reference(r) => {
                    assert!(doc.objects.contains_key(r), "{:?} refers to {:?}", id, r)
                }
                lopdf::Object::Array(items) => pending.extend(items.iter()),
                lopdf::Object::Dictionary(d) => pending.extend(d.iter().map(|(_, v)| v)),
                lopdf::Object::Stream(s) => pending.extend(s.dict.iter().map(|(_, v)| v)),
                _ => {}
            }
        }
    }
    assert_eq!(doc.get_pages().len(), 2);
}

#[test]
fn merge_of_nothing_is_an_empty_container_that_is_never_encrypted() {
    let merged = merge(&vec![], &vec![], Some("secret")).expect("the merge succeeds");
    let tree = page_tree(&merged.document);
    assert_eq!(entry(tree, b"Count"), &ObjectValue::Integer(0));
    assert_eq!(entry(tree, b"Kids"), &ObjectValue::Array(vec![]));
    assert_eq!(merged.document.objects.len(), 2);
    assert!(merged.pages.is_empty());
    assert!(merged.encryption.is_none());
    match entry(&merged.document.trailer, b"ID") {
        ObjectValue::Array(halves) => {
            assert_eq!(halves.len(), 2);
            assert_eq!(halves[0], halves[1]);
            match &halves[0] {
                ObjectValue::String(bytes, StringFormat::Hexadecimal) => assert_eq!(bytes.len(), 16),
                other => panic!("{:?} is no hexadecimal string", other),
            }
        }
        other => panic!("{:?} is no array", other),
    }
}

#[test]
fn merge_of_the_same_page_twice_gives_the_same_structure() {
    let x = sample_bytes("x", 2);
    let requests = vec![request("x.pdf", 1, None)];
    let contents = vec![Some(x)];
    let first = merge(&requests, &contents, None).expect("the merge succeeds");
    let second = merge(&requests, &contents, None).expect("the merge succeeds");
    assert_eq!(first.document.objects, second.document.objects);
    assert_eq!(first.pages, second.pages);
    assert_eq!(page_texts(&first.document), vec!["x-1"]);
    // Only the random identifier differs.
    assert_eq!(entry(&first.document.trailer, b"Root"), entry(&second.document.trailer, b"Root"));
    assert_ne!(entry(&first.document.trailer, b"ID"), entry(&second.document.trailer, b"ID"));
}

#[test]
fn merge_keeps_real_numbers() {
    let x = sample_bytes("x", 1);
    let merged = merge(&vec![request("x.pdf", 0, None)], &vec![Some(x)], None).expect("the merge succeeds");
    let page = as_dict(&merged.document.objects[&merged.pages[0]]);
    assert_eq!(
        entry(page, b"MediaBox"),
        &ObjectValue::Array(vec![
            ObjectValue::Integer(0),
            ObjectValue::Integer(0),
            ObjectValue::Real(b"595.5".to_vec()),
            ObjectValue::Real(b"842.25".to_vec()),
        ])
    );
}

#[test]
fn merge_without_an_output_path_fails_first() {
    let requests = vec![request("x.pdf", 0, None)];
    for e in [
        merge_pages("merged.pdf", None, &requests, &vec![None], &None).err(),
        download_file("merged.pdf", None, &requests, &vec![None], &None).err(),
    ] {
        let e = e.expect("the merge fails");
        assert_eq!(e.key, "PDF_OUTPUT_PATH_ERROR");
        assert_eq!(e.file_name, "merged.pdf");
        assert_eq!(e.file_path, None);
        assert_eq!(e.page_index, None);
    }
}

#[test]
fn merge_fails_on_a_source_that_was_not_read() {
    let x = sample_bytes("x", 1);
    let requests = vec![request("x.pdf", 0, None), request("gone.pdf", 4, None)];
    for contents in [vec![Some(x.clone()), None], vec![Some(x.clone())]] {
        let e = merge(&requests, &contents, None).err().expect("the merge fails");
        assert_eq!(e.key, "PDF_PAGE_LOAD_ERROR");
        assert_eq!(e.file_name, "merged.pdf");
        assert_eq!(e.file_path, Some("gone.pdf".to_string()));
        assert_eq!(e.page_index, Some(4));
    }
}

#[test]
fn merge_fails_on_a_source_that_is_no_container() {
    let requests = vec![request("notes.txt", 0, None)];
    let e = merge(&requests, &vec![Some(b"plain text".to_vec())], None).err().expect("the merge fails");
    assert_eq!(e.key, "PDF_PAGE_LOAD_ERROR");
    assert_eq!(e.file_path, Some("notes.txt".to_string()));
    assert_eq!(e.page_index, Some(0));
}

#[test]
fn merge_fails_on_a_page_that_the_source_lacks() {
    let x = sample_bytes("x", 2);
    for index in [2usize, 7, u32::MAX as usize, usize::MAX] {
        let e = merge(&vec![request("x.pdf", index, None)], &vec![Some(x.clone())], None)
            .err()
            .expect("the merge fails");
        assert_eq!(e.key, "PDF_PAGE_NOT_FOUND");
        assert_eq!(e.file_path, Some("x.pdf".to_string()));
        assert_eq!(e.page_index, Some(index));
    }
}

#[test]
fn merge_reports_the_first_request_that_fails() {
    let x = sample_bytes("x", 1);
    let requests = vec![request("x.pdf", 0, None), request("x.pdf", 5, None), request("gone.pdf", 0, None)];
    let contents = vec![Some(x.clone()), Some(x), None];
    let e = merge(&requests, &contents, None).err().expect("the merge fails");
    assert_eq!(e.key, "PDF_PAGE_NOT_FOUND");
    assert_eq!(e.page_index, Some(5));
}

#[test]
fn merge_needs_the_password_of_an_encrypted_source() {
    let locked = encrypted_sample_bytes("x", 2, "open sesame");
    let e = merge(&vec![request("x.pdf", 0, None)], &vec![Some(locked.clone())], None)
        .err()
        .expect("the merge fails");
    assert_eq!(e.key, "PDF_PASSWORD_REQUIRED");
    assert_eq!(e.file_path, Some("x.pdf".to_string()));
    assert_eq!(e.page_index, Some(0));
    let e = merge(&vec![request("x.pdf", 0, Some("guess"))], &vec![Some(locked.clone())], None)
        .err()
        .expect("the merge fails");
    assert_eq!(e.key, "PDF_PAGE_DECRYPT_ERROR");
    assert_eq!(e.file_path, Some("x.pdf".to_string()));
    assert_eq!(e.page_index, Some(0));
    let merged = merge(&vec![request("x.pdf", 1, Some("open sesame"))], &vec![Some(locked)], None)
        .expect("the merge succeeds");
    assert_eq!(page_texts(&merged.document), vec!["x-1"]);
    assert!(merged.document.trailer.get(b"Encrypt").is_none());
}

#[test]
fn merge_ignores_the_password_of_a_source_that_is_not_encrypted() {
    let x = sample_bytes("x", 1);
    let merged = merge(&vec![request("x.pdf", 0, Some("unused"))], &vec![Some(x)], None)
        .expect("the merge succeeds");
    assert_eq!(page_texts(&merged.document), vec!["x-0"]);
}

#[test]
fn open_source_tells_the_failures_apart() {
    let locked = encrypted_sample_bytes("x", 1, "p");
    assert_eq!(open_source(b"%PDF-", &None).err(), Some(ErrorKind::SourceLoadFailed));
    assert_eq!(open_source(&locked, &None).err(), Some(ErrorKind::PasswordRequired));
    assert_eq!(
        open_source(&locked, &Some("q".to_string())).err(),
        Some(ErrorKind::PasswordIncorrect)
    );
    let opened = open_source(&locked, &Some("p".to_string())).ok().expect("the password fits");
    assert_eq!(opened.pages.len(), 1);
    assert!(opened.document.objects.contains_key(&opened.pages[0]));
}

#[test]
fn merge_with_a_password_asks_for_encryption() {
    let x = sample_bytes("x", 1);
    let merged = merge(&vec![request("x.pdf", 0, None)], &vec![Some(x)], Some("p"))
        .expect("the merge succeeds");
    let d = merged.encryption.expect("the result is to be encrypted");
    assert_eq!(d.algorithm, EncryptionAlgorithm::Aes128);
    assert_eq!(d.owner_password, "p");
    assert_eq!(d.user_password, "p");
    assert_eq!(d.permissions, lopdf::Permissions::default().bits());
    assert!(d.encrypt_metadata);
    assert_eq!(d.stream_filter, b"Default".to_vec());
    assert_eq!(d.string_filter, b"Default".to_vec());
    assert_eq!(EncryptionAlgorithm::Aes128.minimum_minor_version(), 5);
    assert_eq!(EncryptionAlgorithm::LegacyRc4.minimum_minor_version(), 4);
}

#[test]
fn encrypted_merge_opens_with_its_password_only() {
    let x = sample_bytes("x", 3);
    let requests = vec![request("x.pdf", 2, None), request("x.pdf", 0, None)];
    let contents = vec![Some(x.clone()), Some(x)];
    let password = Some("p".to_string());
    let plain = merge(&requests, &contents, None).expect("the merge succeeds");
    let plain_texts = page_texts(&plain.document);
    assert_eq!(plain_texts, vec!["x-2", "x-0"]);

    let done = download_file("merged.pdf", Some("/downloads/merged.pdf"), &requests, &contents, &password)
        .ok()
        .expect("the merge succeeds");
    assert_eq!(done.success.key, "PDF_DOWNLOAD_SUCCESS");
    assert_eq!(done.success.file_path, "/downloads/merged.pdf");
    let sealed_bytes = done.bytes;

    let mut reader = lopdf::Document::load_mem(&sealed_bytes).expect("the result can be parsed");
    assert!(reader.is_encrypted());
    assert_eq!(reader.version, "1.5");
    assert!(reader.clone().decrypt("wrong").is_err());
    reader.decrypt("p").expect("the password fits");
    assert_eq!(reader.get_pages().len(), 2);

    let again = vec![request("sealed.pdf", 0, Some("p")), request("sealed.pdf", 1, Some("p"))];
    let reopened = merge(&again, &vec![Some(sealed_bytes.clone()), Some(sealed_bytes.clone())], None)
        .expect("the merge succeeds");
    assert_eq!(page_texts(&reopened.document), plain_texts);

    let e = merge(&vec![request("sealed.pdf", 0, Some("wrong"))], &vec![Some(sealed_bytes.clone())], None)
        .err()
        .expect("the merge fails");
    assert_eq!(e.key, "PDF_PAGE_DECRYPT_ERROR");
    let e = merge(&vec![request("sealed.pdf", 0, None)], &vec![Some(sealed_bytes)], None)
        .err()
        .expect("the merge fails");
    assert_eq!(e.key, "PDF_PASSWORD_REQUIRED");
}

#[test]
fn download_without_a_password_is_plain() {
    let x = sample_bytes("x", 2);
    let requests = vec![request("x.pdf", 1, None)];
    let done = download_file("merged.pdf", Some("/d/merged.pdf"), &requests, &vec![Some(x)], &None)
        .ok()
        .expect("the merge succeeds");
    let reader = lopdf::Document::load_mem(&done.bytes).expect("the result can be parsed");
    assert!(!reader.is_encrypted());
    assert_eq!(reader.get_pages().len(), 1);
    assert_eq!(reader.version, "1.5");
}

#[test]
fn download_of_nothing_is_never_encrypted() {
    let done = download_file("merged.pdf", Some("/d/merged.pdf"), &vec![], &vec![], &Some("p".to_string()))
        .ok()
        .expect("the merge succeeds");
    let reader = lopdf::Document::load_mem(&done.bytes).expect("the result can be parsed");
    assert!(!reader.is_encrypted());
    assert_eq!(reader.get_pages().len(), 0);
    assert!(reader.catalog().is_ok());
}

#[test]
fn download_reports_a_failing_request() {
    let x = sample_bytes("x", 1);
    let requests = vec![request("x.pdf", 0, None), request("x.pdf", 1, None)];
    let e = download_file("merged.pdf", Some("/d/merged.pdf"), &requests, &vec![Some(x.clone()), Some(x)], &None)
        .err()
        .expect("the merge fails");
    assert_eq!(e.key, "PDF_PAGE_NOT_FOUND");
    assert_eq!(e.page_index, Some(1));
}

#[test]
fn seal_with_the_legacy_cipher_gives_an_encrypted_container() {
    let x = sample_bytes("x", 1);
    let mut merged = merge(&vec![request("x.pdf", 0, None)], &vec![Some(x)], Some("p")).expect("the merge succeeds");
    merged.encryption.as_mut().expect("the result is to be encrypted").algorithm = EncryptionAlgorithm::LegacyRc4;
    let done = seal(merged, "merged.pdf", "/d/merged.pdf").ok().expect("the container is sealed");
    let mut reader = lopdf::Document::load_mem(&done.bytes).expect("the result can be parsed");
    assert!(reader.is_encrypted());
    assert!(reader.clone().decrypt("wrong").is_err());
    reader.decrypt("p").expect("the password fits");
    assert_eq!(reader.get_pages().len(), 1);
}

#[test]
fn real_numbers_keep_their_value() {
    let x = sample_bytes("x", 1);
    let merged = merge(&vec![request("x.pdf", 0, None)], &vec![Some(x)], None).expect("the merge succeeds");
    let reader = to_lopdf(&merged.document);
    let page = reader.get_dictionary(merged.pages[0]).expect("the page is stored");
    assert_eq!(
        page.get(b"MediaBox").unwrap(),
        &lopdf::Object::Array(vec![
            lopdf::Object::Integer(0),
            lopdf::Object::Integer(0),
            lopdf::Object::Real(595.5),
            lopdf::Object::Real(842.25),
        ])
    );
}

#[test]
fn session_merges_one_request_at_a_time() {
    let x = sample_bytes("x", 2);
    let y = sample_bytes("y", 1);
    let mut session = MergeSession::new();
    session.add("merged.pdf", &request("x.pdf", 1, None), parse(&x)).expect("the page is merged");
    let e = session.add("merged.pdf", &request("y.pdf", 3, None), parse(&y)).err().expect("the page is missing");
    assert_eq!(e.key, "PDF_PAGE_NOT_FOUND");
    assert_eq!(e.file_path, Some("y.pdf".to_string()));
    let e = session.add("merged.pdf", &request("z.pdf", 0, None), None).err().expect("the source was not read");
    assert_eq!(e.key, "PDF_PAGE_LOAD_ERROR");
    // A failure leaves the merge as it was.
    session.add("merged.pdf", &request("y.pdf", 0, None), parse(&y)).expect("the page is merged");
    let merged = session.finish("merged.pdf", "/d/merged.pdf", &Some("p".to_string()));
    assert_eq!(page_texts(&merged.document), vec!["x-1", "y-0"]);
    assert_eq!(merged.success.file_path, "/d/merged.pdf");
    assert!(merged.encryption.is_some());
}

/// A plain recursive copy on the writer's own objects, to compare with.
fn copy_with_dependencies(
    doc: &lopdf::Document,
    id: lopdf::ObjectId,
    out: &mut lopdf::Document,
    seen: &mut BTreeMap<lopdf::ObjectId, lopdf::ObjectId>,
) -> lopdf::ObjectId {
    if let Some(&done) = seen.get(&id) {
        return done;
    }
    let new_id = out.new_object_id();
    seen.insert(id, new_id);
    let copy = copy_value(doc.get_object(id).unwrap(), doc, out, seen);
    out.objects.insert(new_id, copy);
    new_id
}

fn copy_value(
    value: &lopdf::Object,
    doc: &lopdf::Document,
    out: &mut lopdf::Document,
    seen: &mut BTreeMap<lopdf::ObjectId, lopdf::ObjectId>,
) -> lopdf::Object {
    let mut copy_dict = |dict: &lopdf::Dictionary, out: &mut lopdf::Document| {
        let mut new_dict = lopdf::Dictionary::new();
        for (k, v) in dict.iter() {
            new_dict.set(k.clone(), copy_value(v, doc, out, seen));
        }
        new_dict
    };
    match value {
        lopdf::Object::Reference(id) => lopdf::Object::Reference(copy_with_dependencies(doc, *id, out, seen)),
        lopdf::Object::Array(items) => {
            lopdf::Object::Array(items.iter().map(|v| copy_value(v, doc, out, seen)).collect())
        }
        lopdf::Object::Dictionary(dict) => lopdf::Object::Dictionary(copy_dict(dict, out)),
        lopdf::Object::Stream(stream) => lopdf::Object::Stream(lopdf::Stream {
            dict: copy_dict(&stream.dict, out),
            content: stream.content.clone(),
            allows_compression: stream.allows_compression,
            start_position: stream.start_position,
        }),
        other => other.clone(),
    }
}

#[test]
fn merge_agrees_with_a_plain_copy_of_the_parsed_sources() {
    let x = sample_bytes("x", 3);
    let y = sample_bytes("y", 2);
    let asked = [("x.pdf", &x, 2usize), ("y.pdf", &y, 1), ("x.pdf", &x, 0), ("y.pdf", &y, 1)];

    let mut want = lopdf::Document::with_version("1.5");
    let mut maps: BTreeMap<&str, BTreeMap<lopdf::ObjectId, lopdf::ObjectId>> = BTreeMap::new();
    let mut want_pages = Vec::new();
    for (path, bytes, index) in asked.iter() {
        let doc = lopdf::Document::load_mem(bytes).expect("the sample can be parsed");
        let page = doc.get_pages()[&(*index as u32 + 1)];
        want_pages.push(copy_with_dependencies(&doc, page, &mut want, maps.entry(*path).or_default()));
    }

    let requests: Vec<_> = asked.iter().map(|(path, _, index)| request(path, *index, None)).collect();
    let contents: Vec<_> = asked.iter().map(|(_, bytes, _)| Some((*bytes).clone())).collect();
    let merged = merge(&requests, &contents, None).expect("the merge succeeds");

    assert_eq!(merged.pages, want_pages);
    let got = to_lopdf(&merged.document);
    for (id, object) in want.objects.iter() {
        assert_eq!(got.objects.get(id), Some(object), "object {:?}", id);
    }
    // Besides the copies there are the page tree and the catalog.
    assert_eq!(merged.document.objects.len(), want.objects.len() + 2);
}

#[test]
fn every_kind_of_object_survives_the_way_through_the_library() {
    let mut doc = sample("x", 1);
    let mut all = lopdf::Dictionary::new();
    all.set("Null", lopdf::Object::Null);
    all.set("True", lopdf::Object::Boolean(true));
    all.set("False", lopdf::Object::Boolean(false));
    all.set("Integer", lopdf::Object::Integer(-42));
    all.set("Real", lopdf::Object::Real(-0.125));
    all.set("Small", lopdf::Object::Real(0.000015));
    all.set("Name", lopdf::Object::Name(b"A#B".to_vec()));
    all.set("Literal", lopdf::Object::String(b"plain (text)".to_vec(), lopdf::StringFormat::Literal));
    all.set("Hexadecimal", lopdf::Object::String(vec![0, 255, 16], lopdf::StringFormat::Hexadecimal));
    all.set(
        "Array",
        lopdf::Object::Array(vec![
            lopdf::Object::Array(vec![]),
            lopdf::Object::Dictionary(lopdf::Dictionary::new()),
            lopdf::Object::Reference((1, 0)),
        ]),
    );
    let all_id = doc.add_object(all);
    let page_id = doc.get_pages()[&1];
    doc.get_dictionary_mut(page_id).unwrap().set("Everything", lopdf::Object::Reference(all_id));
    let bytes = bytes_of(&mut doc);
    let parsed = lopdf::Document::load_mem(&bytes).expect("the sample can be parsed");

    let opened = open_source(&bytes, &None).ok().expect("the sample can be opened");
    assert_eq!(opened.pages, parsed.get_pages().into_values().collect::<Vec<_>>());
    assert_eq!(opened.document.version, parsed.version);
    assert_eq!(opened.document.max_id, parsed.max_id);
    let back = to_lopdf(&opened.document);
    for (id, object) in parsed.objects.iter() {
        // The writer describes the file in a stream of its own, which differs.
        if matches!(object, lopdf::Object::Stream(s) if s.dict.has_type(b"XRef")) {
            continue;
        }
        assert_eq!(back.objects.get(id), Some(object), "object {:?}", id);
    }
    assert_eq!(back.trailer.get(b"Root").ok(), parsed.trailer.get(b"Root").ok());
    assert_eq!(back.trailer.get(b"ID").ok(), parsed.trailer.get(b"ID").ok());
    match &opened.document.objects[&all_id] {
        ObjectValue::Dictionary(d) => {
            assert_eq!(entry(d, b"Real"), &ObjectValue::Real(b"-0.125".to_vec()));
            assert_eq!(entry(d, b"Small"), &ObjectValue::Real(b"0.000015".to_vec()));
            assert_eq!(entry(d, b"Null"), &ObjectValue::Null);
            assert_eq!(entry(d, b"True"), &ObjectValue::Boolean(true));
            assert_eq!(entry(d, b"Integer"), &ObjectValue::Integer(-42));
            assert_eq!(entry(d, b"Name"), &ObjectValue::Name(b"A#B".to_vec()));
            assert_eq!(
                entry(d, b"Hexadecimal"),
                &ObjectValue::String(vec![0, 255, 16], StringFormat::Hexadecimal)
            );
            assert_eq!(
                entry(d, b"Literal"),
                &ObjectValue::String(b"plain (text)".to_vec(), StringFormat::Literal)
            );
        }
        other => panic!("{:?} is no dictionary", other),
    }
}

#[test]
fn container_bytes_are_what_the_writer_makes_of_the_content() {
    let x = sample_bytes("x", 2);
    let merged = merge(&vec![request("x.pdf", 1, None)], &vec![Some(x.clone())], None).expect("the merge succeeds");
    let bytes = container_bytes(&merged.document).expect("the container can be written");
    assert!(bytes.starts_with(b"%PDF-1.5"));
    assert!(bytes.ends_with(b"%%EOF"));
    // Equal content gives equal bytes.
    let opened = open_source(&x, &None).ok().expect("the sample can be opened");
    let again = open_source(&x, &None).ok().expect("the sample can be opened");
    assert_eq!(opened.document, again.document);
    assert_eq!(opened.pages, again.pages);
    assert_eq!(container_bytes(&opened.document), container_bytes(&again.document));
    let reread = lopdf::Document::load_mem(&bytes).expect("the bytes can be parsed");
    assert_eq!(reread.get_pages().len(), 1);
}

#[test]
fn container_bytes_needs_two_object_numbers_for_the_writer() {
    let mut doc = Container::with_version("1.5");
    assert!(container_bytes(&doc).is_some());
    doc.max_id = u32::MAX - 1;
    assert_eq!(container_bytes(&doc), None);
    doc.max_id = u32::MAX;
    assert_eq!(container_bytes(&doc), None);
}

#[test]
fn seal_fails_where_no_object_number_is_left() {
    let x = sample_bytes("x", 1);
    let mut merged = merge(&vec![request("x.pdf", 0, None)], &vec![Some(x.clone())], Some("p")).expect("the merge succeeds");
    merged.document.max_id = u32::MAX;
    let e = seal(merged, "merged.pdf", "/d/merged.pdf").err().expect("the encryption fails");
    assert_eq!(e.key, "PDF_ENCRYPT_ERROR");
    assert_eq!(e.file_path, Some("/d/merged.pdf".to_string()));
    let mut merged = merge(&vec![request("x.pdf", 0, None)], &vec![Some(x)], None).expect("the merge succeeds");
    merged.document.max_id = u32::MAX - 1;
    let e = seal(merged, "merged.pdf", "/d/merged.pdf").err().expect("the writing fails");
    assert_eq!(e.key, "PDF_SAVE_ERROR");
}

/// A stream that packs the given objects, each written as the text of a
/// direct object, under the given object numbers.
fn object_stream(members: &[(u32, &str)]) -> lopdf::Stream {
    let mut index = String::new();
    let mut body = String::new();
    for (number, text) in members {
        index.push_str(&format!("{} {} ", number, body.len()));
        body.push_str(text);
        body.push(' ');
    }
    let mut dict = lopdf::Dictionary::new();
    dict.set("Type", lopdf::Object::Name(b"ObjStm".to_vec()));
    dict.set("N", lopdf::Object::Integer(members.len() as i64));
    dict.set("First", lopdf::Object::Integer(index.len() as i64));
    lopdf::Stream::new(dict, format!("{}{}", index, body).into_bytes())
}

/// What `lopdf` itself makes of the encrypted container under the password.
fn decrypted_by_lopdf(doc: &lopdf::Document, password: &str) -> (Container, Vec<ObjectId>) {
    let mut plain = doc.clone();
    plain.decrypt(password).expect("the password fits");
    let pages = plain.page_iter().collect();
    (from_lopdf(&plain), pages)
}

#[test]
fn encrypted_source_that_packs_objects_is_unpacked() {
    let mut doc = sample("x", 2);
    let first = doc.max_id + 1;
    // The streams pack a new object each, one that is stored already, one under a number
    // that both pack, and one under the number that the encryption dictionary will take.
    let taken = format!("{}", first + 2);
    doc.add_object(object_stream(&[(90, "<</A 1>>"), (1, "(replaced)"), (92, "[1 2 3]")]));
    let filler = format!("({})", "a".repeat(300));
    let mut second = object_stream(&[(91, "/Name"), (92, "(late)"), (first + 2, "null"), (93, &filler)]);
    second.compress().expect("the stream can be compressed");
    assert!(second.dict.get(b"Filter").is_ok());
    doc.add_object(second);
    encrypt(&mut doc, "p", b"Default", b"Default", ALL_PERMISSIONS, true);
    assert_eq!(doc.trailer.get(b"Encrypt").unwrap().as_reference().unwrap(), (first + 2, 0), "{}", taken);

    let source = from_lopdf(&doc);
    assert!(source.is_encrypted());
    assert!(!source.objects.contains_key(&(90, 0)));
    assert_eq!(
        pdfmerge::collector::open_source(from_lopdf(&doc), &None).err(),
        Some(ErrorKind::PasswordRequired)
    );
    assert_eq!(
        pdfmerge::collector::open_source(from_lopdf(&doc), &Some("q".to_string())).err(),
        Some(ErrorKind::PasswordIncorrect)
    );

    let opened = pdfmerge::collector::open_source(source, &Some("p".to_string())).ok().expect("the password fits");
    let (expected, pages) = decrypted_by_lopdf(&doc, "p");
    assert_eq!(opened.document, expected);
    assert_eq!(opened.pages, pages);
    assert_eq!(opened.pages.len(), 2);

    let mut a = Dict::new();
    a.set(b"A".to_vec(), ObjectValue::Integer(1));
    assert_eq!(opened.document.objects.get(&(90, 0)), Some(&ObjectValue::Dictionary(a)));
    assert_eq!(opened.document.objects.get(&(91, 0)), Some(&ObjectValue::Name(b"Name".to_vec())));
    // Of two packed objects under one number the one of the earlier stream is taken.
    assert_eq!(
        opened.document.objects.get(&(92, 0)),
        Some(&ObjectValue::Array(vec![
            ObjectValue::Integer(1),
            ObjectValue::Integer(2),
            ObjectValue::Integer(3)
        ]))
    );
    // What is stored already is not replaced, and nothing takes the place of the encryption dictionary.
    assert_ne!(opened.document.objects.get(&(1, 0)), Some(&ObjectValue::String(b"replaced".to_vec(), StringFormat::Literal)));
    assert!(!opened.document.objects.contains_key(&(first + 2, 0)));
    assert!(!opened.document.is_encrypted());
    assert_eq!(opened.document.trailer.get(b"Encrypt"), None);
    // The streams are typed as before and left without their filters.
    for id in [(first, 0), (first + 1, 0)] {
        match opened.document.objects.get(&id) {
            Some(ObjectValue::Stream(stream)) => {
                assert_eq!(stream.dict.get(b"Type"), Some(&ObjectValue::Name(b"ObjStm".to_vec())));
                assert_eq!(stream.dict.get(b"Filter"), None);
            }
            other => panic!("{:?} is no stream", other),
        }
    }
}

#[test]
fn encrypted_source_whose_packed_objects_cannot_be_read_is_not_loaded() {
    // Without the offset of the first object the stream cannot be unpacked.
    let mut doc = sample("x", 1);
    let mut broken = object_stream(&[(90, "<</A 1>>")]);
    broken.dict.remove(b"First");
    doc.add_object(broken);
    encrypt(&mut doc, "p", b"Default", b"Default", ALL_PERMISSIONS, true);
    assert_eq!(
        pdfmerge::collector::open_source(from_lopdf(&doc), &Some("p".to_string())).err(),
        Some(ErrorKind::SourceLoadFailed)
    );
    assert_eq!(
        pdfmerge::collector::open_source(from_lopdf(&doc), &Some("q".to_string())).err(),
        Some(ErrorKind::PasswordIncorrect)
    );
    let mut session = MergeSession::new();
    let e = session
        .add("merged.pdf", &request("x.pdf", 0, Some("p")), Some(from_lopdf(&doc)))
        .err()
        .expect("the request fails");
    assert_eq!(e.key, "PDF_PAGE_LOAD_ERROR");
    assert_eq!(e.file_path, Some("x.pdf".to_string()));

    // A stream is not unpacked where its decoding could overflow: with the filter
    // `ASCII85Decode`, or with a predictor on rows whose size cannot be computed.
    let mut doc = sample("x", 1);
    let mut encoded = object_stream(&[(90, "<</A 1>>")]);
    encoded.dict.set("Filter", lopdf::Object::Name(b"ASCII85Decode".to_vec()));
    doc.add_object(encoded);
    encrypt(&mut doc, "p", b"Default", b"Default", ALL_PERMISSIONS, true);
    assert_eq!(
        pdfmerge::collector::open_source(from_lopdf(&doc), &Some("p".to_string())).err(),
        Some(ErrorKind::SourceLoadFailed)
    );
    let mut doc = sample("x", 1);
    let mut predicted = object_stream(&[(90, "<</A 1>>")]);
    let mut parms = lopdf::Dictionary::new();
    parms.set("Predictor", lopdf::Object::Integer(12));
    parms.set("Colors", lopdf::Object::Integer(i64::MAX));
    parms.set("BitsPerComponent", lopdf::Object::Integer(i64::MAX));
    predicted.dict.set("Filter", lopdf::Object::Name(b"FlateDecode".to_vec()));
    predicted.dict.set("DecodeParms", lopdf::Object::Dictionary(parms));
    doc.add_object(predicted);
    encrypt(&mut doc, "p", b"Default", b"Default", ALL_PERMISSIONS, true);
    assert_eq!(
        pdfmerge::collector::open_source(from_lopdf(&doc), &Some("p".to_string())).err(),
        Some(ErrorKind::SourceLoadFailed)
    );

    // A plain source is taken as it is, whatever it packs.
    let mut doc = sample("x", 1);
    let mut broken = object_stream(&[(90, "<</A 1>>")]);
    broken.dict.remove(b"First");
    doc.add_object(broken);
    let expected = from_lopdf(&doc);
    let opened = pdfmerge::collector::open_source(from_lopdf(&doc), &None).ok().expect("the source is plain");
    assert_eq!(opened.document, expected);
    assert_eq!(opened.pages.len(), 1);
}

#[test]
fn containers_say_whether_they_are_encrypted() {
    let x = sample_bytes("x", 1);
    let source = parse(&x).expect("the sample can be parsed");
    assert!(!source.is_encrypted());
    let locked = parse(&encrypted_sample_bytes("x", 1, "p")).expect("the sample can be parsed");
    assert!(locked.is_encrypted());
    let mut odd = Container::new();
    odd.trailer.set(b"Encrypt".to_vec(), ObjectValue::Integer(1));
    assert!(!odd.is_encrypted());
    odd.trailer.set(b"Encrypt".to_vec(), ObjectValue::Reference((1, 0)));
    assert!(!odd.is_encrypted());
    odd.objects.insert((1, 0), ObjectValue::Reference((2, 0)));
    odd.objects.insert((2, 0), ObjectValue::Dictionary(Dict::new()));
    assert!(odd.is_encrypted());
    odd.objects.insert((2, 0), ObjectValue::Null);
    assert!(!odd.is_encrypted());
}

#[test]
fn write_encrypted_writes_nothing_without_an_encrypted_container() {
    let report = || pdfmerge::structs::DownloadSuccessRes::new("merged.pdf", "/d/merged.pdf");
    let e = write_encrypted(Err(SealFailure::Refused), report(), "merged.pdf", "/d/merged.pdf").err().expect("nothing is written");
    assert_eq!(e.key, "PDF_ENCRYPT_ERROR");
    assert_eq!(e.file_name, "merged.pdf");
    assert_eq!(e.file_path, Some("/d/merged.pdf".to_string()));
    assert_eq!(e.page_index, None);

    let held = from_lopdf(&sample("x", 2));
    let expected = container_bytes(&held).expect("the container can be written");
    let done = write_encrypted(Ok(held), report(), "merged.pdf", "/d/merged.pdf")
        .ok()
        .expect("the container is written");
    assert_eq!(done.bytes, expected);
    assert_eq!(done.success.file_path, "/d/merged.pdf");

    let mut full = from_lopdf(&sample("x", 1));
    full.max_id = u32::MAX - 1;
    let e = write_encrypted(Ok(full), report(), "merged.pdf", "/d/merged.pdf").err().expect("the writing fails");
    assert_eq!(e.key, "PDF_SAVE_ERROR");
}

#[test]
fn encrypted_source_with_harmless_decoding_parameters_is_unpacked() {
    // Decoding parameters with which nothing overflows are left to the decoder.
    for (predictor, columns) in [(1i64, 1i64), (12, 4)] {
        let mut doc = sample("x", 1);
        let mut packed = object_stream(&[(90, "<</A 1>>"), (91, "[/B /C]")]);
        let mut parms = lopdf::Dictionary::new();
        parms.set("Predictor", lopdf::Object::Integer(predictor));
        parms.set("Columns", lopdf::Object::Integer(columns));
        packed.dict.set("DecodeParms", lopdf::Object::Dictionary(parms));
        doc.add_object(packed);
        encrypt(&mut doc, "p", b"Default", b"Default", ALL_PERMISSIONS, true);
        let opened = pdfmerge::collector::open_source(from_lopdf(&doc), &Some("p".to_string()))
            .ok()
            .expect("the source is opened");
        let (expected, pages) = decrypted_by_lopdf(&doc, "p");
        assert_eq!(opened.document, expected);
        assert_eq!(opened.pages, pages);
        assert!(opened.document.objects.contains_key(&(90, 0)));
        assert!(opened.document.objects.contains_key(&(91, 0)));
    }
}

/// Whether `b` is `a` but for the bytes of strings, the payloads of streams and the
/// lengths that streams record.
fn sealed_like(a: &ObjectValue, b: &ObjectValue) -> bool {
    match (a, b) {
        (ObjectValue::String(_, f), ObjectValue::String(_, g)) => f == g,
        (ObjectValue::Real(_), ObjectValue::Real(_)) => true,
        (ObjectValue::Array(x), ObjectValue::Array(y)) => {
            x.len() == y.len() && x.iter().zip(y.iter()).all(|(p, q)| sealed_like(p, q))
        }
        (ObjectValue::Dictionary(x), ObjectValue::Dictionary(y)) => {
            x.len() == y.len()
                && (0..x.len()).all(|i| x.key(i) == y.key(i) && sealed_like(x.value(i), y.value(i)))
        }
        (ObjectValue::Stream(x), ObjectValue::Stream(y)) => {
            x.allows_compression == y.allows_compression
                && x.start_position == y.start_position
                && x.dict.len() == y.dict.len()
                && (0..x.dict.len()).all(|i| {
                    x.dict.key(i) == y.dict.key(i)
                        && (x.dict.key(i).as_slice() == b"Length" || x.dict.value(i) == y.dict.value(i))
                })
        }
        _ => a == b,
    }
}

#[test]
fn encrypt_container_keeps_all_but_strings_and_payloads() {
    let x = sample_bytes("x", 3);
    let requests = vec![request("x.pdf", 2, None), request("x.pdf", 0, None)];
    let contents = vec![Some(x.clone()), Some(x)];
    for algorithm in [EncryptionAlgorithm::Aes128, EncryptionAlgorithm::LegacyRc4] {
        let mut merged = merge(&requests, &contents, Some("p")).expect("the merge succeeds");
        // A string as an object of its own, and one inside a list.
        let text = merged.document.add_object(ObjectValue::String(b"plain text".to_vec(), StringFormat::Literal));
        let list = merged.document.add_object(ObjectValue::Array(vec![
            ObjectValue::String(b"inside".to_vec(), StringFormat::Hexadecimal),
            ObjectValue::Integer(7),
        ]));
        let mut descriptor = merged.encryption.take().expect("the result is to be encrypted");
        descriptor.algorithm = algorithm;
        let plain = merged.document;
        let sealed = encrypt_container(&plain, &descriptor).ok().expect("the container is encrypted");
        let mut full = from_lopdf(&sample("x", 1));
        full.max_id = u32::MAX;
        assert_eq!(encrypt_container(&full, &descriptor).err(), Some(SealFailure::NoNumberLeft));

        assert_eq!(read_cipher(&sealed), Some(algorithm));
        assert!(pdfmerge::sealing::is_sealed_as(&sealed, &descriptor));
        assert!(sealed.is_encrypted());
        assert_eq!(sealed.version, plain.version);
        assert_eq!(sealed.max_id, plain.max_id + 1);
        assert_eq!(sealed.objects.len(), plain.objects.len() + 1);
        assert!(matches!(sealed.objects.get(&(sealed.max_id, 0)), Some(ObjectValue::Dictionary(_))));
        assert_eq!(sealed.trailer.len(), plain.trailer.len() + 1);
        assert_eq!(sealed.trailer.get(b"Encrypt"), Some(&ObjectValue::Reference((sealed.max_id, 0))));
        assert_eq!(sealed.trailer.key(sealed.trailer.len() - 1), &b"Encrypt".to_vec());
        assert_eq!(sealed.trailer.get(b"Root"), plain.trailer.get(b"Root"));
        assert_eq!(sealed.trailer.get(b"ID"), plain.trailer.get(b"ID"));
        let mut changed = 0;
        for (id, object) in plain.objects.iter() {
            let other = sealed.objects.get(id).expect("the object is kept");
            assert!(sealed_like(object, other), "{:?} became {:?}", object, other);
            if object != other {
                changed += 1;
            }
        }
        // The streams and the two objects with strings are encrypted, and nothing else.
        let streams = plain.objects.values().filter(|o| matches!(o, ObjectValue::Stream(_))).count();
        assert!(streams >= 2);
        assert_eq!(changed, streams + 2);
        assert_ne!(sealed.objects.get(&text), plain.objects.get(&text));
        assert_ne!(sealed.objects.get(&list), plain.objects.get(&list));
        // Page tree and catalog are as they were.
        let tree = (plain.max_id - 3, 0);
        assert_eq!(plain.objects.get(&tree), Some(&pdfmerge::merger::page_tree_object(&merged.pages)));
        assert_eq!(sealed.objects.get(&tree), plain.objects.get(&tree));
        assert_eq!(sealed.objects.get(&(plain.max_id - 2, 0)), plain.objects.get(&(plain.max_id - 2, 0)));
    }
}
