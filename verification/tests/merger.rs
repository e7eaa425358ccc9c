use pdfmerge::collector::{page_at, strip_encryption, unlock_step, Unlock};
use pdfmerge::container::Container;
use pdfmerge::convert::image_container;
use pdfmerge::encryption::should_encrypt;
use pdfmerge::error::ErrorKind;
use pdfmerge::merger::{catalog_object, page_tree_object, Merger};
use pdfmerge::object::{Dict, ObjectValue, StringFormat};
use std::collections::BTreeMap;

fn dict(entries: Vec<(&str, ObjectValue)>) -> ObjectValue {
    let mut d = Dict::new();
    for (k, v) in entries {
        d.set(k.as_bytes().to_vec(), v);
    }
    ObjectValue::Dictionary(d)
}

fn name(text: &str) -> ObjectValue {
    ObjectValue::Name(text.as_bytes().to_vec())
}

/// A source whose pages 1 and 2 both use the font 3.
fn source() -> Container {
    let mut doc = Container::new();
    for page in [1u32, 2] {
        doc.objects.insert(
            (page, 0),
            dict(vec![("Type", name("Page")), ("Font", ObjectValue::Reference((3, 0))), ("N", ObjectValue::Integer(page as i64))]),
        );
    }
    doc.objects.insert((3, 0), dict(vec![("Type", name("Font"))]));
    doc.max_id = 3;
    doc
}

#[test]
fn merger_keeps_one_map_for_each_source() {
    let a = source();
    let b = source();
    let mut merger = Merger::new();
    assert_eq!(merger.document.version, "1.5");
    let a1 = merger.add_page(&"a.pdf".to_string(), &a, (1, 0)).unwrap();
    let b1 = merger.add_page(&"b.pdf".to_string(), &b, (1, 0)).unwrap();
    let a2 = merger.add_page(&"a.pdf".to_string(), &a, (2, 0)).unwrap();
    let a1_again = merger.add_page(&"a.pdf".to_string(), &a, (1, 0)).unwrap();
    assert_eq!(merger.pages, vec![a1, b1, a2, a1_again]);
    assert_eq!(a1, a1_again);
    assert_eq!(merger.id_maps.len(), 2);
    // Page and font of a, page and font of b, second page of a.
    assert_eq!(merger.document.objects.len(), 5);
    let font_of = |page| match &merger.document.objects[&page] {
        ObjectValue::Dictionary(d) => match d.get(b"Font") {
            Some(ObjectValue::Reference(id)) => *id,
            other => panic!("{:?} is no reference", other),
        },
        other => panic!("{:?} is no dictionary", other),
    };
    assert_eq!(font_of(a1), font_of(a2));
    assert_ne!(font_of(a1), font_of(b1));
}

#[test]
fn merger_refuses_a_page_that_the_source_lacks() {
    let a = source();
    let mut merger = Merger::new();
    assert_eq!(merger.add_page(&"a.pdf".to_string(), &a, (9, 0)), Err(ErrorKind::PageNotFound));
    assert_eq!(merger.add_page(&"a.pdf".to_string(), &a, (1, 1)), Err(ErrorKind::PageNotFound));
    assert!(merger.pages.is_empty());
    assert!(merger.id_maps.is_empty());
    assert!(merger.document.objects.is_empty());
}

#[test]
fn merger_refuses_a_source_that_needs_too_many_identifiers() {
    let a = source();
    let mut merger = Merger::new();
    // Two identifiers are kept back for page tree and catalog.
    merger.document.max_id = u32::MAX - 2 - 2;
    assert_eq!(merger.add_page(&"a.pdf".to_string(), &a, (1, 0)), Err(ErrorKind::ObjectLimitExceeded));
    assert!(merger.pages.is_empty());
    merger.document.max_id = u32::MAX - 2 - 3;
    let page = merger.add_page(&"a.pdf".to_string(), &a, (1, 0)).unwrap();
    assert_eq!(page, (u32::MAX - 4, 0));
    let (doc, pages) = merger.finish(vec![1; 16]);
    assert_eq!(pages, vec![page]);
    assert_eq!(doc.max_id, u32::MAX - 1);
}

#[test]
fn finish_keeps_an_identifier_that_the_trailer_has() {
    let mut merger = Merger::new();
    merger.document.trailer.set(b"ID".to_vec(), ObjectValue::Integer(7));
    let (doc, pages) = merger.finish(vec![1; 16]);
    assert!(pages.is_empty());
    assert_eq!(doc.trailer.get(b"ID"), Some(&ObjectValue::Integer(7)));
    assert_eq!(doc.trailer.get(b"Root"), Some(&ObjectValue::Reference((2, 0))));
    assert_eq!(doc.trailer.key(0), &b"ID".to_vec());
    assert_eq!(doc.max_id, 2);
    assert_eq!(doc.objects[&(1, 0)], page_tree_object(&vec![]));
    assert_eq!(doc.objects[&(2, 0)], catalog_object((1, 0)));
}

#[test]
fn finish_makes_an_identifier_of_the_fresh_bytes() {
    let (doc, _) = Merger::new().finish(b"0123456789abcdef".to_vec());
    let half = ObjectValue::String(b"0123456789abcdef".to_vec(), StringFormat::Hexadecimal);
    assert_eq!(doc.trailer.get(b"ID"), Some(&ObjectValue::Array(vec![
        ObjectValue::String(b"0123456789abcdef".to_vec(), StringFormat::Hexadecimal),
        half,
    ])));
    assert_eq!(doc.trailer.key(0), &b"Root".to_vec());
    assert_eq!(doc.trailer.key(1), &b"ID".to_vec());
}

#[test]
fn page_tree_and_catalog_have_their_entries_in_order() {
    assert_eq!(
        page_tree_object(&vec![(4, 0), (2, 0), (4, 0)]),
        dict(vec![
            ("Type", name("Pages")),
            (
                "Kids",
                ObjectValue::Array(vec![
                    ObjectValue::Reference((4, 0)),
                    ObjectValue::Reference((2, 0)),
                    ObjectValue::Reference((4, 0)),
                ])
            ),
            ("Count", ObjectValue::Integer(3)),
        ])
    );
    assert_eq!(
        catalog_object((9, 1)),
        dict(vec![("Type", name("Catalog")), ("Pages", ObjectValue::Reference((9, 1)))])
    );
}

#[test]
fn unlock_step_decides_on_encryption_and_password() {
    assert_eq!(unlock_step(false, false), Unlock::NotNeeded);
    assert_eq!(unlock_step(false, true), Unlock::NotNeeded);
    assert_eq!(unlock_step(true, true), Unlock::Attempt);
    assert_eq!(unlock_step(true, false), Unlock::PasswordMissing);
}

#[test]
fn page_at_counts_from_zero() {
    let pages = vec![(10u32, 0u16), (20, 0), (40, 0)];
    assert_eq!(page_at(&pages, 0), Some((10, 0)));
    assert_eq!(page_at(&pages, 1), Some((20, 0)));
    assert_eq!(page_at(&pages, 2), Some((40, 0)));
    assert_eq!(page_at(&pages, 3), None);
    assert_eq!(page_at(&pages, u32::MAX as usize), None);
    assert_eq!(page_at(&pages, usize::MAX), None);
    assert_eq!(page_at(&vec![], 0), None);
}

#[test]
fn strip_encryption_removes_the_entry_of_the_trailer() {
    let mut doc = Container::new();
    doc.trailer.set(b"Root".to_vec(), ObjectValue::Reference((1, 0)));
    doc.trailer.set(b"Encrypt".to_vec(), ObjectValue::Reference((2, 0)));
    doc.trailer.set(b"ID".to_vec(), ObjectValue::Null);
    strip_encryption(&mut doc);
    assert_eq!(doc.trailer.get(b"Encrypt"), None);
    assert_eq!(doc.trailer.len(), 2);
    strip_encryption(&mut doc);
    assert_eq!(doc.trailer.len(), 2);
}

#[test]
fn should_encrypt_needs_password_and_pages() {
    assert!(should_encrypt(&Some("p".to_string()), 1));
    assert!(should_encrypt(&Some(String::new()), 3));
    assert!(!should_encrypt(&Some("p".to_string()), 0));
    assert!(!should_encrypt(&None, 1));
    assert!(!should_encrypt(&None, 0));
}

fn to_lopdf_object(value: &ObjectValue) -> lopdf::Object {
    match value {
        ObjectValue::Null => lopdf::Object::Null,
        ObjectValue::Boolean(b) => lopdf::Object::Boolean(*b),
        ObjectValue::Integer(n) => lopdf::Object::Integer(*n),
        ObjectValue::Real(text) => lopdf::Object::Real(String::from_utf8_lossy(text).parse().unwrap()),
        ObjectValue::Name(n) => lopdf::Object::Name(n.clone()),
        ObjectValue::String(s, StringFormat::Literal) => lopdf::Object::String(s.clone(), lopdf::StringFormat::Literal),
        ObjectValue::String(s, StringFormat::Hexadecimal) => {
            lopdf::Object::String(s.clone(), lopdf::StringFormat::Hexadecimal)
        }
        ObjectValue::Array(items) => lopdf::Object::Array(items.iter().map(to_lopdf_object).collect()),
        ObjectValue::Dictionary(d) => lopdf::Object::Dictionary(to_lopdf_dict(d)),
        ObjectValue::Stream(s) => lopdf::Object::Stream(lopdf::Stream {
            dict: to_lopdf_dict(&s.dict),
            content: s.content.clone(),
            allows_compression: s.allows_compression,
            start_position: s.start_position,
        }),
        ObjectValue::Reference(id) => lopdf::Object::Reference(*id),
    }
}

fn to_lopdf_dict(dict: &Dict) -> lopdf::Dictionary {
    let mut out = lopdf::Dictionary::new();
    for i in 0..dict.len() {
        out.set(dict.key(i).clone(), to_lopdf_object(dict.value(i)));
    }
    out
}

#[test]
fn image_container_shows_one_picture_on_one_page() {
    let (width, height) = (640u32, 480u32);
    let jpeg = vec![0xff, 0xd8, 0xff, 0xd9];
    let doc = image_container(width, height, jpeg.clone());

    // The same container, built with the writer's own objects.
    let mut want = lopdf::Document::with_version("1.5");
    let xobject_id = want.new_object_id();
    let mut xobject_dict = lopdf::Dictionary::new();
    xobject_dict.set("Type", "XObject");
    xobject_dict.set("Subtype", "Image");
    xobject_dict.set("Width", width as i64);
    xobject_dict.set("Height", height as i64);
    xobject_dict.set("ColorSpace", "DeviceRGB");
    xobject_dict.set("BitsPerComponent", 8);
    xobject_dict.set("Filter", "DCTDecode");
    want.objects.insert(xobject_id, lopdf::Object::Stream(lopdf::Stream::new(xobject_dict, jpeg)));
    let content = format!("q\n{} 0 0 {} 0 0 cm\n/Im0 Do\nQ\n", width, height);
    let content_id = want.add_object(lopdf::Stream::new(lopdf::Dictionary::new(), content.into_bytes()));
    let mut resources = lopdf::Dictionary::new();
    let mut xobjects = lopdf::Dictionary::new();
    xobjects.set("Im0", xobject_id);
    resources.set("XObject", lopdf::Object::Dictionary(xobjects));
    let mut page_dict = lopdf::Dictionary::new();
    page_dict.set("Type", "Page");
    page_dict.set("MediaBox", vec![0.into(), 0.into(), width.into(), height.into()]);
    page_dict.set("Contents", content_id);
    page_dict.set("Resources", resources);
    let page_id = want.add_object(page_dict);
    let pages_id = want.new_object_id();
    let mut pages_dict = lopdf::Dictionary::new();
    pages_dict.set("Type", lopdf::Object::Name(b"Pages".to_vec()));
    pages_dict.set("Kids", lopdf::Object::Array(vec![page_id.into()]));
    pages_dict.set("Count", lopdf::Object::Integer(1));
    want.objects.insert(pages_id, lopdf::Object::Dictionary(pages_dict));
    let catalog_id = want.new_object_id();
    let mut catalog_dict = lopdf::Dictionary::new();
    catalog_dict.set("Type", lopdf::Object::Name(b"Catalog".to_vec()));
    catalog_dict.set("Pages", lopdf::Object::Reference(pages_id));
    want.objects.insert(catalog_id, lopdf::Object::Dictionary(catalog_dict));
    want.trailer.set("Root", catalog_id);

    assert_eq!(doc.version, want.version);
    assert_eq!(doc.max_id, want.max_id);
    assert_eq!(to_lopdf_dict(&doc.trailer), want.trailer);
    let got: BTreeMap<_, _> = doc.objects.iter().map(|(id, v)| (*id, to_lopdf_object(v))).collect();
    assert_eq!(got, want.objects);
    // Key for key, in the same order.
    for (id, object) in want.objects.iter() {
        if let (lopdf::Object::Dictionary(w), ObjectValue::Dictionary(g)) = (object, &doc.objects[id]) {
            let order: Vec<Vec<u8>> = (0..g.len()).map(|i| g.key(i).clone()).collect();
            assert_eq!(order, w.iter().map(|(k, _)| k.clone()).collect::<Vec<_>>());
        }
    }
}
