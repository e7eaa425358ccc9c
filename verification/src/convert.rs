use crate::container::{Container, Table};
use crate::merger::{catalog, catalog_object, page_tree, page_tree_object};
use crate::names::{root_key, root_key_bytes};
use crate::object::{
    bytes_copy, stream_value, values_of, with_entry, Dict, Entries, ObjectId, ObjectValue, Stream,
    Value,
};
use crate::text::{decimal, decimal_digits};
use vstd::prelude::*;
use vstd::string::*;

verus! {

/// The bytes of a word, as a key or a name.
fn word(text: &str) -> (bytes: Vec<u8>)
    ensures
        bytes@ == text.spec_bytes(),
{
    bytes_copy(text.as_bytes())
}

/// The name object of a word.
fn name(text: &str) -> (object: ObjectValue)
    ensures
        object@ == Value::Name(text.spec_bytes()),
{
    ObjectValue::Name(word(text))
}

/// The dictionary of the picture's stream, before the payload's length is
/// recorded: a JPEG picture of the given size in the RGB colour space.
pub open spec fn picture_entries(width: u32, height: u32) -> Entries {
    let e0: Entries = Seq::empty();
    let e1 = with_entry(e0, "Type".spec_bytes(), Value::Name("XObject".spec_bytes()));
    let e2 = with_entry(e1, "Subtype".spec_bytes(), Value::Name("Image".spec_bytes()));
    let e3 = with_entry(e2, "Width".spec_bytes(), Value::Integer(width as i64));
    let e4 = with_entry(e3, "Height".spec_bytes(), Value::Integer(height as i64));
    let e5 = with_entry(e4, "ColorSpace".spec_bytes(), Value::Name("DeviceRGB".spec_bytes()));
    let e6 = with_entry(e5, "BitsPerComponent".spec_bytes(), Value::Integer(8));
    with_entry(e6, "Filter".spec_bytes(), Value::Name("DCTDecode".spec_bytes()))
}

/// The commands that draw the picture over the whole page.
pub open spec fn drawing_text(width: u32, height: u32) -> Seq<char> {
    "q\n"@ + decimal_digits(width as nat) + " 0 0 "@ + decimal_digits(height as nat)
        + " 0 0 cm\n/Im0 Do\nQ\n"@
}

/// The page: as large as the picture, drawn by the commands stored under
/// `drawing`, with the picture stored under `picture` as its resource `Im0`.
pub open spec fn picture_page(width: u32, height: u32, picture: ObjectId, drawing: ObjectId) -> Value {
    let e0: Entries = Seq::empty();
    let box_ = Value::Array(
        seq![
            Value::Integer(0),
            Value::Integer(0),
            Value::Integer(width as i64),
            Value::Integer(height as i64),
        ],
    );
    let pictures = with_entry(e0, "Im0".spec_bytes(), Value::Reference(picture));
    let resources = with_entry(e0, "XObject".spec_bytes(), Value::Dictionary(pictures));
    let e1 = with_entry(e0, "Type".spec_bytes(), Value::Name("Page".spec_bytes()));
    let e2 = with_entry(e1, "MediaBox".spec_bytes(), box_);
    let e3 = with_entry(e2, "Contents".spec_bytes(), Value::Reference(drawing));
    Value::Dictionary(with_entry(e3, "Resources".spec_bytes(), Value::Dictionary(resources)))
}

/// The objects of the container that shows one picture on one page: the
/// picture, the commands that draw it, the page, the page tree and the
/// catalog, numbered from 1 in this order.
pub open spec fn picture_table(width: u32, height: u32, jpeg: Seq<u8>) -> Table {
    Map::<ObjectId, Value>::empty().insert(
        (1u32, 0u16),
        stream_value(picture_entries(width, height), jpeg),
    ).insert(
        (2u32, 0u16),
        stream_value(Seq::empty(), vstd::utf8::encode_utf8(drawing_text(width, height))),
    ).insert((3u32, 0u16), picture_page(width, height, (1u32, 0u16), (2u32, 0u16))).insert(
        (4u32, 0u16),
        page_tree(seq![(3u32, 0u16)]),
    ).insert((5u32, 0u16), catalog((4u32, 0u16)))
}

/// Makes the container of version 1.5 that shows one JPEG picture of the
/// given size on one page of that size.
pub fn image_container(width: u32, height: u32, jpeg: Vec<u8>) -> (doc: Container)
    ensures
        doc.version@ == "1.5"@,
        doc.max_id == 5,
        doc.table() == picture_table(width, height, jpeg@),
        doc.trailer@ == with_entry(Seq::empty(), root_key(), Value::Reference((5u32, 0u16))),
{
    let mut doc = Container::with_version("1.5");
    let picture_id = doc.new_object_id();
    let mut picture = Dict::new();
    picture.set(word("Type"), name("XObject"));
    picture.set(word("Subtype"), name("Image"));
    picture.set(word("Width"), ObjectValue::Integer(width as i64));
    picture.set(word("Height"), ObjectValue::Integer(height as i64));
    picture.set(word("ColorSpace"), name("DeviceRGB"));
    picture.set(word("BitsPerComponent"), ObjectValue::Integer(8));
    picture.set(word("Filter"), name("DCTDecode"));
    doc.objects.insert(picture_id, ObjectValue::Stream(Stream::new(picture, jpeg)));

    let mut text = String::from_str("q\n");
    text.append(decimal(width as u64).as_str());
    text.append(" 0 0 ");
    text.append(decimal(height as u64).as_str());
    text.append(" 0 0 cm\n/Im0 Do\nQ\n");
    let drawing_id = doc.add_object(
        ObjectValue::Stream(Stream::new(Dict::new(), word(text.as_str()))),
    );

    let mut pictures = Dict::new();
    pictures.set(word("Im0"), ObjectValue::Reference(picture_id));
    let mut resources = Dict::new();
    resources.set(word("XObject"), ObjectValue::Dictionary(pictures));
    let mut corners: Vec<ObjectValue> = Vec::new();
    corners.push(ObjectValue::Integer(0));
    corners.push(ObjectValue::Integer(0));
    corners.push(ObjectValue::Integer(width as i64));
    corners.push(ObjectValue::Integer(height as i64));
    let media_box = ObjectValue::Array(corners);
    assert(media_box@->Array_0 =~= seq![
        Value::Integer(0),
        Value::Integer(0),
        Value::Integer(width as i64),
        Value::Integer(height as i64),
    ]) by {
        assert(media_box@ == Value::Array(values_of(corners@)));
    }
    let mut page = Dict::new();
    page.set(word("Type"), name("Page"));
    page.set(word("MediaBox"), media_box);
    page.set(word("Contents"), ObjectValue::Reference(drawing_id));
    page.set(word("Resources"), ObjectValue::Dictionary(resources));
    let page_object = ObjectValue::Dictionary(page);
    assert(page_object@ == picture_page(width, height, picture_id, drawing_id));
    let page_id = doc.add_object(page_object);

    let mut pages: Vec<ObjectId> = Vec::new();
    pages.push(page_id);
    assert(pages@ =~= seq![(3u32, 0u16)]);
    let tree_id = doc.add_object(page_tree_object(&pages));
    let catalog_id = doc.add_object(catalog_object(tree_id));
    doc.trailer.set(root_key_bytes(), ObjectValue::Reference(catalog_id));
    assert(doc.table() =~= picture_table(width, height, jpeg@));
    doc
}

} // verus!
