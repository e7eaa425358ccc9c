use crate::container::{holds_object_stream, Container, Content};
use crate::encryption::EncryptionDescriptor;
use crate::object::{Dict, ObjectId, ObjectValue, Stream, StringFormat, Value};
use crate::packed::can_unpack;
use crate::sealing::encrypted_from;
use lopdf::encryption::crypt_filters::{Aes128CryptFilter, CryptFilter};
use std::collections::BTreeMap;
use std::sync::Arc;
use vstd::prelude::*;

verus! {

/// A container as `lopdf` holds it. Nothing inside it is known here.
#[verifier::external_type_specification]
#[verifier::external_body]
pub struct ExDocument(lopdf::Document);

/// An object as `lopdf` holds it. Nothing inside it is known here.
#[verifier::external_type_specification]
#[verifier::external_body]
pub struct ExObject(lopdf::Object);

/// A dictionary as `lopdf` holds it. Nothing inside it is known here.
#[verifier::external_type_specification]
#[verifier::external_body]
pub struct ExDictionary(lopdf::Dictionary);

/// A failure of `lopdf`. Nothing inside it is known here.
#[verifier::external_type_specification]
#[verifier::external_body]
pub struct ExError(lopdf::Error);

/// The keys and settings with which `lopdf` encrypts. Nothing inside them
/// is known here.
#[verifier::external_type_specification]
#[verifier::external_body]
pub struct ExEncryptionState(lopdf::EncryptionState);

/// What `lopdf::Document::decrypt` makes of a container under a password:
/// what the decrypted container holds, or nothing where the password does
/// not fit.
pub uninterp spec fn decrypted(held: Content, password: Seq<char>) -> Option<Content>;

/// What `lopdf::ObjectStream::new` makes of a stream that packs other
/// objects: the stream as it leaves it, and the objects found in it with
/// their identifiers, in ascending order; or nothing where it fails.
pub uninterp spec fn unpacked(stream: Value) -> Option<(Value, Seq<(ObjectId, Value)>)>;

/// The page roots that `lopdf::Document::page_iter` finds in a container,
/// in the order of the pages.
pub uninterp spec fn page_roots(held: Content) -> Seq<ObjectId>;

/// The bytes that `lopdf::Document::save_to` writes for a container, or
/// nothing where the writing fails.
pub uninterp spec fn written(held: Content) -> Option<Seq<u8>>;

/// The largest object number with which a container can still be written:
/// the writer takes one number for its cross-reference stream and counts
/// one beyond that.
pub const MAX_WRITABLE_ID: u32 = 0xffff_fffd;

/// Hands over an object of `lopdf` that has parts, or a reference, variant
/// for variant; the other variants go through `export_plain`.
#[verifier::external_body]
fn export_object(object: &lopdf::Object) -> ObjectValue {
    match object {
        lopdf::Object::Array(items) => ObjectValue::Array(items.iter().map(export_object).collect()),
        lopdf::Object::Dictionary(d) => ObjectValue::Dictionary(export_dictionary(d)),
        lopdf::Object::Stream(s) => ObjectValue::Stream(Stream {
            dict: export_dictionary(&s.dict),
            content: s.content.clone(),
            allows_compression: s.allows_compression,
            start_position: s.start_position,
        }),
        lopdf::Object::Reference(id) => ObjectValue::Reference(*id),
        plain => export_plain(plain),
    }
}

/// Hands over an object of `lopdf` that has no parts, variant for variant,
/// a real number as the decimal text that `to_string` gives; the other
/// variants go through `export_object`.
#[verifier::external_body]
fn export_plain(object: &lopdf::Object) -> ObjectValue {
    match object {
        lopdf::Object::Null => ObjectValue::Null,
        lopdf::Object::Boolean(b) => ObjectValue::Boolean(*b),
        lopdf::Object::Integer(n) => ObjectValue::Integer(*n),
        lopdf::Object::Real(x) => ObjectValue::Real(x.to_string().into_bytes()),
        lopdf::Object::Name(n) => ObjectValue::Name(n.clone()),
        lopdf::Object::String(s, lopdf::StringFormat::Literal) => ObjectValue::String(s.clone(), StringFormat::Literal),
        lopdf::Object::String(s, lopdf::StringFormat::Hexadecimal) => ObjectValue::String(s.clone(), StringFormat::Hexadecimal),
        parted => export_object(parted),
    }
}

/// Hands over the entries of a dictionary of `lopdf`, in their order.
#[verifier::external_body]
fn export_dictionary(dict: &lopdf::Dictionary) -> Dict {
    Dict { entries: dict.iter().map(|(k, v)| (k.clone(), export_object(v))).collect() }
}

/// Hands over what a container of `lopdf` holds: version, trailer, object
/// table and largest object number.
#[verifier::external_body]
fn export_document(doc: &lopdf::Document) -> Container {
    Container {
        version: doc.version.clone(),
        trailer: export_dictionary(&doc.trailer),
        objects: doc.objects.iter().map(|(id, o)| (*id, export_object(o))).collect(),
        max_id: doc.max_id,
    }
}

/// Makes the object of `lopdf` that has the parts of an object of the
/// library, or its reference, variant for variant; the other variants go
/// through `import_plain`.
#[verifier::external_body]
fn import_object(object: &ObjectValue) -> lopdf::Object {
    match object {
        ObjectValue::Array(items) => lopdf::Object::Array(items.iter().map(import_object).collect()),
        ObjectValue::Dictionary(d) => lopdf::Object::Dictionary(import_dictionary(d)),
        ObjectValue::Stream(s) => lopdf::Object::Stream(lopdf::Stream {
            dict: import_dictionary(&s.dict),
            content: s.content.clone(),
            allows_compression: s.allows_compression,
            start_position: s.start_position,
        }),
        ObjectValue::Reference(id) => lopdf::Object::Reference(*id),
        plain => import_plain(plain),
    }
}

/// Makes the object of `lopdf` for an object of the library that has no
/// parts, variant for variant; a real number is what `str::parse` reads
/// from its decimal text, and zero where the text is no number. The other
/// variants go through `import_object`.
#[verifier::external_body]
fn import_plain(object: &ObjectValue) -> lopdf::Object {
    match object {
        ObjectValue::Null => lopdf::Object::Null,
        ObjectValue::Boolean(b) => lopdf::Object::Boolean(*b),
        ObjectValue::Integer(n) => lopdf::Object::Integer(*n),
        ObjectValue::Real(text) => lopdf::Object::Real(String::from_utf8_lossy(text).parse().unwrap_or_default()),
        ObjectValue::Name(n) => lopdf::Object::Name(n.clone()),
        ObjectValue::String(s, StringFormat::Literal) => lopdf::Object::String(s.clone(), lopdf::StringFormat::Literal),
        ObjectValue::String(s, StringFormat::Hexadecimal) => lopdf::Object::String(s.clone(), lopdf::StringFormat::Hexadecimal),
        parted => import_object(parted),
    }
}

/// Makes the dictionary of `lopdf` with the entries of a dictionary of the
/// library, in their order.
#[verifier::external_body]
fn import_dictionary(dict: &Dict) -> lopdf::Dictionary {
    dict.entries.iter().map(|(k, v)| (k.clone(), import_object(v))).collect()
}

/// Makes the container of `lopdf` that holds what a container of the
/// library holds: `lopdf::Document::with_version` makes an empty one, which
/// takes trailer, object table and largest object number. Handed back by
/// `export_document` it is the same but for the text of real numbers.
#[verifier::external_body]
fn import_document(doc: &Container) -> lopdf::Document {
    let mut out = lopdf::Document::with_version(doc.version.clone());
    out.trailer = import_dictionary(&doc.trailer);
    out.objects = doc.objects.iter().map(|(id, o)| (*id, import_object(o))).collect();
    out.max_id = doc.max_id;
    out
}

/// `lopdf::EncryptionState::try_from` on `lopdf::EncryptionVersion::V4`,
/// for the container of `lopdf` that `import_document` makes of `document`:
/// derives the keys for AES with 128 bits from the descriptor's passwords
/// and permissions and the container's identifier, with the AES crypt
/// filter bound to the descriptor's two filter names. The keys end in
/// random bytes, so nothing is claimed of the outcome.
#[verifier::external_body]
pub(crate) fn aes_state(document: &Container, d: &EncryptionDescriptor) -> (r: Result<
    lopdf::EncryptionState,
    lopdf::Error,
>) {
    let doc = import_document(document);
    let filter: Arc<dyn CryptFilter> = Arc::new(Aes128CryptFilter);
    lopdf::EncryptionState::try_from(lopdf::EncryptionVersion::V4 {
        document: &doc,
        encrypt_metadata: d.encrypt_metadata,
        crypt_filters: BTreeMap::from([(d.stream_filter.clone(), filter.clone()), (d.string_filter.clone(), filter)]),
        stream_filter: d.stream_filter.clone(),
        string_filter: d.string_filter.clone(),
        owner_password: &d.owner_password,
        user_password: &d.user_password,
        permissions: lopdf::Permissions::from_bits_retain(d.permissions),
    })
}

/// `lopdf::EncryptionState::try_from` on `lopdf::EncryptionVersion::V1`,
/// for the container of `lopdf` that `import_document` makes of `document`:
/// derives the 40-bit key of the legacy cipher from the descriptor's
/// passwords and permissions and the container's identifier. Nothing is
/// claimed of the outcome.
#[verifier::external_body]
pub(crate) fn legacy_state(document: &Container, d: &EncryptionDescriptor) -> (r: Result<
    lopdf::EncryptionState,
    lopdf::Error,
>) {
    let doc = import_document(document);
    lopdf::EncryptionState::try_from(lopdf::EncryptionVersion::V1 {
        document: &doc,
        owner_password: &d.owner_password,
        user_password: &d.user_password,
        permissions: lopdf::Permissions::from_bits_retain(d.permissions),
    })
}

/// `lopdf::Document::encrypt` on the container of `lopdf` that
/// `import_document` makes of `document`, with the keys and settings of
/// `state`; what the container holds afterwards is handed over, unless the
/// encryption failed. `encrypt` replaces the bytes of strings and the
/// payloads of streams, in objects and in the lists and dictionaries that
/// objects are made of, and records the new length of a stream in its
/// dictionary; it stores the encryption dictionary, which is made of
/// names, numbers, strings and dictionaries of these, under the next object
/// number and makes the trailer refer to it under `Encrypt`. The bytes it
/// writes depend on random bytes, so the contract says what holds of every
/// outcome, as `encrypted_from` lays out. The next object number must be
/// left.
#[verifier::external_body]
pub(crate) fn encrypt_with(document: &Container, state: &lopdf::EncryptionState) -> (sealed: Option<
    Container,
>)
    requires
        document.max_id < u32::MAX,
    ensures
        sealed matches Some(s) ==> encrypted_from(document.content(), s.content()),
{
    let mut doc = import_document(document);
    doc.encrypt(state).ok().map(|_| export_document(&doc))
}

/// `lopdf::Document::save_to` on the container of `lopdf` that
/// `import_document` makes of `document`, here into a byte vector, which is
/// handed out unless the writing failed. The outcome is a function of what
/// `document` holds, which the contract names. The writer takes one object
/// number beyond the largest and counts one beyond that, so two must be
/// left.
#[verifier::external_body]
pub(crate) fn write_container(document: &Container) -> (bytes: Option<Vec<u8>>)
    requires
        document.max_id <= MAX_WRITABLE_ID,
    ensures
        match bytes {
            Some(b) => written(document.content()) == Some(b@),
            None => written(document.content()) is None,
        },
{
    let mut doc = import_document(document);
    let mut bytes = Vec::new();
    doc.save_to(&mut bytes).ok().map(|_| bytes)
}

/// The identifiers and contents of objects that were found in a stream.
pub open spec fn members_of(objects: Seq<(ObjectId, ObjectValue)>) -> Seq<(ObjectId, Value)> {
    objects.map_values(|member: (ObjectId, ObjectValue)| (member.0, member.1@))
}

/// `lopdf::ObjectStream::new` on the stream of `lopdf` that `import_object`
/// makes of `object`: it takes off the stream's filters where it can and
/// parses the objects listed in its payload. The stream as it is left and
/// the objects found are handed over, or nothing where it fails. The
/// outcome is a function of the stream, which the contract names. The
/// offsets of the packed objects, the filter `ASCII85Decode` and the size of
/// a row of pixels for a predictor are computed with unchecked arithmetic,
/// so machine and dictionary must be such as `can_unpack` admits.
#[verifier::external_body]
pub(crate) fn unpack_stream(object: &ObjectValue) -> (r: Option<
    (ObjectValue, Vec<(ObjectId, ObjectValue)>),
>)
    requires
        object@ matches Value::Stream { dict, .. } && can_unpack(dict),
    ensures
        match r {
            Some((left, found)) => unpacked(object@) == Some((left@, members_of(found@))),
            None => unpacked(object@) is None,
        },
{
    let mut stream = import_object(object);
    let found = lopdf::ObjectStream::new(stream.as_stream_mut().ok()?).ok()?.objects;
    Some((export_object(&stream), found.iter().map(|(id, o)| (*id, export_object(o))).collect()))
}

/// `lopdf::Document::decrypt` on the container of `lopdf` that
/// `import_document` makes of `document`; what it holds afterwards is
/// handed over, unless the password did not fit. The outcome is a function
/// of what `document` holds and of the password, which the contract names.
/// After decrypting, `decrypt` parses every stream that packs other
/// objects and panics where that fails, so the container must hold none.
#[verifier::external_body]
pub(crate) fn decrypt_container(document: &Container, password: &str) -> (plain: Option<Container>)
    requires
        !holds_object_stream(document.content()),
    ensures
        match plain {
            Some(p) => decrypted(document.content(), password@) == Some(p.content()),
            None => decrypted(document.content(), password@) is None,
        },
{
    let mut doc = import_document(document);
    doc.decrypt(password).ok().map(|_| export_document(&doc))
}

/// `lopdf::Document::page_iter` on the container of `lopdf` that
/// `import_document` makes of `document`: the page roots, one after the
/// other as the iterator gives them. They are a function of what
/// `document` holds, which the contract names.
#[verifier::external_body]
pub(crate) fn page_list(document: &Container) -> (pages: Vec<ObjectId>)
    ensures
        pages@ == page_roots(document.content()),
{
    let doc = import_document(document);
    let mut pages = Vec::new();
    for root in doc.page_iter() {
        pages.push(root);
    }
    pages
}

} // verus!
