use crate::codec::{decrypt_container, decrypted, page_list, page_roots};
use crate::container::{says_encrypted, Container, Content};
use crate::error::ErrorKind;
use crate::names::{encrypt_key, encrypt_key_bytes};
use crate::object::{lookup, without_key, ObjectId, ObjectValue, Value};
use crate::packed::{
    hold_back, lemma_masked_holds_none, masked, packed_ids, unpack_all, unpacked_all, with_table,
};
use vstd::prelude::*;

verus! {

/// A source that has been parsed and, where it was encrypted, decrypted:
/// its content and its page roots in the order of the pages.
#[derive(Debug)]
pub struct OpenedSource {
    pub document: Container,
    pub pages: Vec<ObjectId>,
}

/// What to do about the encryption of a source.
#[derive(Clone, Copy, Debug, PartialEq, Eq, Structural)]
pub enum Unlock {
    /// The source is not encrypted: use it as it is.
    NotNeeded,
    /// The source is encrypted and a password came with the request: try it.
    Attempt,
    /// The source is encrypted and no password came with the request.
    PasswordMissing,
}

/// What to do about the encryption of a source.
pub open spec fn unlock_of(encrypted: bool, password_given: bool) -> Unlock {
    if !encrypted {
        Unlock::NotNeeded
    } else if password_given {
        Unlock::Attempt
    } else {
        Unlock::PasswordMissing
    }
}

/// Decides what to do about the encryption of a source.
pub fn unlock_step(encrypted: bool, password_given: bool) -> (step: Unlock)
    ensures
        step == unlock_of(encrypted, password_given),
{
    if !encrypted {
        Unlock::NotNeeded
    } else if password_given {
        Unlock::Attempt
    } else {
        Unlock::PasswordMissing
    }
}

/// The root of the page at `page_index`, counted from zero.
pub open spec fn page_of(pages: Seq<ObjectId>, page_index: usize) -> Option<ObjectId> {
    if page_index < pages.len() {
        Some(pages[page_index as int])
    } else {
        None
    }
}

/// Finds the root of the page at `page_index`, counted from zero.
pub fn page_at(pages: &Vec<ObjectId>, page_index: usize) -> (root: Option<ObjectId>)
    ensures
        root == page_of(pages@, page_index),
{
    if page_index < pages.len() {
        Some(pages[page_index])
    } else {
        None
    }
}

/// Removes what the trailer says of encryption, so that nothing of it is
/// taken over from a decrypted source.
pub fn strip_encryption(document: &mut Container)
    ensures
        final(document).trailer@ == without_key(old(document).trailer@, encrypt_key()),
        final(document).objects == old(document).objects,
        final(document).version == old(document).version,
        final(document).max_id == old(document).max_id,
{
    let _ = document.trailer.remove(encrypt_key_bytes().as_slice());
}

/// What a decrypted container holds once its trailer no longer speaks of
/// encryption.
pub open spec fn stripped(held: Content) -> Content {
    Content { trailer: without_key(held.trailer, encrypt_key()), ..held }
}

/// The identifier under which a container stores what its trailer says of
/// encryption, if the trailer refers to such an object.
pub open spec fn encryption_id(held: Content) -> Option<ObjectId> {
    match lookup(held.trailer, encrypt_key()) {
        Some(Value::Reference(id)) => Some(id),
        _ => None,
    }
}

/// Finds the identifier under which the container stores what its trailer
/// says of encryption.
pub fn encryption_object(document: &Container) -> (id: Option<ObjectId>)
    ensures
        id == encryption_id(document.content()),
{
    match document.trailer.get(encrypt_key_bytes().as_slice()) {
        Some(ObjectValue::Reference(id)) => Some(*id),
        _ => None,
    }
}

/// What opening a parsed source comes to.
///
/// A container that does not say that it is encrypted is taken as it is,
/// with the pages found in it. One that says so needs a password: without
/// one the password is required. With one, the container is decrypted
/// while its streams that pack other objects are held back, because what
/// they pack can be read only once they are decrypted. A password that
/// does not fit is incorrect. With one that fits, the streams held back
/// are unpacked; where one of them cannot be unpacked the source cannot be
/// loaded, and otherwise the source is the unpacked container, taken
/// without what its trailer says of encryption, with the pages found in
/// it.
pub open spec fn opened(held: Content, password: Option<String>) -> Result<
    (Content, Seq<ObjectId>),
    ErrorKind,
> {
    match unlock_of(says_encrypted(held), password is Some) {
        Unlock::NotNeeded => Ok((held, page_roots(held))),
        Unlock::PasswordMissing => Err(ErrorKind::PasswordRequired),
        Unlock::Attempt => match decrypted(masked(held), password->Some_0@) {
            None => Err(ErrorKind::PasswordIncorrect),
            Some(plain) => match with_table(
                plain,
                unpacked_all(plain.table, packed_ids(held.table), encryption_id(held)),
            ) {
                None => Err(ErrorKind::SourceLoadFailed),
                Some(whole) => Ok((stripped(whole), page_roots(whole))),
            },
        },
    }
}

/// Opens a parsed source: where it says that it is encrypted, decrypts it
/// with the password of the request and unpacks the objects that its
/// streams pack. Decryption, unpacking and the search for the pages are the
/// work of `lopdf`: the contract names their outcomes and says what is made
/// of each, as `opened` lays out.
pub fn open_source(source: Container, password: &Option<String>) -> (r: Result<
    OpenedSource,
    ErrorKind,
>)
    ensures
        match r {
            Ok(o) => opened(source.content(), *password) == Ok::<
                (Content, Seq<ObjectId>),
                ErrorKind,
            >((o.document.content(), o.pages@)),
            Err(e) => opened(source.content(), *password) == Err::<
                (Content, Seq<ObjectId>),
                ErrorKind,
            >(e),
        },
{
    match unlock_step(source.is_encrypted(), password.is_some()) {
        Unlock::NotNeeded => {
            let pages = page_list(&source);
            Ok(OpenedSource { document: source, pages })
        },
        Unlock::PasswordMissing => Err(ErrorKind::PasswordRequired),
        Unlock::Attempt => {
            let skip = encryption_object(&source);
            let mut held = source;
            let packed = hold_back(&mut held);
            proof {
                lemma_masked_holds_none(source.content());
            }
            match decrypt_container(&held, password.as_ref().unwrap().as_str()) {
                Some(plain) => {
                    let mut document = match unpack_all(plain, packed, skip) {
                        Some(whole) => whole,
                        None => {
                            return Err(ErrorKind::SourceLoadFailed);
                        },
                    };
                    let pages = page_list(&document);
                    strip_encryption(&mut document);
                    Ok(OpenedSource { document, pages })
                },
                None => Err(ErrorKind::PasswordIncorrect),
            }
        },
    }
}

} // verus!
