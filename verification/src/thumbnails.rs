use crate::structs::DocumentData;
use crate::text::{contains, decimal, decimal_digits, mentions, text_eq};
use vstd::prelude::*;
use vstd::string::*;

verus! {

/// What kind of file a source is, as its extension says.
#[derive(Clone, Copy, Debug, PartialEq, Eq, Structural)]
pub enum SourceKind {
    /// Plain text, which is turned into a one-page container first.
    Text,
    /// A picture, which is turned into a one-page container first.
    Image,
    /// Anything else is taken to be a container.
    Container,
}

/// The kind of a file with this extension, in lower case.
pub open spec fn kind_of(extension: Seq<char>) -> SourceKind {
    if extension == "txt"@ {
        SourceKind::Text
    } else if extension == "png"@ || extension == "jpg"@ {
        SourceKind::Image
    } else {
        SourceKind::Container
    }
}

/// Tells the kind of a file from its extension, in lower case.
pub fn source_kind(extension: &str) -> (kind: SourceKind)
    ensures
        kind == kind_of(extension@),
{
    if text_eq(extension, "txt") {
        SourceKind::Text
    } else if text_eq(extension, "png") || text_eq(extension, "jpg") {
        SourceKind::Image
    } else {
        SourceKind::Container
    }
}

/// Why a container could not be opened for rendering.
#[derive(Clone, Copy, Debug, PartialEq, Eq, Structural)]
pub enum LoadFailure {
    /// It is encrypted and no password was given.
    PasswordRequired,
    /// It is encrypted and the password given does not fit.
    PasswordIncorrect,
    /// It cannot be read for another reason.
    Unreadable,
}

/// Whether a message, in lower case, speaks of a password or of encryption.
pub open spec fn speaks_of_password(message: Seq<u8>) -> bool {
    mentions(message, "password".spec_bytes()) || mentions(message, "encrypted".spec_bytes())
}

/// Why a container could not be opened, as the message of the failure, in
/// lower case, tells: a message that speaks of a password or of encryption
/// means a wrong password where one was given and a missing one where none
/// was.
pub open spec fn failure_of(message: Seq<u8>, password_given: bool) -> LoadFailure {
    if !speaks_of_password(message) {
        LoadFailure::Unreadable
    } else if password_given {
        LoadFailure::PasswordIncorrect
    } else {
        LoadFailure::PasswordRequired
    }
}

/// Tells why a container could not be opened from the message of the
/// failure, in lower case.
pub fn load_failure(message: &str, password_given: bool) -> (failure: LoadFailure)
    ensures
        failure == failure_of(message.spec_bytes(), password_given),
{
    let bytes = message.as_bytes();
    if !(contains(bytes, "password".as_bytes()) || contains(bytes, "encrypted".as_bytes())) {
        LoadFailure::Unreadable
    } else if password_given {
        LoadFailure::PasswordIncorrect
    } else {
        LoadFailure::PasswordRequired
    }
}

impl LoadFailure {
    /// The key under which the failure is reported.
    pub open spec fn spec_key(self) -> Seq<char> {
        match self {
            LoadFailure::PasswordRequired => "PDF_PASSWORD_REQUIRED"@,
            LoadFailure::PasswordIncorrect => "PDF_PASSWORD_INCORRECT"@,
            LoadFailure::Unreadable => "PDF_LOAD_ERROR"@,
        }
    }

    /// The key under which the failure is reported.
    pub fn key(self) -> (k: String)
        ensures
            k@ == self.spec_key(),
    {
        match self {
            LoadFailure::PasswordRequired => "PDF_PASSWORD_REQUIRED".to_string(),
            LoadFailure::PasswordIncorrect => "PDF_PASSWORD_INCORRECT".to_string(),
            LoadFailure::Unreadable => "PDF_LOAD_ERROR".to_string(),
        }
    }
}

/// The identifier of the thumbnail of a page: the identifier of the
/// document, an underscore, and the page index.
pub fn thumbnail_id(document_id: &str, page_index: usize) -> (id: String)
    ensures
        id@ == document_id@ + "_"@ + decimal_digits(page_index as nat),
{
    let mut id = String::from_str(document_id);
    id.append("_");
    id.append(decimal(page_index as u64).as_str());
    id
}

/// A document without pages, with the reason why it has none.
pub fn document_without_pages(id: String, file_name: String, file_path: String, reason: &str) -> (d:
    DocumentData)
    ensures
        d.id == id,
        d.file_name == file_name,
        d.file_path == file_path,
        d.thumbnails@.len() == 0,
        d.error matches Some(text) && text@ == reason@,
{
    DocumentData { id, file_name, file_path, thumbnails: Vec::new(), error: Some(String::from_str(reason)) }
}

} // verus!
