use vstd::prelude::*;

verus! {

/// Why a merge failed.
#[derive(Clone, Copy, Debug, PartialEq, Eq, Structural)]
pub enum ErrorKind {
    /// The bytes of a source could not be read or parsed.
    SourceLoadFailed,
    /// A source is encrypted and no password came with the request.
    PasswordRequired,
    /// A source is encrypted and did not accept the password.
    PasswordIncorrect,
    /// A source has no page at the requested index.
    PageNotFound,
    /// The place of the output could not be determined.
    OutputPathUnresolvable,
    /// The result could not be encrypted.
    EncryptionFailed,
    /// The result could not be serialised or written.
    SaveFailed,
    /// The destination has no object numbers left for the source's objects.
    ObjectLimitExceeded,
}

impl ErrorKind {
    /// The key under which the failure is reported.
    pub open spec fn spec_key(self) -> Seq<char> {
        match self {
            ErrorKind::SourceLoadFailed => "PDF_PAGE_LOAD_ERROR"@,
            ErrorKind::PasswordRequired => "PDF_PASSWORD_REQUIRED"@,
            ErrorKind::PasswordIncorrect => "PDF_PAGE_DECRYPT_ERROR"@,
            ErrorKind::PageNotFound => "PDF_PAGE_NOT_FOUND"@,
            ErrorKind::OutputPathUnresolvable => "PDF_OUTPUT_PATH_ERROR"@,
            ErrorKind::EncryptionFailed => "PDF_ENCRYPT_ERROR"@,
            ErrorKind::SaveFailed => "PDF_SAVE_ERROR"@,
            ErrorKind::ObjectLimitExceeded => "PDF_OBJECT_LIMIT_ERROR"@,
        }
    }

    /// The key under which the failure is reported.
    pub fn key(self) -> (k: String)
        ensures
            k@ == self.spec_key(),
    {
        match self {
            ErrorKind::SourceLoadFailed => "PDF_PAGE_LOAD_ERROR".to_string(),
            ErrorKind::PasswordRequired => "PDF_PASSWORD_REQUIRED".to_string(),
            ErrorKind::PasswordIncorrect => "PDF_PAGE_DECRYPT_ERROR".to_string(),
            ErrorKind::PageNotFound => "PDF_PAGE_NOT_FOUND".to_string(),
            ErrorKind::OutputPathUnresolvable => "PDF_OUTPUT_PATH_ERROR".to_string(),
            ErrorKind::EncryptionFailed => "PDF_ENCRYPT_ERROR".to_string(),
            ErrorKind::SaveFailed => "PDF_SAVE_ERROR".to_string(),
            ErrorKind::ObjectLimitExceeded => "PDF_OBJECT_LIMIT_ERROR".to_string(),
        }
    }

    /// Whether the failure is about one requested page of one source.
    pub open spec fn about_source(self) -> bool {
        match self {
            ErrorKind::SourceLoadFailed
            | ErrorKind::PasswordRequired
            | ErrorKind::PasswordIncorrect
            | ErrorKind::PageNotFound
            | ErrorKind::ObjectLimitExceeded => true,
            _ => false,
        }
    }
}

} // verus!
