use crate::error::ErrorKind;
use vstd::prelude::*;

verus! {

/// One rendered page of a document, as shown in the page overview.
#[derive(Debug)]
pub struct ThumbnailData {
    pub id: String,
    pub page_index: usize,
    pub file_path: String,
    /// The picture as a data URL.
    pub thumbnail: String,
    pub width: u32,
    pub height: u32,
}

/// One requested page of a merge: a source, a page index counted from
/// zero, and the password of the source if it has one.
#[derive(Debug)]
pub struct ThumbnailDownloadData {
    pub file_path: String,
    pub page_index: usize,
    pub password: Option<String>,
}

/// A document with its rendered pages, or the reason why it has none.
#[derive(Debug)]
pub struct DocumentData {
    pub id: String,
    pub file_name: String,
    pub file_path: String,
    pub thumbnails: Vec<ThumbnailData>,
    pub error: Option<String>,
}

/// The rendered pages of a container.
#[derive(Debug)]
pub struct PdfThumbnailsData {
    pub file_name: String,
    pub file_path: String,
    pub thumbnails: Vec<ThumbnailData>,
}

/// One page rendered at full resolution.
#[derive(Debug)]
pub struct FullImageData {
    pub data_url: String,
    pub width: u32,
    pub height: u32,
}

/// What a successful merge reports.
#[derive(Debug)]
pub struct DownloadSuccessRes {
    pub key: String,
    pub file_name: String,
    pub file_path: String,
}

/// What a failed merge reports: the kind of failure as a key, the name of
/// the output, and the source and page, or the output path, that it is
/// about.
#[derive(Debug)]
pub struct CommandErrRes {
    pub key: String,
    pub file_name: String,
    pub file_path: Option<String>,
    pub page_index: Option<usize>,
}

/// The key that a successful merge reports.
pub open spec fn success_key() -> Seq<char> {
    "PDF_DOWNLOAD_SUCCESS"@
}

impl CommandErrRes {
    /// Whether the report is the one of a failure of the given kind on the
    /// given requested page.
    pub open spec fn is_about_source(
        &self,
        kind: ErrorKind,
        file_name: Seq<char>,
        request: &ThumbnailDownloadData,
    ) -> bool {
        &&& self.key@ == kind.spec_key()
        &&& self.file_name@ == file_name
        &&& self.file_path matches Some(path) && path@ == request.file_path@
        &&& self.page_index == Some(request.page_index)
    }

    /// Whether the report is the one of a failure of the given kind on the
    /// output, whose path may be unknown.
    pub open spec fn is_about_output(
        &self,
        kind: ErrorKind,
        file_name: Seq<char>,
        output_path: Option<Seq<char>>,
    ) -> bool {
        &&& self.key@ == kind.spec_key()
        &&& self.file_name@ == file_name
        &&& self.page_index is None
        &&& match output_path {
            Some(path) => self.file_path matches Some(p) && p@ == path,
            None => self.file_path is None,
        }
    }

    /// The report of a failure on one requested page of one source.
    pub fn about_source(kind: ErrorKind, file_name: &str, request: &ThumbnailDownloadData) -> (e:
        CommandErrRes)
        ensures
            e.is_about_source(kind, file_name@, request),
    {
        CommandErrRes {
            key: kind.key(),
            file_name: file_name.to_string(),
            file_path: Some(request.file_path.clone()),
            page_index: Some(request.page_index),
        }
    }

    /// The report of a failure on the output.
    pub fn about_output(kind: ErrorKind, file_name: &str, output_path: Option<&str>) -> (e:
        CommandErrRes)
        ensures
            e.is_about_output(
                kind,
                file_name@,
                match output_path {
                    Some(p) => Some(p@),
                    None => None,
                },
            ),
    {
        CommandErrRes {
            key: kind.key(),
            file_name: file_name.to_string(),
            file_path: match output_path {
                Some(p) => Some(p.to_string()),
                None => None,
            },
            page_index: None,
        }
    }
}

impl DownloadSuccessRes {
    /// The report of a merge written to `output_path`.
    pub fn new(file_name: &str, output_path: &str) -> (s: DownloadSuccessRes)
        ensures
            s.key@ == success_key(),
            s.file_name@ == file_name@,
            s.file_path@ == output_path@,
    {
        DownloadSuccessRes {
            key: "PDF_DOWNLOAD_SUCCESS".to_string(),
            file_name: file_name.to_string(),
            file_path: output_path.to_string(),
        }
    }
}

} // verus!
