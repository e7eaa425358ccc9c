use crate::cloner::cloned;
use crate::codec::{aes_state, encrypt_with, legacy_state};
use crate::codec::{write_container, written, MAX_WRITABLE_ID};
use crate::collector::{open_source, opened, page_at, page_of};
use crate::container::{lemma_table_dom, Container, Content};
use crate::sealing::{encrypted_from, is_sealed_as, sealed_as};
use crate::encryption::{
    default_filter, encrypts, should_encrypt, EncryptionAlgorithm, EncryptionDescriptor,
    ALL_PERMISSIONS,
};
use crate::error::ErrorKind;
use crate::graph::IdMap;
use crate::merger::{catalog, finished, finished_trailer, output_version, page_tree, Merger};
use crate::merger::RESERVED_IDS;
use crate::object::{ObjectId, ObjectValue};
use crate::structs::{success_key, CommandErrRes, DownloadSuccessRes, ThumbnailDownloadData};
use vstd::prelude::*;

verus! {

/// A finished merge that waits to be written: the container, its page roots
/// in the order of the request, how to encrypt it if at all, and the report
/// to give once it is written.
#[derive(Debug)]
pub struct MergedFile {
    pub document: Container,
    pub pages: Vec<ObjectId>,
    pub encryption: Option<EncryptionDescriptor>,
    pub success: DownloadSuccessRes,
}

/// `uuid::Uuid::new_v4` draws a random identifier, whose bytes
/// `Uuid::as_bytes` gives: there are 16 of them, and nothing more is known.
#[verifier::external_body]
fn fresh_document_id() -> (id: Vec<u8>)
    ensures
        id@.len() == 16,
{
    uuid::Uuid::new_v4().as_bytes().to_vec()
}

/// What a request asks for, given what its parsed source holds, if it was
/// read and parsed: the source as opened and the root of the requested
/// page in it, or the failure. A source that was not read or parsed cannot
/// be loaded; a source that cannot be opened fails as `opened` says; a page
/// that the source does not list, or lists without storing it, is not
/// found.
pub open spec fn asked(request: ThumbnailDownloadData, source: Option<Content>) -> Result<
    (Content, ObjectId),
    ErrorKind,
> {
    match source {
        None => Err(ErrorKind::SourceLoadFailed),
        Some(held) => match opened(held, request.password) {
            Err(kind) => Err(kind),
            Ok((plain, pages)) => match page_of(pages, request.page_index) {
                Some(root) => if plain.table.contains_key(root) {
                    Ok((plain, root))
                } else {
                    Err(ErrorKind::PageNotFound)
                },
                None => Err(ErrorKind::PageNotFound),
            },
        },
    }
}

/// Whether the destination has object numbers for all objects of a source,
/// with those that page tree and catalog will take.
pub open spec fn has_space(destination: Container, plain: Content) -> bool {
    destination.max_id + plain.table.dom().len() <= u32::MAX - RESERVED_IDS
}

/// The failure of a request, if it fails: what `asked` gives, or that the
/// object numbers run out.
pub open spec fn failure_of(
    destination: Container,
    request: ThumbnailDownloadData,
    source: Option<Content>,
) -> Option<ErrorKind> {
    match asked(request, source) {
        Err(kind) => Some(kind),
        Ok((plain, _)) => if has_space(destination, plain) {
            None
        } else {
            Some(ErrorKind::ObjectLimitExceeded)
        },
    }
}

/// What a source holds, if there is one.
pub open spec fn content_of(source: Option<Container>) -> Option<Content> {
    match source {
        Some(c) => Some(c.content()),
        None => None,
    }
}

/// Whether `merged` is the result of a merge for the output `file_name` at
/// `output_path`, with `password` as the password of the output, of the
/// pages under `pages` in the destination `destination`, which stores
/// nothing above its largest object number: the container
/// holds what the destination held and, under the next two object numbers,
/// the page tree over the pages and the catalog; its trailer refers to the
/// catalog and has an identifier of twice the same 16 bytes and nothing
/// else; it is of version 1.5; and it is to be encrypted only if there is a
/// password and a page, and then with AES under that password for owner and
/// user, with nothing forbidden.
pub open spec fn is_merge_of(
    merged: MergedFile,
    file_name: Seq<char>,
    output_path: Seq<char>,
    password: Option<String>,
    destination: Container,
    pages: Seq<ObjectId>,
) -> bool {
    let tree_id = ((destination.max_id + 1) as u32, 0u16);
    let catalog_id = ((destination.max_id + 2) as u32, 0u16);
    &&& merged.success.key@ == success_key()
    &&& merged.success.file_name@ == file_name
    &&& merged.success.file_path@ == output_path
    &&& merged.pages@ == pages
    &&& destination.ids_bounded()
    &&& merged.document.version@ == output_version()
    &&& merged.document.max_id == destination.max_id + RESERVED_IDS
    &&& merged.document.table() == destination.table().insert(tree_id, page_tree(pages)).insert(
        catalog_id,
        catalog(tree_id),
    )
    &&& exists|fresh: Seq<u8>|
        fresh.len() == 16 && merged.document.trailer@ == #[trigger] finished_trailer(
            Seq::empty(),
            catalog_id,
            fresh,
        )
    &&& finished(merged.document, pages)
    &&& merged.encryption is Some <==> encrypts(password, pages.len())
    &&& merged.encryption matches Some(d) ==> {
        &&& password matches Some(secret)
        &&& d.algorithm == EncryptionAlgorithm::Aes128
        &&& d.owner_password@ == secret@
        &&& d.user_password@ == secret@
        &&& d.permissions == ALL_PERMISSIONS
        &&& d.encrypt_metadata
        &&& d.stream_filter@ == default_filter()
        &&& d.string_filter@ == default_filter()
    }
}

/// A merge as its contracts see it: the destination, the roots of the pages
/// merged so far in their order, and the identifier map of each source
/// path.
pub struct SessionView {
    pub destination: Container,
    pub pages: Seq<ObjectId>,
    pub maps: Map<Seq<char>, IdMap>,
}

/// Whether a merge is at its beginning: the destination stores nothing and
/// has handed out no object number, no page is merged and no source is
/// mapped.
pub open spec fn is_fresh(view: SessionView) -> bool {
    &&& view.destination.objects@ == Map::<ObjectId, ObjectValue>::empty()
    &&& view.destination.max_id == 0
    &&& view.pages == Seq::<ObjectId>::empty()
    &&& forall|path: Seq<char>|
        view.maps.contains_key(path) && #[trigger] view.maps[path] == Map::<
            ObjectId,
            ObjectId,
        >::empty()
}

/// How a request that does not fail changes a merge: the requested page is
/// cloned from the opened source into the destination through the map of
/// the request's path, as `cloned` says, its image becomes the last page
/// root, and the maps of the other paths stay.
pub open spec fn merged_by(
    before: SessionView,
    request: ThumbnailDownloadData,
    source: Option<Content>,
    after: SessionView,
) -> bool {
    let plain = asked(request, source)->Ok_0.0;
    let root = asked(request, source)->Ok_0.1;
    let path = request.file_path@;
    &&& after.maps[path].contains_key(root)
    &&& after.pages == before.pages.push(after.maps[path][root])
    &&& cloned(
        plain.table,
        root,
        before.destination,
        before.maps[path],
        after.destination,
        after.maps[path],
    )
    &&& forall|other: Seq<char>|
        after.maps.contains_key(other) && (other != path ==> #[trigger] after.maps[other]
            == before.maps[other])
}

/// What one request makes of a merge: it fails as `failure_of` says and the
/// merge is as it was, or it changes the merge as `merged_by` says.
pub open spec fn step_of(
    before: SessionView,
    file_name: Seq<char>,
    request: ThumbnailDownloadData,
    source: Option<Content>,
    after: SessionView,
    r: Result<(), CommandErrRes>,
) -> bool {
    match failure_of(before.destination, request, source) {
        Some(kind) => r is Err && r->Err_0.is_about_source(kind, file_name, &request) && after
            == before,
        None => r is Ok && merged_by(before, request, source, after),
    }
}

/// A merge that takes its requests one at a time, so that only one source
/// needs to be held while it is cloned.
#[derive(Debug)]
pub struct MergeSession {
    merger: Merger,
}

impl MergeSession {
    /// The merge is between two clones, and its container is still of
    /// version 1.5 with an empty trailer.
    #[verifier::type_invariant]
    spec fn well_formed(self) -> bool {
        &&& self.merger.wf()
        &&& self.merger.document.version@ == output_version()
        &&& self.merger.document.trailer@.len() == 0
    }

    /// The destination as it stands.
    pub closed spec fn destination(self) -> Container {
        self.merger.document
    }

    /// The roots of the pages merged so far, in the order in which they
    /// were added.
    pub closed spec fn pages(self) -> Seq<ObjectId> {
        self.merger.pages@
    }

    /// The identifier map kept for the source of this path; empty where
    /// nothing was cloned from it.
    pub closed spec fn map_of(self, source: Seq<char>) -> IdMap {
        self.merger.map_of(source)
    }

    /// How many pages have been merged.
    pub open spec fn page_count(self) -> nat {
        self.pages().len()
    }

    /// The merge as its contracts see it.
    pub open spec fn view(self) -> SessionView {
        SessionView {
            destination: self.destination(),
            pages: self.pages(),
            maps: Map::total(|path: Seq<char>| self.map_of(path)),
        }
    }

    /// A merge without pages, into an empty destination, with no source
    /// mapped.
    pub fn new() -> (session: MergeSession)
        ensures
            is_fresh(session@),
    {
        let session = MergeSession { merger: Merger::new() };
        proof {
            assert(session@.pages =~= Seq::<ObjectId>::empty());
            assert forall|path: Seq<char>|
                session@.maps.contains_key(path) && #[trigger] session@.maps[path] == Map::<
                    ObjectId,
                    ObjectId,
                >::empty() by {
                assert(session.merger.map_of(path) =~= Map::<ObjectId, ObjectId>::empty());
            }
        }
        session
    }

    /// Merges one requested page. `source` is the parsed source of the
    /// request, `None` if it could not be read or parsed.
    ///
    /// The request fails as `failure_of` says, and then the merge is as it
    /// was. Otherwise the requested page is cloned from the opened source
    /// into the destination through the map of the request's path, as
    /// `cloned` says, its image becomes the last page root, and the maps of
    /// the other paths stay.
    pub fn add(&mut self, file_name: &str, request: &ThumbnailDownloadData, source: Option<Container>) -> (r:
        Result<(), CommandErrRes>)
        ensures
            step_of(old(self)@, file_name@, *request, content_of(source), final(self)@, r),
    {
        proof {
            use_type_invariant(&*self);
        }
        let parsed = match source {
            Some(parsed) => parsed,
            None => {
                return Err(CommandErrRes::about_source(ErrorKind::SourceLoadFailed, file_name, request));
            },
        };
        let opened = match open_source(parsed, &request.password) {
            Ok(opened) => opened,
            Err(kind) => {
                return Err(CommandErrRes::about_source(kind, file_name, request));
            },
        };
        let root = match page_at(&opened.pages, request.page_index) {
            Some(root) => root,
            None => {
                return Err(CommandErrRes::about_source(ErrorKind::PageNotFound, file_name, request));
            },
        };
        proof {
            lemma_table_dom(opened.document);
        }
        let mut merger = Merger::new();
        std::mem::swap(&mut self.merger, &mut merger);
        let added = merger.add_page(&request.file_path, &opened.document, root);
        self.merger = merger;
        proof {
            if added is Err {
                assert(self@.maps =~= old(self)@.maps);
            }
        }
        match added {
            Ok(_) => Ok(()),
            Err(kind) => Err(CommandErrRes::about_source(kind, file_name, request)),
        }
    }

    /// Ends the merge: page tree, catalog and trailer are made, the
    /// container gets a random identifier, and with a password and at least
    /// one page the result is to be encrypted as the descriptor says.
    pub fn finish(self, file_name: &str, output_path: &str, password: &Option<String>) -> (merged:
        MergedFile)
        ensures
            is_merge_of(
                merged,
                file_name@,
                output_path@,
                *password,
                self.destination(),
                self.pages(),
            ),
    {
        proof {
            use_type_invariant(&self);
        }
        let MergeSession { merger } = self;
        let ghost before = merger.document.trailer@;
        let ghost top = merger.document.max_id;
        let fresh = fresh_document_id();
        let ghost fresh_bytes = fresh@;
        let (document, pages) = merger.finish(fresh);
        proof {
            assert(before =~= Seq::empty());
            let catalog_id = ((top + 2) as u32, 0u16);
            assert(document.trailer@ == finished_trailer(Seq::empty(), catalog_id, fresh_bytes));
        }
        let encryption = if should_encrypt(password, pages.len()) {
            Some(EncryptionDescriptor::for_password(password.as_ref().unwrap()))
        } else {
            None
        };
        MergedFile { document, pages, encryption, success: DownloadSuccessRes::new(file_name, output_path) }
    }
}

/// What the source of the request at `i` holds: nothing where no source was
/// handed over for it, or where it was not read or parsed.
pub open spec fn source_at(sources: Seq<Option<Container>>, i: int) -> Option<Content> {
    if 0 <= i < sources.len() {
        content_of(sources[i])
    } else {
        None
    }
}

/// Whether the request at `i` does not fail in the state `views[i]` and
/// makes `views[i + 1]` of it.
pub open spec fn step_taken(
    views: Seq<SessionView>,
    requests: Seq<ThumbnailDownloadData>,
    sources: Seq<Option<Container>>,
    i: int,
) -> bool {
    &&& failure_of(views[i].destination, requests[i], source_at(sources, i)) is None
    &&& merged_by(views[i], requests[i], source_at(sources, i), views[i + 1])
}

/// Whether `r` is what a merge of `requests` gives that went through the
/// states `views`: it began fresh, and each request but the last state's
/// was merged without failure, in the order of the requests. Where every
/// request was merged, `r` is the finished merge of the last state. Where
/// one was not, it is the first that fails, `r` is its failure, and no
/// request after it was looked at.
pub open spec fn merged_along(
    views: Seq<SessionView>,
    file_name: Seq<char>,
    output_path: Seq<char>,
    requests: Seq<ThumbnailDownloadData>,
    sources: Seq<Option<Container>>,
    password: Option<String>,
    r: Result<MergedFile, CommandErrRes>,
) -> bool {
    let n = views.len() - 1;
    &&& 0 <= n <= requests.len()
    &&& is_fresh(views[0])
    &&& forall|i: int| 0 <= i < n ==> #[trigger] step_taken(views, requests, sources, i)
    &&& if n == requests.len() {
        r is Ok && is_merge_of(
            r->Ok_0,
            file_name,
            output_path,
            password,
            views[n].destination,
            views[n].pages,
        )
    } else {
        failure_of(views[n].destination, requests[n], source_at(sources, n)) matches Some(kind)
            && r is Err && r->Err_0.is_about_source(kind, file_name, &requests[n])
    }
}

/// Merges the requested pages, in the order of the requests, into one
/// container. `sources[i]` is the parsed source of request `i`, `None` if
/// it could not be read or parsed.
///
/// Without an output path nothing is merged. Otherwise the merge goes
/// through states as `merged_along` says: the first request that fails ends
/// it with that failure, and where none fails the result is the finished
/// merge of all requested pages.
pub fn merge_pages(
    file_name: &str,
    output_path: Option<&str>,
    thumbnails: &Vec<ThumbnailDownloadData>,
    sources: Vec<Option<Container>>,
    password: &Option<String>,
) -> (r: Result<MergedFile, CommandErrRes>)
    ensures
        output_path is None ==> r is Err && r->Err_0.is_about_output(
            ErrorKind::OutputPathUnresolvable,
            file_name@,
            None,
        ),
        output_path is Some ==> exists|views: Seq<SessionView>| #[trigger]
            merged_along(
                views,
                file_name@,
                output_path->Some_0@,
                thumbnails@,
                sources@,
                *password,
                r,
            ),
{
    let path = match output_path {
        Some(path) => path,
        None => {
            return Err(
                CommandErrRes::about_output(ErrorKind::OutputPathUnresolvable, file_name, None),
            );
        },
    };
    let mut session = MergeSession::new();
    let mut rest = sources;
    let ghost mut views: Seq<SessionView> = seq![session@];
    let mut i: usize = 0;
    while i < thumbnails.len()
        invariant
            output_path is Some,
            output_path->Some_0@ == path@,
            i <= thumbnails.len(),
            views.len() == i + 1,
            is_fresh(views[0]),
            views[i as int] == session@,
            forall|j: int| 0 <= j < i ==> #[trigger] step_taken(views, thumbnails@, sources@, j),
            i <= sources@.len() ==> rest@ == sources@.subrange(i as int, sources@.len() as int),
            i > sources@.len() ==> rest@.len() == 0,
        decreases thumbnails.len() - i,
    {
        let source = if rest.len() > 0 {
            rest.remove(0)
        } else {
            None
        };
        assert(content_of(source) == source_at(sources@, i as int));
        let added = session.add(file_name, &thumbnails[i], source);
        match added {
            Err(e) => {
                let r = Err(e);
                assert(merged_along(views, file_name@, path@, thumbnails@, sources@, *password, r));
                return r;
            },
            Ok(_) => {},
        }
        proof {
            let ghost longer = views.push(session@);
            assert forall|j: int| 0 <= j < i + 1 implies #[trigger] step_taken(
                longer,
                thumbnails@,
                sources@,
                j,
            ) by {
                if j < i {
                    assert(step_taken(views, thumbnails@, sources@, j));
                }
            }
            views = longer;
        }
        i += 1;
    }
    let r = Ok(session.finish(file_name, path, password));
    assert(merged_along(views, file_name@, path@, thumbnails@, sources@, *password, r));
    r
}

/// A merge in the bytes of its file, with the report to give once they
/// are written.
#[derive(Debug)]
pub struct Download {
    pub bytes: Vec<u8>,
    pub success: DownloadSuccessRes,
}

/// Writes a container into the bytes of its file: the bytes that the writer
/// of `lopdf` makes of what the container holds. Nothing is written where
/// the writer fails, or where the container leaves fewer than two object
/// numbers unused: the writer takes one for its cross-reference stream and
/// counts one beyond that.
pub fn container_bytes(document: &Container) -> (bytes: Option<Vec<u8>>)
    ensures
        match bytes {
            Some(b) => document.max_id <= MAX_WRITABLE_ID && written(document.content()) == Some(b@),
            None => document.max_id > MAX_WRITABLE_ID || written(document.content()) is None,
        },
{
    if document.max_id > MAX_WRITABLE_ID {
        return None;
    }
    write_container(document)
}

/// Whether `r` is what writing `document` gives: its bytes as the writer
/// makes them, with the report `success`, or, where nothing is written,
/// that the output could not be saved.
pub open spec fn written_from(
    document: Container,
    success: DownloadSuccessRes,
    file_name: Seq<char>,
    output_path: Seq<char>,
    r: Result<Download, CommandErrRes>,
) -> bool {
    match r {
        Ok(done) => done.success == success && document.max_id <= MAX_WRITABLE_ID && written(
            document.content(),
        ) == Some(done.bytes@),
        Err(e) => e.is_about_output(ErrorKind::SaveFailed, file_name, Some(output_path)) && (
        document.max_id > MAX_WRITABLE_ID || written(document.content()) is None),
    }
}

/// Writes a container into the bytes of its file and hands them out with
/// the report of the merge; where nothing is written, reports that the
/// output could not be saved.
pub fn write_download(
    document: &Container,
    success: DownloadSuccessRes,
    file_name: &str,
    output_path: &str,
) -> (r: Result<Download, CommandErrRes>)
    ensures
        written_from(*document, success, file_name@, output_path@, r),
{
    match container_bytes(document) {
        Some(bytes) => Ok(Download { bytes, success }),
        None => Err(CommandErrRes::about_output(ErrorKind::SaveFailed, file_name, Some(output_path))),
    }
}

/// Why a container was not encrypted.
#[derive(Clone, Copy, Debug, PartialEq, Eq, Structural)]
pub enum SealFailure {
    /// No object number was left for the encryption dictionary.
    NoNumberLeft,
    /// `lopdf` did not derive the keys or did not encrypt.
    Refused,
    /// The encrypted container does not name the algorithm and settings
    /// asked for.
    OtherCipher,
}

/// What may come of encrypting `document` as `descriptor` says. An
/// encrypted container holds what `document` holds as `encrypted_from`
/// says, and says that it is encrypted as the descriptor says: with its
/// algorithm and, for AES, its crypt filters and its word on metadata. That no number was left is the failure if and only if the
/// largest object number is in use.
pub open spec fn may_seal(
    document: Container,
    descriptor: EncryptionDescriptor,
    sealed: Result<Container, SealFailure>,
) -> bool {
    &&& document.max_id == u32::MAX <==> sealed == Err::<Container, SealFailure>(
        SealFailure::NoNumberLeft,
    )
    &&& sealed matches Ok(s) ==> encrypted_from(document.content(), s.content()) && sealed_as(
        s.content(),
        descriptor,
    )
}

/// Encrypts a container as the descriptor says, with the algorithm that it
/// names, and hands over the encrypted container. The encryption is the
/// work of `lopdf` and draws random bytes, so the contract says what holds
/// of every outcome. Algorithm and settings are read back from the
/// encrypted container, which is handed over only if they are those asked
/// for.
pub fn encrypt_container(document: &Container, descriptor: &EncryptionDescriptor) -> (sealed: Result<
    Container,
    SealFailure,
>)
    ensures
        may_seal(*document, *descriptor, sealed),
{
    if document.max_id == u32::MAX {
        return Err(SealFailure::NoNumberLeft);
    }
    let state = match descriptor.algorithm {
        EncryptionAlgorithm::Aes128 => aes_state(document, descriptor),
        EncryptionAlgorithm::LegacyRc4 => legacy_state(document, descriptor),
    };
    let sealed = match state {
        Ok(state) => encrypt_with(document, &state),
        Err(_) => None,
    };
    match sealed {
        Some(s) => {
            if is_sealed_as(&s, descriptor) {
                Ok(s)
            } else {
                Err(SealFailure::OtherCipher)
            }
        },
        None => Err(SealFailure::Refused),
    }
}

/// Whether `r` is what comes of an encryption with the outcome `sealed`:
/// without an encrypted container, that the encryption failed; with one,
/// what writing it gives.
pub open spec fn download_of(
    sealed: Result<Container, SealFailure>,
    success: DownloadSuccessRes,
    file_name: Seq<char>,
    output_path: Seq<char>,
    r: Result<Download, CommandErrRes>,
) -> bool {
    match sealed {
        Err(_) => r is Err && r->Err_0.is_about_output(
            ErrorKind::EncryptionFailed,
            file_name,
            Some(output_path),
        ),
        Ok(s) => written_from(s, success, file_name, output_path, r),
    }
}

/// Writes the outcome of an encryption: the encrypted container where there
/// is one, and otherwise nothing, with the report that the encryption
/// failed. No plain container is written in place of an encrypted one.
pub fn write_encrypted(
    sealed: Result<Container, SealFailure>,
    success: DownloadSuccessRes,
    file_name: &str,
    output_path: &str,
) -> (r: Result<Download, CommandErrRes>)
    ensures
        download_of(sealed, success, file_name@, output_path@, r),
{
    match sealed {
        Ok(s) => write_download(&s, success, file_name, output_path),
        Err(_) => Err(
            CommandErrRes::about_output(ErrorKind::EncryptionFailed, file_name, Some(output_path)),
        ),
    }
}

/// Whether `r` is what sealing `merged` gives. Without a descriptor it is
/// what writing the merged container gives. With one it is what comes of
/// some outcome of encrypting the merged container.
pub open spec fn sealed_from(
    merged: MergedFile,
    file_name: Seq<char>,
    output_path: Seq<char>,
    r: Result<Download, CommandErrRes>,
) -> bool {
    match merged.encryption {
        None => written_from(merged.document, merged.success, file_name, output_path, r),
        Some(descriptor) => exists|sealed: Result<Container, SealFailure>|
            may_seal(merged.document, descriptor, sealed) && #[trigger] download_of(
                sealed,
                merged.success,
                file_name,
                output_path,
                r,
            ),
    }
}

/// Encrypts a finished merge where it asks for that and writes it into the
/// bytes of its file.
///
/// Without a descriptor the bytes are what the writer makes of the merged
/// container, and the only failure is that of the writer. With a descriptor
/// the bytes are what the writer makes of an encrypted container; where the
/// encryption fails nothing is written.
pub fn seal(merged: MergedFile, file_name: &str, output_path: &str) -> (r: Result<
    Download,
    CommandErrRes,
>)
    ensures
        sealed_from(merged, file_name@, output_path@, r),
{
    let MergedFile { document, pages: _, encryption, success } = merged;
    match &encryption {
        None => write_download(&document, success, file_name, output_path),
        Some(descriptor) => {
            let sealed = encrypt_container(&document, descriptor);
            let ghost outcome = sealed;
            let r = write_encrypted(sealed, success, file_name, output_path);
            assert(may_seal(document, *descriptor, outcome) && download_of(
                outcome,
                success,
                file_name@,
                output_path@,
                r,
            ));
            r
        },
    }
}

/// Whether `r` is what a download gives whose merge went through the states
/// `views` and gave `merged`: the failure of the merge, or what sealing the
/// finished merge gives.
pub open spec fn downloaded_along(
    views: Seq<SessionView>,
    merged: Result<MergedFile, CommandErrRes>,
    file_name: Seq<char>,
    output_path: Seq<char>,
    requests: Seq<ThumbnailDownloadData>,
    sources: Seq<Option<Container>>,
    password: Option<String>,
    r: Result<Download, CommandErrRes>,
) -> bool {
    &&& merged_along(views, file_name, output_path, requests, sources, password, merged)
    &&& match merged {
        Ok(m) => sealed_from(m, file_name, output_path, r),
        Err(e) => r == Err::<Download, CommandErrRes>(e),
    }
}

/// Merges the requested pages into one container, encrypts it where a
/// password is given and a page was merged, and hands out the bytes of the
/// file with the report of the merge. `sources[i]` is the parsed source of
/// request `i`, `None` if it could not be read or parsed.
///
/// Without an output path nothing is done. Otherwise the merge is one that
/// `merged_along` describes; its failure is the failure of the download,
/// and its result is sealed as `sealed_from` says.
pub fn download_file(
    file_name: &str,
    output_path: Option<&str>,
    thumbnails: &Vec<ThumbnailDownloadData>,
    sources: Vec<Option<Container>>,
    password: &Option<String>,
) -> (r: Result<Download, CommandErrRes>)
    ensures
        output_path is None ==> r is Err && r->Err_0.is_about_output(
            ErrorKind::OutputPathUnresolvable,
            file_name@,
            None,
        ),
        output_path is Some ==> exists|
            views: Seq<SessionView>,
            merged: Result<MergedFile, CommandErrRes>,
        | #[trigger]
            downloaded_along(
                views,
                merged,
                file_name@,
                output_path->Some_0@,
                thumbnails@,
                sources@,
                *password,
                r,
            ),
{
    let merged = merge_pages(file_name, output_path, thumbnails, sources, password);
    let path = match output_path {
        Some(path) => path,
        None => {
            return Err(
                CommandErrRes::about_output(ErrorKind::OutputPathUnresolvable, file_name, None),
            );
        },
    };
    let ghost outcome = merged;
    let ghost views = choose|views: Seq<SessionView>| #[trigger]
        merged_along(views, file_name@, path@, thumbnails@, sources@, *password, outcome);
    let r = match merged {
        Ok(m) => seal(m, file_name, path),
        Err(e) => Err(e),
    };
    assert(downloaded_along(
        views,
        outcome,
        file_name@,
        path@,
        thumbnails@,
        sources@,
        *password,
        r,
    ));
    r
}

} // verus!
