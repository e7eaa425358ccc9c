use crate::cloner::{
    cloned, faithful, injective, lemma_merge_state_closed, lemma_merge_state_from_closed,
    merge_state, unmapped,
};
use crate::codec::decrypted;
use crate::collector::{opened, page_of};
use crate::codec::written;
use crate::commands::{
    asked, download_of, downloaded_along, failure_of, is_merge_of, may_seal, merged_along,
    sealed_from, source_at, step_taken, Download, MergedFile, SealFailure, SessionView,
};
use crate::container::{lemma_table_dom, says_encrypted, Container, Content, Table};
use crate::sealing::{
    cipher_of, entries_fixed, fixed, items_fixed, lemma_encrypted_is_closed, sealed_as,
    lemma_encrypted_keeps_objects,
    lemma_encrypted_keeps_trailer, lemma_encrypted_refers_to_dictionary,
    lemma_fixed_entries_are_kept, like,
};
use crate::packed::masked;
use crate::error::ErrorKind;
use crate::graph::{
    closed, fetched, has_ref, images, is_path, lemma_ref_renamed,
    lemma_has_ref_within, lemma_renamed_twice, reaches, relabels, renamed,
    settled, IdMap,
};
use crate::encryption::{encrypts, EncryptionAlgorithm, EncryptionDescriptor};
use crate::merger::{
    lemma_merge_state_kept, catalog, document_id, finished, finished_trailer, page_refs, page_tree, OUTPUT_MINOR_VERSION,
};
use crate::names::{
    catalog_tag, count_key, encrypt_key, id_key, kids_key, pages_key, root_key, type_key,
};
use crate::structs::{CommandErrRes, ThumbnailDownloadData};
use crate::object::{
    has_key, is_first, lemma_position, length_value, lookup, with_entry, Entries, ObjectId, Value,
};
use vstd::prelude::*;

verus! {

/// Each identifier of the path is stored in the table and refers to the
/// next.
pub open spec fn is_walk(table: Table, path: Seq<ObjectId>) -> bool {
    &&& path.len() >= 1
    &&& forall|i: int|
        0 <= i < path.len() - 1 ==> table.contains_key(#[trigger] path[i]) && has_ref(
            table[path[i]],
            path[i + 1],
        )
}

/// In a table that refers to nothing it lacks, every identifier on a walk
/// from a stored identifier is stored: following references from a page
/// root of a merged container never leads out of its object table.
pub proof fn lemma_reachable_is_stored(table: Table, path: Seq<ObjectId>)
    requires
        closed(table),
        is_walk(table, path),
        table.contains_key(path[0]),
    ensures
        forall|i: int| 0 <= i < path.len() ==> table.contains_key(#[trigger] path[i]),
    decreases path.len(),
{
    if path.len() > 1 {
        let shorter = path.drop_last();
        assert forall|i: int| 0 <= i < shorter.len() - 1 implies table.contains_key(
            #[trigger] shorter[i],
        ) && has_ref(table[shorter[i]], shorter[i + 1]) by {
            assert(shorter[i] == path[i] && shorter[i + 1] == path[i + 1]);
        }
        assert(shorter[0] == path[0]);
        lemma_reachable_is_stored(table, shorter);
        let n: int = path.len() - 2;
        assert(shorter[n] == path[n]);
        assert(table.contains_key(path[n]));
        lemma_has_ref_within(table[path[n]], path[n + 1], table.dom());
        assert forall|i: int| 0 <= i < path.len() implies table.contains_key(#[trigger] path[i]) by {
            if i < path.len() - 1 {
                assert(shorter[i] == path[i]);
            }
        }
    }
}

/// A clone leaves no reference dangling. The destination stored nothing
/// above its largest object number and referred to nothing it lacked, and
/// the map was injective with every image stored. Then the image of the
/// cloned root is stored, no object of the destination refers to an
/// identifier that the destination lacks, and every identifier on a walk
/// from the image of the root is stored.
pub proof fn lemma_clone_leaves_nothing_dangling(
    source: Table,
    root: ObjectId,
    before: Container,
    m0: IdMap,
    after: Container,
    m1: IdMap,
    path: Seq<ObjectId>,
)
    requires
        before.ids_bounded(),
        closed(before.table()),
        injective(m0),
        forall|s: ObjectId| #[trigger] m0.contains_key(s) ==> before.objects@.contains_key(m0[s]),
        cloned(source, root, before, m0, after, m1),
        is_walk(after.table(), path),
        path[0] == m1[root],
    ensures
        after.table().contains_key(m1[root]),
        closed(after.table()),
        forall|i: int| 0 <= i < path.len() ==> after.table().contains_key(#[trigger] path[i]),
{
    lemma_merge_state_from_closed(before, m0);
    lemma_merge_state_closed(after, m1);
    lemma_table_dom(after);
    assert(after.objects@.contains_key(m1[root]));
    lemma_reachable_is_stored(after.table(), path);
}

/// A clone allocates once for each object that it copies. Every object
/// that the clone added to the destination is the image of an identifier
/// that the clone mapped, which is the root or can be reached from it in
/// the source; no two identifiers share an image; and as many object
/// numbers were used as identifiers were mapped.
pub proof fn lemma_clone_allocates_once(
    source: Table,
    root: ObjectId,
    before: Container,
    m0: IdMap,
    after: Container,
    m1: IdMap,
)
    requires
        merge_state(before, m0),
        cloned(source, root, before, m0, after, m1),
    ensures
        injective(m1),
        forall|d: ObjectId| #[trigger]
            after.objects@.contains_key(d) && !before.objects@.contains_key(d) ==> exists|
                s: ObjectId,
            |
                m1.contains_key(s) && !m0.contains_key(s) && #[trigger] m1[s] == d && reaches(
                    source,
                    root,
                    s,
                ),
        forall|s: ObjectId| #[trigger]
            m1.contains_key(s) && !m0.contains_key(s) ==> source.contains_key(s) && reaches(
                source,
                root,
                s,
            ) && after.objects@.contains_key(m1[s]) && !before.objects@.contains_key(m1[s]),
        after.max_id + unmapped(source.dom(), m1).len() == before.max_id + unmapped(
            source.dom(),
            m0,
        ).len(),
{
    assert forall|d: ObjectId| #[trigger]
        after.objects@.contains_key(d) && !before.objects@.contains_key(d) implies exists|
        s: ObjectId,
    |
        m1.contains_key(s) && !m0.contains_key(s) && #[trigger] m1[s] == d && reaches(
            source,
            root,
            s,
        ) by {
        let s = choose|s: ObjectId| m1.contains_key(s) && !m0.contains_key(s) && #[trigger] m1[s] == d;
        assert(reaches(source, root, s));
    }
}

/// A faithful copy keeps every reference that the source object holds to
/// a mapped identifier: the copy of `a` refers to the image of `b`.
pub proof fn lemma_reference_preserved(
    source: Table,
    dest: Table,
    m: IdMap,
    a: ObjectId,
    b: ObjectId,
)
    requires
        faithful(source, dest, m),
        m.contains_key(a),
        m.contains_key(b),
        dest.contains_key(m[a]),
        has_ref(fetched(source, a), b),
    ensures
        has_ref(dest[m[a]], m[b]),
{
    lemma_ref_renamed(fetched(source, a), b, m);
}

/// In a faithful state whose images are all stored, whatever a mapped
/// object of the source holds a reference to is mapped too, if the source
/// holds it.
pub proof fn lemma_referred_is_mapped(
    source: Table,
    dest: Container,
    m: IdMap,
    a: ObjectId,
    b: ObjectId,
)
    requires
        merge_state(dest, m),
        faithful(source, dest.table(), m),
        m.contains_key(a),
        source.contains_key(b),
        has_ref(fetched(source, a), b),
    ensures
        m.contains_key(b),
        dest.table().contains_key(m[b]),
{
    assert(dest.objects@.contains_key(m[a]));
    assert(dest.table().contains_key(m[a]));
    lemma_has_ref_within(fetched(source, a), b, settled(source.dom(), m.dom()));
    assert(dest.objects@.contains_key(m[b]));
}

/// Two pages of one source that both refer to `shared` are cloned, one
/// after the other, through the same map. Then `shared` has one image,
/// given by the first clone and kept by the second, no other identifier of
/// the source has that image, the image is stored, and the copies of both
/// pages refer to it.
pub proof fn lemma_shared_object_cloned_once(
    source: Table,
    d0: Container,
    m0: IdMap,
    d1: Container,
    m1: IdMap,
    d2: Container,
    m2: IdMap,
    first: ObjectId,
    second: ObjectId,
    shared: ObjectId,
)
    requires
        merge_state(d0, m0),
        faithful(source, d0.table(), m0),
        cloned(source, first, d0, m0, d1, m1),
        cloned(source, second, d1, m1, d2, m2),
        source.contains_key(shared),
        has_ref(fetched(source, first), shared),
        has_ref(fetched(source, second), shared),
    ensures
        m1.contains_key(shared),
        m2.contains_key(shared),
        m2[shared] == m1[shared],
        d2.table().contains_key(m2[shared]),
        forall|s: ObjectId| m2.contains_key(s) && s != shared ==> #[trigger] m2[s] != m2[shared],
        has_ref(d2.table()[m2[first]], m2[shared]),
        has_ref(d2.table()[m2[second]], m2[shared]),
{
    lemma_referred_is_mapped(source, d1, m1, first, shared);
    assert(m2.contains_key(first) && m2.contains_key(shared));
    lemma_referred_is_mapped(source, d2, m2, second, shared);
    assert(d2.objects@.contains_key(m2[first]));
    assert(d2.table().contains_key(m2[first]));
    assert(d2.objects@.contains_key(m2[second]));
    assert(d2.table().contains_key(m2[second]));
    lemma_reference_preserved(source, d2.table(), m2, first, shared);
    lemma_reference_preserved(source, d2.table(), m2, second, shared);
}

/// `a` and `b` are two objects of the source that refer to each other, and
/// `a` is cloned. Then both are mapped, to two different stored objects
/// that refer to each other as `a` and `b` do.
pub proof fn lemma_cycle_cloned(
    source: Table,
    d0: Container,
    m0: IdMap,
    d1: Container,
    m1: IdMap,
    a: ObjectId,
    b: ObjectId,
)
    requires
        merge_state(d0, m0),
        faithful(source, d0.table(), m0),
        cloned(source, a, d0, m0, d1, m1),
        a != b,
        source.contains_key(b),
        has_ref(fetched(source, a), b),
        has_ref(fetched(source, b), a),
    ensures
        m1.contains_key(a),
        m1.contains_key(b),
        m1[a] != m1[b],
        d1.table().contains_key(m1[a]),
        d1.table().contains_key(m1[b]),
        has_ref(d1.table()[m1[a]], m1[b]),
        has_ref(d1.table()[m1[b]], m1[a]),
{
    lemma_referred_is_mapped(source, d1, m1, a, b);
    assert(d1.objects@.contains_key(m1[a]));
    assert(d1.table().contains_key(m1[a]));
    lemma_reference_preserved(source, d1.table(), m1, a, b);
    lemma_reference_preserved(source, d1.table(), m1, b, a);
}

/// The page tree lists the page roots as its kids in the order given,
/// counts them, and says that it is a page tree.
pub proof fn lemma_page_tree_lists_pages(pages: Seq<ObjectId>)
    ensures
        page_tree(pages) is Dictionary,
        lookup(page_tree(pages)->Dictionary_0, type_key()) == Some(Value::Name(pages_key())),
        lookup(page_tree(pages)->Dictionary_0, kids_key()) == Some(Value::Array(page_refs(pages))),
        lookup(page_tree(pages)->Dictionary_0, count_key()) == Some(
            Value::Integer(length_value(pages.len())),
        ),
        page_refs(pages).len() == pages.len(),
        forall|i: int|
            0 <= i < pages.len() ==> #[trigger] page_refs(pages)[i] == Value::Reference(pages[i]),
        fixed(page_tree(pages), true),
{
    let e0: Entries = Seq::empty();
    let e1 = with_entry(e0, type_key(), Value::Name(pages_key()));
    assert(e1 =~= seq![(type_key(), Value::Name(pages_key()))]);
    assert(type_key()[0] != kids_key()[0]);
    assert(type_key()[0] != count_key()[0]);
    assert(kids_key()[0] != count_key()[0]);
    assert(!has_key(e1, kids_key()));
    let e2 = with_entry(e1, kids_key(), Value::Array(page_refs(pages)));
    assert(e2 =~= seq![
        (type_key(), Value::Name(pages_key())),
        (kids_key(), Value::Array(page_refs(pages))),
    ]);
    assert(!has_key(e2, count_key()));
    let e3 = with_entry(e2, count_key(), Value::Integer(length_value(pages.len())));
    assert(e3 =~= seq![
        (type_key(), Value::Name(pages_key())),
        (kids_key(), Value::Array(page_refs(pages))),
        (count_key(), Value::Integer(length_value(pages.len()))),
    ]);
    assert(is_first(e3, type_key(), 0));
    lemma_position(e3, type_key(), 0);
    assert(is_first(e3, kids_key(), 1));
    lemma_position(e3, kids_key(), 1);
    assert(is_first(e3, count_key(), 2));
    lemma_position(e3, count_key(), 2);
    assert(items_fixed(page_refs(pages), true));
    assert(fixed(e3[1].1, true));
    assert(entries_fixed(e3, true));
}

/// In a faithful state whose images are all stored, every object of the
/// source at the end of a path that starts at a mapped identifier is mapped.
pub proof fn lemma_reachable_is_mapped(
    source: Table,
    dest: Container,
    m: IdMap,
    path: Seq<ObjectId>,
)
    requires
        merge_state(dest, m),
        faithful(source, dest.table(), m),
        is_path(source, path),
        m.contains_key(path[0]),
        source.contains_key(path.last()),
    ensures
        m.contains_key(path.last()),
    decreases path.len(),
{
    if path.len() > 1 {
        let shorter = path.drop_last();
        let n: int = path.len() - 2;
        assert forall|i: int| 0 <= i < shorter.len() - 1 implies has_ref(
            fetched(source, #[trigger] shorter[i]),
            shorter[i + 1],
        ) by {
            assert(shorter[i] == path[i] && shorter[i + 1] == path[i + 1]);
        }
        assert(shorter[0] == path[0]);
        assert(shorter.last() == path[n]);
        assert(has_ref(fetched(source, path[n]), path[n + 1]));
        assert(source.contains_key(path[n]));
        lemma_reachable_is_mapped(source, dest, m, shorter);
        assert(dest.objects@.contains_key(m[path[n]]));
        assert(dest.table().contains_key(m[path[n]]));
        lemma_has_ref_within(
            fetched(source, path[n]),
            path[n + 1],
            settled(source.dom(), m.dom()),
        );
    }
}

/// The relabelling that takes each image of `first` to the image that
/// `second` has for the same identifier.
pub open spec fn relabelling(first: IdMap, second: IdMap) -> IdMap {
    Map::new(
        |d: ObjectId| images(first).contains(d),
        |d: ObjectId| second[choose|s: ObjectId| first.contains_key(s) && #[trigger] first[s] == d],
    )
}

/// What a clone of `root` into a destination with a new, empty map maps:
/// the objects of the source that can be reached from `root`, and no others.
pub proof fn lemma_clone_maps_what_is_reachable(
    source: Table,
    root: ObjectId,
    before: Container,
    after: Container,
    m: IdMap,
    s: ObjectId,
)
    requires
        merge_state(before, Map::<ObjectId, ObjectId>::empty()),
        cloned(source, root, before, Map::<ObjectId, ObjectId>::empty(), after, m),
    ensures
        m.contains_key(s) <==> source.contains_key(s) && reaches(source, root, s),
{
    let empty = Map::<ObjectId, ObjectId>::empty();
    assert(faithful(source, before.table(), empty));
    if m.contains_key(s) {
        assert(!empty.contains_key(s));
        assert(source.dom().contains(s));
    }
    if source.contains_key(s) && reaches(source, root, s) {
        let path = choose|path: Seq<ObjectId>| #[trigger]
            is_path(source, path) && path[0] == root && path.last() == s;
        lemma_reachable_is_mapped(source, after, m, path);
    }
}

/// The same page is cloned twice, each time into a destination of its own
/// through a new, empty map. Then both clones map
/// the same objects of the source, and the two results have the same
/// structure but for the numbering: relabelling the images of the first map
/// as the second map numbers them turns each copy of the first result into
/// the copy that the second result holds for the same object.
pub proof fn lemma_remerge_same_structure(
    source: Table,
    root: ObjectId,
    a0: Container,
    a1: Container,
    ma: IdMap,
    b0: Container,
    b1: Container,
    mb: IdMap,
)
    requires
        merge_state(a0, Map::<ObjectId, ObjectId>::empty()),
        cloned(source, root, a0, Map::<ObjectId, ObjectId>::empty(), a1, ma),
        merge_state(b0, Map::<ObjectId, ObjectId>::empty()),
        cloned(source, root, b0, Map::<ObjectId, ObjectId>::empty(), b1, mb),
    ensures
        ma.dom() == mb.dom(),
        forall|s: ObjectId| #[trigger]
            ma.contains_key(s) ==> relabelling(ma, mb).contains_key(ma[s]) && relabelling(
                ma,
                mb,
            )[ma[s]] == mb[s],
        forall|s: ObjectId| #[trigger]
            ma.contains_key(s) ==> a1.table().contains_key(ma[s]) && b1.table().contains_key(mb[s])
                && b1.table()[mb[s]] == renamed(a1.table()[ma[s]], relabelling(ma, mb)),
{
    let empty = Map::<ObjectId, ObjectId>::empty();
    assert forall|s: ObjectId| ma.contains_key(s) <==> mb.contains_key(s) by {
        lemma_clone_maps_what_is_reachable(source, root, a0, a1, ma, s);
        lemma_clone_maps_what_is_reachable(source, root, b0, b1, mb, s);
    }
    assert(ma.dom() =~= mb.dom());
    let rho = relabelling(ma, mb);
    assert forall|s: ObjectId| #[trigger] ma.contains_key(s) implies rho.contains_key(ma[s])
        && rho[ma[s]] == mb[s] by {
        assert(images(ma).contains(ma[s]));
        let t = choose|t: ObjectId| ma.contains_key(t) && #[trigger] ma[t] == ma[s];
        assert(t == s);
    }
    assert(relabels(ma, rho, mb));
    assert(faithful(source, a0.table(), empty));
    assert(faithful(source, b0.table(), empty));
    assert forall|s: ObjectId| #[trigger] ma.contains_key(s) implies a1.table().contains_key(ma[s])
        && b1.table().contains_key(mb[s]) && b1.table()[mb[s]] == renamed(
        a1.table()[ma[s]],
        rho,
    ) by {
        assert(mb.contains_key(s));
        assert(a1.objects@.contains_key(ma[s]));
        assert(b1.objects@.contains_key(mb[s]));
        assert(a1.table().contains_key(ma[s]));
        assert(b1.table().contains_key(mb[s]));
        lemma_renamed_twice(fetched(source, s), ma, rho, mb);
    }
}

/// The catalog says that it is a catalog and where the page tree is.
pub proof fn lemma_catalog_points_at_tree(tree: ObjectId)
    ensures
        catalog(tree) is Dictionary,
        lookup(catalog(tree)->Dictionary_0, type_key()) == Some(Value::Name(catalog_tag())),
        lookup(catalog(tree)->Dictionary_0, pages_key()) == Some(Value::Reference(tree)),
        fixed(catalog(tree), true),
{
    let e0: Entries = Seq::empty();
    let e1 = with_entry(e0, type_key(), Value::Name(catalog_tag()));
    assert(e1 =~= seq![(type_key(), Value::Name(catalog_tag()))]);
    assert(type_key()[0] != pages_key()[0]);
    assert(!has_key(e1, pages_key()));
    let e2 = with_entry(e1, pages_key(), Value::Reference(tree));
    assert(e2 =~= seq![
        (type_key(), Value::Name(catalog_tag())),
        (pages_key(), Value::Reference(tree)),
    ]);
    assert(is_first(e2, type_key(), 0));
    lemma_position(e2, type_key(), 0);
    assert(is_first(e2, pages_key(), 1));
    lemma_position(e2, pages_key(), 1);
    assert(entries_fixed(e2, true));
}

/// In a finished merge the way from the trailer to the pages is laid out:
/// `Root` names a stored catalog, its `Pages` names a stored page tree, and
/// the `Kids` of that tree are references to the page roots, one for each
/// and in their order, every one of them stored.
pub proof fn lemma_finished_lists_pages_in_order(doc: Container, pages: Seq<ObjectId>)
    requires
        finished(doc, pages),
    ensures
        lookup(doc.trailer@, root_key()) == Some(Value::Reference((doc.max_id, 0u16))),
        doc.table().contains_key((doc.max_id, 0u16)),
        doc.table()[(doc.max_id, 0u16)] is Dictionary,
        lookup(doc.table()[(doc.max_id, 0u16)]->Dictionary_0, pages_key()) == Some(
            Value::Reference(((doc.max_id - 1) as u32, 0u16)),
        ),
        doc.table().contains_key(((doc.max_id - 1) as u32, 0u16)),
        doc.table()[((doc.max_id - 1) as u32, 0u16)] is Dictionary,
        lookup(doc.table()[((doc.max_id - 1) as u32, 0u16)]->Dictionary_0, kids_key()) == Some(
            Value::Array(page_refs(pages)),
        ),
        lookup(doc.table()[((doc.max_id - 1) as u32, 0u16)]->Dictionary_0, count_key()) == Some(
            Value::Integer(length_value(pages.len())),
        ),
        page_refs(pages).len() == pages.len(),
        forall|i: int|
            0 <= i < pages.len() ==> #[trigger] page_refs(pages)[i] == Value::Reference(pages[i])
                && doc.table().contains_key(pages[i]),
{
    lemma_catalog_points_at_tree(((doc.max_id - 1) as u32, 0u16));
    lemma_page_tree_lists_pages(pages);
}

/// A merge of no pages has a page tree without kids and with count zero,
/// and is not encrypted, whether or not a password was supplied.
pub proof fn lemma_empty_merge(password: Option<String>)
    ensures
        !encrypts(password, 0),
        lookup(page_tree(Seq::empty())->Dictionary_0, kids_key()) == Some(
            Value::Array(Seq::empty()),
        ),
        lookup(page_tree(Seq::empty())->Dictionary_0, count_key()) == Some(Value::Integer(0)),
{
    lemma_page_tree_lists_pages(Seq::empty());
    assert(page_refs(Seq::empty()) =~= Seq::<Value>::empty());
}

/// A request whose source was not read or parsed fails: the source could
/// not be loaded.
pub proof fn lemma_unread_source_fails(destination: Container, request: ThumbnailDownloadData)
    ensures
        failure_of(destination, request, None) == Some(ErrorKind::SourceLoadFailed),
{
}

/// A request for a page of an encrypted source that brings no password
/// fails: the password is required.
pub proof fn lemma_encrypted_source_requires_password(
    destination: Container,
    request: ThumbnailDownloadData,
    held: Content,
)
    requires
        says_encrypted(held),
        request.password is None,
    ensures
        failure_of(destination, request, Some(held)) == Some(ErrorKind::PasswordRequired),
{
}

/// A request for a page of an encrypted source fails where its password
/// does not decrypt the source: the password is incorrect.
pub proof fn lemma_wrong_password_is_incorrect(
    destination: Container,
    request: ThumbnailDownloadData,
    held: Content,
)
    requires
        says_encrypted(held),
        request.password is Some,
        decrypted(masked(held), request.password->Some_0@) is None,
    ensures
        failure_of(destination, request, Some(held)) == Some(ErrorKind::PasswordIncorrect),
{
}

/// A request for a page that its source, once opened, does not have
/// fails: the page is not found.
pub proof fn lemma_missing_page_is_not_found(
    destination: Container,
    request: ThumbnailDownloadData,
    held: Content,
)
    requires
        opened(held, request.password) is Ok,
        page_of(opened(held, request.password)->Ok_0.1, request.page_index) is None,
    ensures
        failure_of(destination, request, Some(held)) == Some(ErrorKind::PageNotFound),
{
}

/// After `k` requests were merged without failure, the merge has `k` page
/// roots, and page root `i` is the image of the page that request `i` asks
/// for, under the map that the merge now keeps for the path of that
/// request.
pub proof fn lemma_pages_follow_requests(
    views: Seq<SessionView>,
    requests: Seq<ThumbnailDownloadData>,
    sources: Seq<Option<Container>>,
    k: int,
)
    requires
        0 <= k < views.len(),
        crate::commands::is_fresh(views[0]),
        forall|i: int| 0 <= i < k ==> #[trigger] step_taken(views, requests, sources, i),
    ensures
        views[k].pages.len() == k,
        forall|i: int|
            0 <= i < k ==> {
                let a = #[trigger] asked(requests[i], source_at(sources, i));
                &&& a is Ok
                &&& views[k].maps[requests[i].file_path@].contains_key(a->Ok_0.1)
                &&& views[k].pages[i] == views[k].maps[requests[i].file_path@][a->Ok_0.1]
            },
    decreases k,
{
    if k > 0 {
        lemma_pages_follow_requests(views, requests, sources, k - 1);
        assert(step_taken(views, requests, sources, k - 1));
        let before = views[k - 1];
        let after = views[k];
        let path = requests[k - 1].file_path@;
        assert forall|i: int| 0 <= i < k implies {
            let a = #[trigger] asked(requests[i], source_at(sources, i));
            &&& a is Ok
            &&& after.maps[requests[i].file_path@].contains_key(a->Ok_0.1)
            &&& after.pages[i] == after.maps[requests[i].file_path@][a->Ok_0.1]
        } by {
            if i < k - 1 {
                let a = asked(requests[i], source_at(sources, i));
                assert(before.maps[requests[i].file_path@].contains_key(a->Ok_0.1));
                if requests[i].file_path@ != path {
                    assert(after.maps[requests[i].file_path@] == before.maps[requests[i].file_path@]);
                }
            }
        }
    }
}

/// A merge that succeeds has merged every request, in the order of the
/// requests: it has as many page roots as there were requests, every
/// request found its page, and page root `i` is the image of the page
/// that request `i` asks for.
pub proof fn lemma_merge_follows_requests(
    views: Seq<SessionView>,
    file_name: Seq<char>,
    output_path: Seq<char>,
    requests: Seq<ThumbnailDownloadData>,
    sources: Seq<Option<Container>>,
    password: Option<String>,
    r: Result<MergedFile, CommandErrRes>,
)
    requires
        merged_along(views, file_name, output_path, requests, sources, password, r),
        r is Ok,
    ensures
        views.len() == requests.len() + 1,
        r->Ok_0.pages@.len() == requests.len(),
        forall|i: int|
            0 <= i < requests.len() ==> {
                let a = #[trigger] asked(requests[i], source_at(sources, i));
                &&& source_at(sources, i) is Some
                &&& opened(source_at(sources, i)->Some_0, requests[i].password) is Ok
                &&& a is Ok
                &&& page_of(
                    opened(source_at(sources, i)->Some_0, requests[i].password)->Ok_0.1,
                    requests[i].page_index,
                ) == Some(a->Ok_0.1)
                &&& views.last().maps[requests[i].file_path@].contains_key(a->Ok_0.1)
                &&& r->Ok_0.pages@[i] == views.last().maps[requests[i].file_path@][a->Ok_0.1]
            },
{
    lemma_pages_follow_requests(views, requests, sources, views.len() - 1);
}

/// No image of the one map is an image of the other.
pub open spec fn images_apart(a: IdMap, b: IdMap) -> bool {
    forall|s: ObjectId, t: ObjectId|
        a.contains_key(s) && b.contains_key(t) ==> #[trigger] a[s] != #[trigger] b[t]
}

/// What holds of a merge between two requests: the map of every path is in
/// the state between two clones, and the maps of two paths share no
/// image.
pub open spec fn sound(view: SessionView) -> bool {
    &&& forall|path: Seq<char>| merge_state(view.destination, #[trigger] view.maps[path])
    &&& forall|p: Seq<char>, q: Seq<char>|
        p != q ==> images_apart(#[trigger] view.maps[p], #[trigger] view.maps[q])
}

/// A merge at its beginning is sound.
pub proof fn lemma_fresh_is_sound(view: SessionView)
    requires
        crate::commands::is_fresh(view),
    ensures
        sound(view),
{
    let empty = Map::<ObjectId, ObjectId>::empty();
    lemma_table_dom(view.destination);
    assert(view.destination.table().dom() =~= Set::<ObjectId>::empty());
    assert(closed(view.destination.table()));
    lemma_merge_state_from_closed(view.destination, empty);
    assert forall|path: Seq<char>| merge_state(
        view.destination,
        #[trigger] view.maps[path],
    ) by {
        assert(view.maps[path] == Map::<ObjectId, ObjectId>::empty());
    }
    assert forall|p: Seq<char>, q: Seq<char>| p != q implies images_apart(
        #[trigger] view.maps[p],
        #[trigger] view.maps[q],
    ) by {
        assert(view.maps[p] == Map::<ObjectId, ObjectId>::empty());
    }
}

/// A request that is merged keeps the merge sound.
pub proof fn lemma_step_keeps_sound(
    before: SessionView,
    request: ThumbnailDownloadData,
    source: Option<Content>,
    after: SessionView,
)
    requires
        sound(before),
        crate::commands::merged_by(before, request, source, after),
    ensures
        sound(after),
{
    let path = request.file_path@;
    let m0 = before.maps[path];
    let m1 = after.maps[path];
    assert(merge_state(before.destination, m0));
    assert(merge_state(after.destination, m1));
    lemma_merge_state_closed(after.destination, m1);
    assert forall|q: Seq<char>| merge_state(after.destination, #[trigger] after.maps[q]) by {
        if q != path {
            assert(after.maps[q] == before.maps[q]);
            assert(merge_state(before.destination, before.maps[q]));
            lemma_merge_state_kept(before.destination, after.destination, before.maps[q]);
        }
    }
    assert forall|p: Seq<char>, q: Seq<char>| p != q implies images_apart(
        #[trigger] after.maps[p],
        #[trigger] after.maps[q],
    ) by {
        if p != path {
            assert(after.maps[p] == before.maps[p]);
        }
        if q != path {
            assert(after.maps[q] == before.maps[q]);
        }
        assert(images_apart(before.maps[p], before.maps[q]));
        if p == path {
            lemma_new_images_apart(before, after, m0, m1, before.maps[q]);
        } else if q == path {
            lemma_new_images_apart(before, after, m0, m1, before.maps[p]);
            assert(images_apart(before.maps[q], before.maps[p]));
        }
    }
}

/// A map that grew by a clone shares no image with a map whose images
/// were stored before, if it shared none before.
proof fn lemma_new_images_apart(
    before: SessionView,
    after: SessionView,
    m0: IdMap,
    m1: IdMap,
    other: IdMap,
)
    requires
        merge_state(before.destination, other),
        images_apart(m0, other),
        forall|s: ObjectId| #[trigger] m0.contains_key(s) ==> m1.contains_key(s) && m1[s] == m0[s],
        forall|s: ObjectId| #[trigger]
            m1.contains_key(s) && !m0.contains_key(s) ==> !before.destination.objects@.contains_key(
                m1[s],
            ),
    ensures
        images_apart(m1, other),
        images_apart(other, m1),
{
    assert forall|s: ObjectId, t: ObjectId| m1.contains_key(s) && other.contains_key(t) implies #[trigger] m1[s]
        != #[trigger] other[t] by {
        assert(before.destination.objects@.contains_key(other[t]));
        if m0.contains_key(s) {
            assert(m1[s] == m0[s]);
            assert(m0[s] != other[t]);
        }
    }
}

/// Every state that a merge goes through is sound.
pub proof fn lemma_trace_is_sound(
    views: Seq<SessionView>,
    requests: Seq<ThumbnailDownloadData>,
    sources: Seq<Option<Container>>,
    k: int,
)
    requires
        0 <= k < views.len(),
        crate::commands::is_fresh(views[0]),
        forall|i: int| 0 <= i < k ==> #[trigger] step_taken(views, requests, sources, i),
    ensures
        sound(views[k]),
    decreases k,
{
    if k == 0 {
        lemma_fresh_is_sound(views[0]);
    } else {
        lemma_trace_is_sound(views, requests, sources, k - 1);
        assert(step_taken(views, requests, sources, k - 1));
        lemma_step_keeps_sound(
            views[k - 1],
            requests[k - 1],
            source_at(sources, k - 1),
            views[k],
        );
    }
}

/// Every request that a merge serves allocates once for each object that
/// it copies, however the objects of the source refer to each other. Every
/// object that the request added to the destination is the image of an
/// identifier of the opened source that the request mapped, which is the
/// page root or can be reached from it; no two identifiers of the source
/// share an image; and every identifier that the request mapped has its
/// image stored.
pub proof fn lemma_request_allocates_once(
    views: Seq<SessionView>,
    requests: Seq<ThumbnailDownloadData>,
    sources: Seq<Option<Container>>,
    k: int,
)
    requires
        0 <= k < views.len() - 1,
        crate::commands::is_fresh(views[0]),
        forall|i: int| 0 <= i <= k ==> #[trigger] step_taken(views, requests, sources, i),
    ensures
        ({
            let path = requests[k].file_path@;
            let plain = asked(requests[k], source_at(sources, k))->Ok_0.0;
            let root = asked(requests[k], source_at(sources, k))->Ok_0.1;
            let before = views[k].destination;
            let after = views[k + 1].destination;
            let m0 = views[k].maps[path];
            let m1 = views[k + 1].maps[path];
            &&& injective(m1)
            &&& forall|d: ObjectId| #[trigger]
                after.objects@.contains_key(d) && !before.objects@.contains_key(d) ==> exists|
                    s: ObjectId,
                |
                    m1.contains_key(s) && !m0.contains_key(s) && #[trigger] m1[s] == d && reaches(
                        plain.table,
                        root,
                        s,
                    )
            &&& forall|s: ObjectId| #[trigger]
                m1.contains_key(s) && !m0.contains_key(s) ==> plain.table.contains_key(s)
                    && reaches(plain.table, root, s) && after.objects@.contains_key(m1[s])
                    && !before.objects@.contains_key(m1[s])
        }),
{
    lemma_trace_is_sound(views, requests, sources, k);
    assert(step_taken(views, requests, sources, k));
    let path = requests[k].file_path@;
    let plain = asked(requests[k], source_at(sources, k))->Ok_0.0;
    let root = asked(requests[k], source_at(sources, k))->Ok_0.1;
    assert(merge_state(views[k].destination, views[k].maps[path]));
    lemma_clone_allocates_once(
        plain.table,
        root,
        views[k].destination,
        views[k].maps[path],
        views[k + 1].destination,
        views[k + 1].maps[path],
    );
}

/// In a merge that succeeds, two requests for the same page of the same
/// path share their page root, and two requests for different pages, or
/// for pages of different paths, have different page roots.
pub proof fn lemma_merged_pages_are_shared_or_apart(
    views: Seq<SessionView>,
    file_name: Seq<char>,
    output_path: Seq<char>,
    requests: Seq<ThumbnailDownloadData>,
    sources: Seq<Option<Container>>,
    password: Option<String>,
    r: Result<MergedFile, CommandErrRes>,
    i: int,
    j: int,
)
    requires
        merged_along(views, file_name, output_path, requests, sources, password, r),
        r is Ok,
        0 <= i < requests.len(),
        0 <= j < requests.len(),
    ensures
        ({
            let same = requests[i].file_path@ == requests[j].file_path@ && asked(
                requests[i],
                source_at(sources, i),
            )->Ok_0.1 == asked(requests[j], source_at(sources, j))->Ok_0.1;
            (r->Ok_0.pages@[i] == r->Ok_0.pages@[j]) == same
        }),
{
    lemma_merge_follows_requests(views, file_name, output_path, requests, sources, password, r);
    let last = views.last();
    lemma_trace_is_sound(views, requests, sources, views.len() - 1);
    let p = requests[i].file_path@;
    let q = requests[j].file_path@;
    let a = asked(requests[i], source_at(sources, i));
    let b = asked(requests[j], source_at(sources, j));
    assert(a is Ok && b is Ok);
    assert(last.maps[p].contains_key(a->Ok_0.1) && r->Ok_0.pages@[i] == last.maps[p][a->Ok_0.1]);
    assert(last.maps[q].contains_key(b->Ok_0.1) && r->Ok_0.pages@[j] == last.maps[q][b->Ok_0.1]);
    if p != q {
        assert(images_apart(last.maps[p], last.maps[q]));
    } else {
        assert(merge_state(last.destination, last.maps[p]));
    }
}

/// A merge that succeeds leaves no reference dangling: no object of the
/// merged container refers to an identifier that the container lacks,
/// every page root is stored, and every identifier on a walk from a stored
/// identifier, such as a page root, is stored.
pub proof fn lemma_merge_leaves_nothing_dangling(
    views: Seq<SessionView>,
    file_name: Seq<char>,
    output_path: Seq<char>,
    requests: Seq<ThumbnailDownloadData>,
    sources: Seq<Option<Container>>,
    password: Option<String>,
    r: Result<MergedFile, CommandErrRes>,
    path: Seq<ObjectId>,
)
    requires
        merged_along(views, file_name, output_path, requests, sources, password, r),
        r is Ok,
        is_walk(r->Ok_0.document.table(), path),
        r->Ok_0.document.table().contains_key(path[0]),
    ensures
        closed(r->Ok_0.document.table()),
        forall|i: int|
            0 <= i < r->Ok_0.pages@.len() ==> r->Ok_0.document.table().contains_key(
                #[trigger] r->Ok_0.pages@[i],
            ),
        forall|i: int| 0 <= i < path.len() ==> r->Ok_0.document.table().contains_key(#[trigger] path[i]),
{
    lemma_reachable_is_stored(r->Ok_0.document.table(), path);
}

/// Two merges of the same single request, each from its own beginning,
/// agree but for the numbering. Both map the same objects of the source,
/// and relabelling the images of the first merge as the second numbers
/// them turns each copy that the first merged container holds into the
/// copy that the second holds for the same object, and the page root of
/// the first into that of the second.
pub proof fn lemma_two_merges_of_one_page_agree(
    first: Seq<SessionView>,
    second: Seq<SessionView>,
    file_name: Seq<char>,
    output_path: Seq<char>,
    request: ThumbnailDownloadData,
    sources: Seq<Option<Container>>,
    password: Option<String>,
    a: Result<MergedFile, CommandErrRes>,
    b: Result<MergedFile, CommandErrRes>,
)
    requires
        merged_along(first, file_name, output_path, seq![request], sources, password, a),
        merged_along(second, file_name, output_path, seq![request], sources, password, b),
        a is Ok,
        b is Ok,
    ensures
        ({
            let ma = first.last().maps[request.file_path@];
            let mb = second.last().maps[request.file_path@];
            let root = asked(request, source_at(sources, 0))->Ok_0.1;
            &&& ma.dom() == mb.dom()
            &&& ma.contains_key(root)
            &&& a->Ok_0.pages@ == seq![ma[root]]
            &&& b->Ok_0.pages@ == seq![mb[root]]
            &&& forall|s: ObjectId| #[trigger]
                ma.contains_key(s) ==> relabelling(ma, mb).contains_key(ma[s]) && relabelling(
                    ma,
                    mb,
                )[ma[s]] == mb[s]
            &&& forall|s: ObjectId| #[trigger]
                ma.contains_key(s) ==> a->Ok_0.document.table().contains_key(ma[s])
                    && b->Ok_0.document.table().contains_key(mb[s])
                    && b->Ok_0.document.table()[mb[s]] == renamed(
                    a->Ok_0.document.table()[ma[s]],
                    relabelling(ma, mb),
                )
        }),
{
    let requests = seq![request];
    let path = request.file_path@;
    lemma_merge_follows_requests(first, file_name, output_path, requests, sources, password, a);
    lemma_merge_follows_requests(second, file_name, output_path, requests, sources, password, b);
    assert(step_taken(first, requests, sources, 0));
    assert(step_taken(second, requests, sources, 0));
    lemma_fresh_is_sound(first[0]);
    lemma_fresh_is_sound(second[0]);
    lemma_trace_is_sound(first, requests, sources, 1);
    lemma_trace_is_sound(second, requests, sources, 1);
    let empty = Map::<ObjectId, ObjectId>::empty();
    assert(first[0].maps[path] == Map::<ObjectId, ObjectId>::empty());
    assert(second[0].maps[path] == Map::<ObjectId, ObjectId>::empty());
    let plain = asked(request, source_at(sources, 0))->Ok_0.0;
    let root = asked(request, source_at(sources, 0))->Ok_0.1;
    let ma = first[1].maps[path];
    let mb = second[1].maps[path];
    assert(merge_state(first[0].destination, empty));
    assert(merge_state(second[0].destination, empty));
    lemma_remerge_same_structure(
        plain.table,
        root,
        first[0].destination,
        first[1].destination,
        ma,
        second[0].destination,
        second[1].destination,
        mb,
    );
    assert(a->Ok_0.pages@ =~= seq![ma[root]]);
    assert(b->Ok_0.pages@ =~= seq![mb[root]]);
    assert(merge_state(first[1].destination, ma));
    assert(merge_state(second[1].destination, mb));
    assert forall|s: ObjectId| #[trigger] ma.contains_key(s) implies a->Ok_0.document.table().contains_key(
        ma[s],
    ) && b->Ok_0.document.table().contains_key(mb[s]) && b->Ok_0.document.table()[mb[s]]
        == renamed(a->Ok_0.document.table()[ma[s]], relabelling(ma, mb)) by {
        assert(mb.contains_key(s));
        assert(ma[s].0 <= first[1].destination.max_id);
        assert(mb[s].0 <= second[1].destination.max_id);
        assert(first[1].destination.table().contains_key(ma[s]));
        assert(second[1].destination.table().contains_key(mb[s]));
    }
}

/// The page tree of a merge that succeeds lists the requested pages in the
/// order of the requests: kid `i` is a reference to the image of the page
/// that request `i` asks for, and the tree counts as many pages as there
/// were requests.
pub proof fn lemma_merged_kids_follow_requests(
    views: Seq<SessionView>,
    file_name: Seq<char>,
    output_path: Seq<char>,
    requests: Seq<ThumbnailDownloadData>,
    sources: Seq<Option<Container>>,
    password: Option<String>,
    r: Result<MergedFile, CommandErrRes>,
)
    requires
        merged_along(views, file_name, output_path, requests, sources, password, r),
        r is Ok,
    ensures
        ({
            let doc = r->Ok_0.document;
            let tree = doc.table()[((doc.max_id - 1) as u32, 0u16)];
            &&& doc.table().contains_key(((doc.max_id - 1) as u32, 0u16))
            &&& tree is Dictionary
            &&& lookup(tree->Dictionary_0, count_key()) == Some(
                Value::Integer(length_value(requests.len())),
            )
            &&& lookup(tree->Dictionary_0, kids_key()) == Some(
                Value::Array(page_refs(r->Ok_0.pages@)),
            )
            &&& page_refs(r->Ok_0.pages@).len() == requests.len()
            &&& forall|i: int|
                0 <= i < requests.len() ==> #[trigger] page_refs(r->Ok_0.pages@)[i]
                    == Value::Reference(
                    views.last().maps[requests[i].file_path@][asked(
                        requests[i],
                        source_at(sources, i),
                    )->Ok_0.1],
                )
        }),
{
    lemma_merge_follows_requests(views, file_name, output_path, requests, sources, password, r);
    lemma_page_tree_lists_pages(r->Ok_0.pages@);
    assert forall|i: int| 0 <= i < requests.len() implies #[trigger] page_refs(r->Ok_0.pages@)[i]
        == Value::Reference(
        views.last().maps[requests[i].file_path@][asked(requests[i], source_at(sources, i))->Ok_0.1],
    ) by {
        let a = asked(requests[i], source_at(sources, i));
        assert(r->Ok_0.pages@[i] == views.last().maps[requests[i].file_path@][a->Ok_0.1]);
    }
}

/// A merge that fails reports the first request that fails, with the
/// failure that `failure_of` gives for it: every request before it was
/// merged, and none after it was looked at.
pub proof fn lemma_failed_merge_reports_first_failure(
    views: Seq<SessionView>,
    file_name: Seq<char>,
    output_path: Seq<char>,
    requests: Seq<ThumbnailDownloadData>,
    sources: Seq<Option<Container>>,
    password: Option<String>,
    r: Result<MergedFile, CommandErrRes>,
)
    requires
        merged_along(views, file_name, output_path, requests, sources, password, r),
        r is Err,
    ensures
        ({
            let n = views.len() - 1;
            &&& 0 <= n < requests.len()
            &&& forall|i: int|
                0 <= i < n ==> failure_of(
                    (#[trigger] views[i]).destination,
                    requests[i],
                    source_at(sources, i),
                ) is None
            &&& failure_of(views[n].destination, requests[n], source_at(sources, n)) matches Some(
                kind,
            ) && r->Err_0.is_about_source(kind, file_name, &requests[n])
        }),
{
    let n = views.len() - 1;
    assert forall|i: int| 0 <= i < n implies failure_of(
        (#[trigger] views[i]).destination,
        requests[i],
        source_at(sources, i),
    ) is None by {
        assert(step_taken(views, requests, sources, i));
    }
}

/// A merge that reaches a request which cannot be served stops there: the
/// request is not skipped, no later request is looked at, and the merge
/// fails with the failure of that request, its path and its page index.
pub proof fn lemma_merge_stops_at_failure(
    views: Seq<SessionView>,
    file_name: Seq<char>,
    output_path: Seq<char>,
    requests: Seq<ThumbnailDownloadData>,
    sources: Seq<Option<Container>>,
    password: Option<String>,
    r: Result<MergedFile, CommandErrRes>,
    i: int,
)
    requires
        merged_along(views, file_name, output_path, requests, sources, password, r),
        0 <= i < requests.len(),
        i < views.len(),
        asked(requests[i], source_at(sources, i)) is Err,
    ensures
        views.len() == i + 1,
        r is Err,
        r->Err_0.is_about_source(
            asked(requests[i], source_at(sources, i))->Err_0,
            file_name,
            &requests[i],
        ),
{
    if i < views.len() - 1 {
        assert(step_taken(views, requests, sources, i));
    }
}

/// A merge that reaches a request for a page of an encrypted source that
/// brings no password fails there: the password is required.
pub proof fn lemma_merge_stops_where_password_is_missing(
    views: Seq<SessionView>,
    file_name: Seq<char>,
    output_path: Seq<char>,
    requests: Seq<ThumbnailDownloadData>,
    sources: Seq<Option<Container>>,
    password: Option<String>,
    r: Result<MergedFile, CommandErrRes>,
    i: int,
)
    requires
        merged_along(views, file_name, output_path, requests, sources, password, r),
        0 <= i < requests.len(),
        i < views.len(),
        source_at(sources, i) matches Some(held) && says_encrypted(held),
        requests[i].password is None,
    ensures
        views.len() == i + 1,
        r is Err,
        r->Err_0.is_about_source(ErrorKind::PasswordRequired, file_name, &requests[i]),
{
    lemma_merge_stops_at_failure(views, file_name, output_path, requests, sources, password, r, i);
}

/// A merge that reaches a request for a page of an encrypted source whose
/// password does not decrypt the source fails there: the password is
/// incorrect.
pub proof fn lemma_merge_stops_where_password_is_wrong(
    views: Seq<SessionView>,
    file_name: Seq<char>,
    output_path: Seq<char>,
    requests: Seq<ThumbnailDownloadData>,
    sources: Seq<Option<Container>>,
    password: Option<String>,
    r: Result<MergedFile, CommandErrRes>,
    i: int,
)
    requires
        merged_along(views, file_name, output_path, requests, sources, password, r),
        0 <= i < requests.len(),
        i < views.len(),
        source_at(sources, i) matches Some(held) && says_encrypted(held) && decrypted(
            masked(held),
            requests[i].password->Some_0@,
        ) is None,
        requests[i].password is Some,
    ensures
        views.len() == i + 1,
        r is Err,
        r->Err_0.is_about_source(ErrorKind::PasswordIncorrect, file_name, &requests[i]),
{
    lemma_merge_stops_at_failure(views, file_name, output_path, requests, sources, password, r, i);
}

/// A merge succeeds only if no request fails in the state in which the
/// merge reaches it.
pub proof fn lemma_merge_succeeds_only_without_failure(
    views: Seq<SessionView>,
    file_name: Seq<char>,
    output_path: Seq<char>,
    requests: Seq<ThumbnailDownloadData>,
    sources: Seq<Option<Container>>,
    password: Option<String>,
    r: Result<MergedFile, CommandErrRes>,
)
    requires
        merged_along(views, file_name, output_path, requests, sources, password, r),
    ensures
        r is Ok <==> (views.len() == requests.len() + 1 && forall|i: int|
            0 <= i < requests.len() ==> failure_of(
                (#[trigger] views[i]).destination,
                requests[i],
                source_at(sources, i),
            ) is None),
{
    let n = views.len() - 1;
    if r is Ok {
        assert forall|i: int| 0 <= i < requests.len() implies failure_of(
            (#[trigger] views[i]).destination,
            requests[i],
            source_at(sources, i),
        ) is None by {
            assert(step_taken(views, requests, sources, i));
        }
    }
}

/// A merge that is to be encrypted is never written plain: the bytes of a
/// download that succeeds are what the writer makes of a container that
/// came of encrypting the merged container as its descriptor says.
pub proof fn lemma_sealed_download_is_encrypted(
    merged: MergedFile,
    file_name: Seq<char>,
    output_path: Seq<char>,
    r: Result<Download, CommandErrRes>,
)
    requires
        sealed_from(merged, file_name, output_path, r),
        merged.encryption is Some,
        r is Ok,
    ensures
        r->Ok_0.success == merged.success,
        exists|sealed: Container|
            may_seal(merged.document, merged.encryption->Some_0, Ok(sealed)) && #[trigger] written(
                sealed.content(),
            ) == Some(r->Ok_0.bytes@),
{
    let outcome = choose|sealed: Result<Container, SealFailure>|
        may_seal(merged.document, merged.encryption->Some_0, sealed) && #[trigger] download_of(
            sealed,
            merged.success,
            file_name,
            output_path,
            r,
        );
    let sealed = outcome->Ok_0;
    assert(may_seal(merged.document, merged.encryption->Some_0, Ok(sealed)) && written(
        sealed.content(),
    ) == Some(r->Ok_0.bytes@));
}

/// An encrypted merge keeps the merge. The encrypted container says that
/// it is encrypted, with the algorithm of the descriptor. It holds the
/// encryption dictionary under the next object number, and page tree and
/// catalog as they were. Its trailer is the merged one with the reference
/// to the encryption dictionary added at its end: the root and the
/// identifier, twice the same 16 bytes, are as they were. Every object of
/// the destination is stored and is like the merged one but for what
/// encrypting it changes, every page root is stored, and no object refers
/// to an identifier that the container lacks.
pub proof fn lemma_sealed_merge_keeps_the_merge(
    merged: MergedFile,
    file_name: Seq<char>,
    output_path: Seq<char>,
    password: Option<String>,
    destination: Container,
    pages: Seq<ObjectId>,
    descriptor: EncryptionDescriptor,
    sealed: Container,
)
    requires
        is_merge_of(merged, file_name, output_path, password, destination, pages),
        may_seal(merged.document, descriptor, Ok(sealed)),
    ensures
        ({
            let tree_id = ((destination.max_id + 1) as u32, 0u16);
            let catalog_id = ((destination.max_id + 2) as u32, 0u16);
            let key_id = ((destination.max_id + 3) as u32, 0u16);
            &&& says_encrypted(sealed.content())
            &&& sealed_as(sealed.content(), descriptor)
            &&& cipher_of(sealed.content()) == Some(descriptor.algorithm)
            &&& sealed.version@ == merged.document.version@
            &&& sealed.max_id == destination.max_id + 3
            &&& sealed.table().dom() == merged.document.table().dom().insert(key_id)
            &&& sealed.table()[key_id] is Dictionary
            &&& sealed.table()[tree_id] == page_tree(pages)
            &&& lookup(page_tree(pages)->Dictionary_0, kids_key()) == Some(
                Value::Array(page_refs(pages)),
            )
            &&& sealed.table()[catalog_id] == catalog(tree_id)
            &&& exists|fresh: Seq<u8>|
                fresh.len() == 16 && sealed.trailer@ == #[trigger] finished_trailer(
                    Seq::empty(),
                    catalog_id,
                    fresh,
                ).push((encrypt_key(), Value::Reference(key_id))) && lookup(
                    sealed.trailer@,
                    id_key(),
                ) == Some(document_id(fresh))
            &&& lookup(sealed.trailer@, root_key()) == Some(Value::Reference(catalog_id))
            &&& lookup(sealed.trailer@, encrypt_key()) == Some(Value::Reference(key_id))
            &&& forall|id: ObjectId|
                destination.table().contains_key(id) ==> sealed.table().contains_key(id) && like(
                    destination.table()[id],
                    #[trigger] sealed.table()[id],
                    true,
                )
            &&& forall|i: int| 0 <= i < pages.len() ==> sealed.table().contains_key(#[trigger] pages[i])
            &&& closed(sealed.table())
        }),
{
    let plain = merged.document.content();
    let held = sealed.content();
    lemma_encrypted_is_closed(plain, held);
    assert forall|i: int| 0 <= i < pages.len() implies sealed.table().contains_key(
        #[trigger] pages[i],
    ) by {
        assert(plain.table.contains_key(pages[i]));
        assert(plain.table.dom().insert((held.max_id, 0u16)).contains(pages[i]));
    }
    let tree_id = ((destination.max_id + 1) as u32, 0u16);
    let catalog_id = ((destination.max_id + 2) as u32, 0u16);
    let key_id = ((destination.max_id + 3) as u32, 0u16);
    assert(key_id == (held.max_id, 0u16));
    lemma_encrypted_refers_to_dictionary(plain, held);
    lemma_page_tree_lists_pages(pages);
    lemma_catalog_points_at_tree(tree_id);
    assert(plain.table.contains_key(tree_id) && plain.table.contains_key(catalog_id));
    lemma_encrypted_keeps_objects(plain, held, tree_id);
    lemma_encrypted_keeps_objects(plain, held, catalog_id);
    let fresh = choose|fresh: Seq<u8>|
        fresh.len() == 16 && merged.document.trailer@ == #[trigger] finished_trailer(
            Seq::empty(),
            catalog_id,
            fresh,
        );
    lemma_fresh_trailer(catalog_id, fresh);
    let before = finished_trailer(Seq::empty(), catalog_id, fresh);
    let want = with_entry(before, encrypt_key(), Value::Reference(key_id));
    assert(want == before.push((encrypt_key(), Value::Reference(key_id))));
    assert(entries_fixed(want, false)) by {
        assert forall|i: int| 0 <= i < want.len() implies fixed(#[trigger] want[i].1, false) by {
            if i < before.len() {
                assert(want[i] == before[i]);
                assert(fixed(before[i].1, false));
            }
        }
    }
    lemma_fixed_entries_are_kept(want, held.trailer, false);
    lemma_encrypted_keeps_trailer(plain, held, root_key());
    lemma_encrypted_keeps_trailer(plain, held, id_key());
    assert(root_key().len() != encrypt_key().len());
    assert(id_key().len() != encrypt_key().len());
    assert forall|id: ObjectId| destination.table().contains_key(id) implies sealed.table().contains_key(
        id,
    ) && like(destination.table()[id], #[trigger] sealed.table()[id], true) by {
        lemma_table_dom(destination);
        assert(destination.objects@.contains_key(id));
        assert(id.0 <= destination.max_id);
        assert(plain.table.contains_key(id) && plain.table[id] == destination.table()[id]);
        lemma_encrypted_keeps_objects(plain, held, id);
    }
}

/// A download with a password, of at least one page, that succeeds writes
/// an encrypted container that keeps the merge. Its bytes are what the
/// writer makes of a container which says that it is encrypted with AES
/// and a 128-bit key, whose page tree lists, in the order of the requests,
/// references to the images of the requested pages and counts them, whose
/// catalog points at that tree, whose trailer refers to the catalog and
/// holds an identifier of twice the same 16 bytes, and in which no object
/// refers to an identifier that the container lacks.
pub proof fn lemma_encrypted_download_keeps_the_merge(
    views: Seq<SessionView>,
    merged: Result<MergedFile, CommandErrRes>,
    file_name: Seq<char>,
    output_path: Seq<char>,
    requests: Seq<ThumbnailDownloadData>,
    sources: Seq<Option<Container>>,
    password: Option<String>,
    r: Result<Download, CommandErrRes>,
)
    requires
        downloaded_along(views, merged, file_name, output_path, requests, sources, password, r),
        password is Some,
        requests.len() > 0,
        r is Ok,
    ensures
        merged is Ok,
        merged->Ok_0.pages@.len() == requests.len(),
        forall|i: int|
            0 <= i < requests.len() ==> merged->Ok_0.pages@[i]
                == views.last().maps[requests[i].file_path@][(#[trigger] asked(
                requests[i],
                source_at(sources, i),
            ))->Ok_0.1],
        exists|sealed: Container|
            {
                let pages = merged->Ok_0.pages@;
                let tree_id = ((sealed.max_id - 2) as u32, 0u16);
                let catalog_id = ((sealed.max_id - 1) as u32, 0u16);
                &&& #[trigger] written(sealed.content()) == Some(r->Ok_0.bytes@)
                &&& sealed.max_id >= 3
                &&& says_encrypted(sealed.content())
                &&& cipher_of(sealed.content()) == Some(EncryptionAlgorithm::Aes128)
                &&& sealed.table()[tree_id] == page_tree(pages)
                &&& lookup(page_tree(pages)->Dictionary_0, kids_key()) == Some(
                    Value::Array(page_refs(pages)),
                )
                &&& lookup(page_tree(pages)->Dictionary_0, count_key()) == Some(
                    Value::Integer(length_value(requests.len())),
                )
                &&& sealed.table()[catalog_id] == catalog(tree_id)
                &&& lookup(sealed.trailer@, root_key()) == Some(Value::Reference(catalog_id))
                &&& exists|fresh: Seq<u8>|
                    fresh.len() == 16 && lookup(sealed.trailer@, id_key()) == Some(
                        #[trigger] document_id(fresh),
                    )
                &&& forall|i: int|
                    0 <= i < pages.len() ==> sealed.table().contains_key(#[trigger] pages[i])
                &&& closed(sealed.table())
            },
{
    if merged is Err {
        assert(r is Err);
    }
    let m = merged->Ok_0;
    lemma_merge_follows_requests(views, file_name, output_path, requests, sources, password, merged);
    assert(encrypts(password, m.pages@.len()));
    let descriptor = m.encryption->Some_0;
    lemma_sealed_download_is_encrypted(m, file_name, output_path, r);
    let sealed = choose|sealed: Container|
        may_seal(m.document, descriptor, Ok(sealed)) && #[trigger] written(sealed.content())
            == Some(r->Ok_0.bytes@);
    let destination = views.last().destination;
    lemma_sealed_merge_keeps_the_merge(
        m,
        file_name,
        output_path,
        password,
        destination,
        m.pages@,
        descriptor,
        sealed,
    );
    lemma_page_tree_lists_pages(m.pages@);
    let catalog_id = ((destination.max_id + 2) as u32, 0u16);
    let fresh = choose|fresh: Seq<u8>|
        fresh.len() == 16 && sealed.trailer@ == #[trigger] finished_trailer(
            Seq::empty(),
            catalog_id,
            fresh,
        ).push((encrypt_key(), Value::Reference(((destination.max_id + 3) as u32, 0u16))))
            && lookup(sealed.trailer@, id_key()) == Some(document_id(fresh));
    assert(fresh.len() == 16 && lookup(sealed.trailer@, id_key()) == Some(document_id(fresh)));
    assert(written(sealed.content()) == Some(r->Ok_0.bytes@));
}

/// A merge that is not to be encrypted is written as it is: the bytes of a
/// download that succeeds are what the writer makes of the merged
/// container.
pub proof fn lemma_plain_download_is_the_merge(
    merged: MergedFile,
    file_name: Seq<char>,
    output_path: Seq<char>,
    r: Result<Download, CommandErrRes>,
)
    requires
        sealed_from(merged, file_name, output_path, r),
        merged.encryption is None,
        r is Ok,
    ensures
        r->Ok_0.success == merged.success,
        written(merged.document.content()) == Some(r->Ok_0.bytes@),
{
}

/// The trailer of a merge into a fresh destination holds the reference to
/// the catalog and then the identifier, twice the same bytes, and nothing
/// else; nothing in it is open to a change of the text of real numbers.
pub proof fn lemma_fresh_trailer(catalog_id: ObjectId, fresh: Seq<u8>)
    ensures
        finished_trailer(Seq::empty(), catalog_id, fresh) == seq![
            (root_key(), Value::Reference(catalog_id)),
            (id_key(), document_id(fresh)),
        ],
        lookup(finished_trailer(Seq::empty(), catalog_id, fresh), root_key()) == Some(
            Value::Reference(catalog_id),
        ),
        lookup(finished_trailer(Seq::empty(), catalog_id, fresh), id_key()) == Some(
            document_id(fresh),
        ),
        !has_key(finished_trailer(Seq::empty(), catalog_id, fresh), encrypt_key()),
        entries_fixed(finished_trailer(Seq::empty(), catalog_id, fresh), false),
        fixed(document_id(fresh), false),
{
    let empty: Entries = Seq::empty();
    let rooted = with_entry(empty, root_key(), Value::Reference(catalog_id));
    assert(!has_key(empty, root_key()));
    assert(rooted =~= seq![(root_key(), Value::Reference(catalog_id))]);
    assert(root_key().len() != id_key().len());
    assert(!has_key(rooted, id_key()));
    let trailer = finished_trailer(Seq::empty(), catalog_id, fresh);
    assert(trailer =~= seq![
        (root_key(), Value::Reference(catalog_id)),
        (id_key(), document_id(fresh)),
    ]);
    assert(is_first(trailer, root_key(), 0));
    lemma_position(trailer, root_key(), 0);
    assert(is_first(trailer, id_key(), 1));
    lemma_position(trailer, id_key(), 1);
    assert(!has_key(trailer, encrypt_key())) by {
        assert(root_key().len() != encrypt_key().len());
        assert(id_key().len() != encrypt_key().len());
    }
    assert(items_fixed(document_id(fresh)->Array_0, false));
    assert(fixed(trailer[1].1, false));
    assert(entries_fixed(trailer, false));
}

/// A merge of no requests succeeds. Its container holds the page tree
/// without pages and the catalog and nothing else, its trailer has a root
/// and an identifier and no entry on encryption, and it is not to be
/// encrypted, whether or not a password was supplied.
pub proof fn lemma_merge_of_nothing(
    views: Seq<SessionView>,
    file_name: Seq<char>,
    output_path: Seq<char>,
    sources: Seq<Option<Container>>,
    password: Option<String>,
    r: Result<MergedFile, CommandErrRes>,
)
    requires
        merged_along(views, file_name, output_path, Seq::empty(), sources, password, r),
    ensures
        r is Ok,
        r->Ok_0.pages@.len() == 0,
        r->Ok_0.encryption is None,
        r->Ok_0.document.table() == Map::<ObjectId, Value>::empty().insert(
            (1u32, 0u16),
            page_tree(Seq::empty()),
        ).insert((2u32, 0u16), catalog((1u32, 0u16))),
        r->Ok_0.document.table().dom() == set![(1u32, 0u16), (2u32, 0u16)],
        r->Ok_0.document.trailer@.len() == 2,
        lookup(r->Ok_0.document.trailer@, root_key()) == Some(Value::Reference((2u32, 0u16))),
        has_key(r->Ok_0.document.trailer@, id_key()),
        !has_key(r->Ok_0.document.trailer@, encrypt_key()),
{
    let merged = r->Ok_0;
    let start = views[0];
    assert(start.pages =~= Seq::<ObjectId>::empty());
    assert(start.destination.table() =~= Map::<ObjectId, Value>::empty());
    let catalog_id = (2u32, 0u16);
    let fresh = choose|fresh: Seq<u8>|
        fresh.len() == 16 && merged.document.trailer@ == #[trigger] finished_trailer(
            Seq::empty(),
            catalog_id,
            fresh,
        );
    lemma_fresh_trailer(catalog_id, fresh);
    assert(merged.document.table().dom() =~= set![(1u32, 0u16), (2u32, 0u16)]);
}

/// Whatever the algorithm, the version of a merged container is late
/// enough for it.
pub proof fn lemma_output_version_suffices(algorithm: EncryptionAlgorithm)
    ensures
        algorithm.spec_minimum_minor_version() <= OUTPUT_MINOR_VERSION,
{
}

} // verus!
