use crate::cloner::{
    clone_with_dependencies, cloned, kept, lemma_merge_state_closed, lemma_merge_state_from_closed,
    merge_state, unmapped,
};
use crate::container::{lemma_table_dom, Container};
use crate::error::ErrorKind;
use crate::graph::{
    closed, entries_refs_within, items_refs_within, lemma_refs_within_grow,
    lemma_with_entry_refs_within, refs_within, IdMap,
};
use crate::names::{
    catalog_tag, catalog_tag_bytes, count_key, count_key_bytes, id_key, id_key_bytes, kids_key,
    kids_key_bytes, pages_key, pages_key_bytes, root_key, root_key_bytes, type_key, type_key_bytes,
};
use crate::object::{
    bytes_copy, has_key, lemma_lookup_other, lemma_lookup_stored, length_as_integer, length_value,
    lookup, values_of, with_entry, Dict, Entries, ObjectId, ObjectValue, StringFormat, Value,
};
use std::collections::BTreeMap;
use vstd::prelude::*;

verus! {

/// The identifier map of one source: which object of the destination stands
/// for which object of that source.
#[derive(Debug)]
pub struct SourceMap {
    pub source: String,
    pub ids: BTreeMap<ObjectId, ObjectId>,
}

/// A merge under way: the destination, the roots of the pages cloned so far
/// in the order they were asked for, and one identifier map for each source.
#[derive(Debug)]
pub struct Merger {
    pub document: Container,
    pub pages: Vec<ObjectId>,
    pub id_maps: Vec<SourceMap>,
}

/// The version of the containers that a merge produces.
pub open spec fn output_version() -> Seq<char> {
    "1.5"@
}

/// The minor version, within major version 1, of the containers that a
/// merge produces.
pub const OUTPUT_MINOR_VERSION: u8 = 5;

/// How many object numbers a merge keeps back for the page tree and the
/// catalog.
pub const RESERVED_IDS: u32 = 2;

/// References to the page roots, in order.
pub open spec fn page_refs(pages: Seq<ObjectId>) -> Seq<Value> {
    Seq::new(pages.len(), |i: int| Value::Reference(pages[i]))
}

/// The page tree over the given page roots: its type, the roots as its kids
/// in order, and their number.
pub open spec fn page_tree(pages: Seq<ObjectId>) -> Value {
    Value::Dictionary(
        with_entry(
            with_entry(
                with_entry(Seq::empty(), type_key(), Value::Name(pages_key())),
                kids_key(),
                Value::Array(page_refs(pages)),
            ),
            count_key(),
            Value::Integer(length_value(pages.len())),
        ),
    )
}

/// The catalog that points at the page tree stored under `tree`.
pub open spec fn catalog(tree: ObjectId) -> Value {
    Value::Dictionary(
        with_entry(
            with_entry(Seq::empty(), type_key(), Value::Name(catalog_tag())),
            pages_key(),
            Value::Reference(tree),
        ),
    )
}

/// Makes the page tree over the given page roots.
pub fn page_tree_object(pages: &Vec<ObjectId>) -> (tree: ObjectValue)
    ensures
        tree@ == page_tree(pages@),
{
    let mut kids: Vec<ObjectValue> = Vec::new();
    let mut i: usize = 0;
    while i < pages.len()
        invariant
            i <= pages.len(),
            kids.len() == i,
            forall|k: int| 0 <= k < i ==> (#[trigger] kids[k])@ == Value::Reference(pages[k]),
        decreases pages.len() - i,
    {
        kids.push(ObjectValue::Reference(pages[i]));
        i += 1;
    }
    assert(values_of(kids@) =~= page_refs(pages@));
    let mut tree = Dict::new();
    tree.set(type_key_bytes(), ObjectValue::Name(pages_key_bytes()));
    tree.set(kids_key_bytes(), ObjectValue::Array(kids));
    tree.set(count_key_bytes(), ObjectValue::Integer(length_as_integer(pages.len())));
    ObjectValue::Dictionary(tree)
}

/// Makes the catalog that points at the page tree stored under `tree`.
pub fn catalog_object(tree: ObjectId) -> (object: ObjectValue)
    ensures
        object@ == catalog(tree),
{
    let mut dict = Dict::new();
    dict.set(type_key_bytes(), ObjectValue::Name(catalog_tag_bytes()));
    dict.set(pages_key_bytes(), ObjectValue::Reference(tree));
    ObjectValue::Dictionary(dict)
}

/// A document identifier: the same bytes twice, as hexadecimal strings.
pub open spec fn document_id(fresh: Seq<u8>) -> Value {
    Value::Array(
        seq![
            Value::String(fresh, StringFormat::Hexadecimal),
            Value::String(fresh, StringFormat::Hexadecimal),
        ],
    )
}

/// The trailer of a finished merge: `Root` refers to the catalog, and an
/// identifier made of `fresh` is added unless the trailer had one.
pub open spec fn finished_trailer(trailer: Entries, catalog: ObjectId, fresh: Seq<u8>) -> Entries {
    let rooted = with_entry(trailer, root_key(), Value::Reference(catalog));
    if has_key(rooted, id_key()) {
        rooted
    } else {
        with_entry(rooted, id_key(), document_id(fresh))
    }
}

/// What a finished merge is: the page tree over `pages` and the catalog
/// that points at it hold the two largest object numbers, the trailer
/// refers to the catalog and has an identifier, every page root is stored,
/// and no object refers to an identifier that the container lacks.
pub open spec fn finished(doc: Container, pages: Seq<ObjectId>) -> bool {
    let tree_id = ((doc.max_id - 1) as u32, 0u16);
    let catalog_id = (doc.max_id, 0u16);
    &&& doc.max_id >= RESERVED_IDS
    &&& doc.table().contains_key(tree_id)
    &&& doc.table()[tree_id] == page_tree(pages)
    &&& doc.table().contains_key(catalog_id)
    &&& doc.table()[catalog_id] == catalog(tree_id)
    &&& lookup(doc.trailer@, root_key()) == Some(Value::Reference(catalog_id))
    &&& has_key(doc.trailer@, id_key())
    &&& forall|i: int| 0 <= i < pages.len() ==> doc.table().contains_key(#[trigger] pages[i])
    &&& doc.ids_bounded()
    &&& closed(doc.table())
}

/// A destination that keeps its objects, stays closed and does not lower
/// `max_id` keeps every map's state.
pub proof fn lemma_merge_state_kept(before: Container, after: Container, m: IdMap)
    requires
        merge_state(before, m),
        kept(before.objects@, after.objects@),
        after.ids_bounded(),
        closed(after.table()),
    ensures
        merge_state(after, m),
{
    assert forall|s: ObjectId| #[trigger] m.contains_key(s) implies after.objects@.contains_key(
        m[s],
    ) by {
        assert(before.objects@.contains_key(m[s]));
    }
    lemma_merge_state_from_closed(after, m);
}

/// No source has two maps.
pub open spec fn one_map_each(maps: Seq<SourceMap>) -> bool {
    forall|i: int, j: int|
        0 <= i < j < maps.len() ==> (#[trigger] maps[i]).source@ != (#[trigger] maps[j]).source@
}

/// Where no source has two maps, the source of the map at `at` has its
/// place there, and that map is its map.
pub proof fn lemma_place_of(m: Merger, source: Seq<char>, at: int)
    requires
        one_map_each(m.id_maps@),
        0 <= at < m.id_maps.len(),
        m.id_maps[at].source@ == source,
    ensures
        m.knows(source),
        m.place_of(source) == at,
        m.map_of(source) == m.id_maps[at].ids@,
{
    let p = m.place_of(source);
    if p < at {
        assert(m.id_maps@[p].source@ != m.id_maps@[at].source@);
    } else if at < p {
        assert(m.id_maps@[at].source@ != m.id_maps@[p].source@);
    }
}

impl Merger {
    /// Whether a map is kept for `source`.
    pub open spec fn knows(&self, source: Seq<char>) -> bool {
        exists|i: int| 0 <= i < self.id_maps.len() && (#[trigger] self.id_maps[i]).source@ == source
    }

    /// The place of the map kept for `source`.
    pub open spec fn place_of(&self, source: Seq<char>) -> int {
        choose|i: int| 0 <= i < self.id_maps.len() && (#[trigger] self.id_maps[i]).source@ == source
    }

    /// The identifier map of `source`; empty where nothing was cloned from it.
    pub open spec fn map_of(&self, source: Seq<char>) -> IdMap {
        if self.knows(source) {
            self.id_maps[self.place_of(source)].ids@
        } else {
            Map::empty()
        }
    }

    /// The state between two clones: the destination refers to nothing it
    /// lacks and has two object numbers to spare, each source has one map,
    /// each map is injective with all its images stored, and every page root
    /// is stored.
    pub open spec fn wf(&self) -> bool {
        &&& self.document.ids_bounded()
        &&& self.document.max_id <= u32::MAX - RESERVED_IDS
        &&& closed(self.document.table())
        &&& one_map_each(self.id_maps@)
        &&& forall|i: int|
            0 <= i < self.id_maps.len() ==> merge_state(
                self.document,
                (#[trigger] self.id_maps[i]).ids@,
            )
        &&& forall|i: int|
            0 <= i < self.pages.len() ==> self.document.objects@.contains_key(#[trigger] self.pages[i])
    }

    /// A merge with nothing cloned yet, into an empty container of version 1.5.
    pub fn new() -> (m: Merger)
        ensures
            m.wf(),
            m.document.version@ == output_version(),
            m.document.objects@ == Map::<ObjectId, ObjectValue>::empty(),
            m.document.trailer@.len() == 0,
            m.document.max_id == 0,
            m.pages@.len() == 0,
            m.id_maps@.len() == 0,
    {
        let m = Merger { document: Container::with_version("1.5"), pages: Vec::new(), id_maps: Vec::new() };
        assert(closed(m.document.table()));
        m
    }

    /// The place of the map of `source`, which is added, empty, if there is
    /// none yet.
    fn locate(&mut self, source: &String) -> (at: usize)
        requires
            old(self).wf(),
        ensures
            final(self).wf(),
            at < final(self).id_maps.len(),
            final(self).id_maps[at as int].source@ == source@,
            final(self).id_maps[at as int].ids@ == old(self).map_of(source@),
            final(self).document == old(self).document,
            final(self).pages == old(self).pages,
            final(self).place_of(source@) == at,
            final(self).knows(source@),
            forall|other: Seq<char>| #[trigger] final(self).map_of(other) == old(self).map_of(other),
    {
        let mut i: usize = 0;
        while i < self.id_maps.len()
            invariant
                *self == *old(self),
                self.wf(),
                i <= self.id_maps.len(),
                forall|k: int| 0 <= k < i ==> (#[trigger] self.id_maps[k]).source@ != source@,
            decreases self.id_maps.len() - i,
        {
            if self.id_maps[i].source == *source {
                proof {
                    lemma_place_of(*self, source@, i as int);
                }
                return i;
            }
            i += 1;
        }
        assert(!self.knows(source@));
        let ghost before = *self;
        self.id_maps.push(SourceMap { source: source.clone(), ids: BTreeMap::new() });
        proof {
            let at: int = self.id_maps.len() - 1;
            assert(self.id_maps[at].source@ == source@);
            assert(one_map_each(self.id_maps@)) by {
                assert forall|i: int, j: int| 0 <= i < j < self.id_maps.len() implies (
                #[trigger] self.id_maps@[i]).source@ != (#[trigger] self.id_maps@[j]).source@ by {
                    assert(self.id_maps@[i] == before.id_maps@[i]);
                    if j < at {
                        assert(self.id_maps@[j] == before.id_maps@[j]);
                    }
                }
            }
            lemma_place_of(*self, source@, at);
            lemma_merge_state_from_closed(self.document, self.id_maps[at].ids@);
            assert forall|k: int| 0 <= k < self.id_maps.len() implies merge_state(
                self.document,
                (#[trigger] self.id_maps[k]).ids@,
            ) by {
                if k < at {
                    assert(self.id_maps[k] == before.id_maps[k]);
                }
            }
            assert forall|other: Seq<char>| #[trigger] self.map_of(other) == before.map_of(other) by {
                if other == source@ {
                } else if before.knows(other) {
                    let q = before.place_of(other);
                    assert(self.id_maps[q] == before.id_maps[q]);
                    lemma_place_of(*self, other, q);
                } else {
                    if self.knows(other) {
                        let q2 = self.place_of(other);
                        assert(q2 < at);
                        assert(before.id_maps[q2].source@ == other);
                    }
                }
            }
        }
        self.id_maps.len() - 1
    }

    /// Whether the destination has object numbers for all objects of `doc`.
    pub open spec fn fits(&self, doc: &Container) -> bool {
        self.document.max_id + doc.objects@.len() <= u32::MAX - RESERVED_IDS
    }

    /// Clones the page stored under `page_id` in `doc` into the destination,
    /// through the map kept for `source`, and adds the clone's root to the
    /// pages. Fails, changing nothing, where `doc` holds no object under
    /// `page_id` or the destination would run out of object numbers.
    pub fn add_page(&mut self, source: &String, doc: &Container, page_id: ObjectId) -> (r: Result<
        ObjectId,
        ErrorKind,
    >)
        requires
            old(self).wf(),
        ensures
            final(self).wf(),
            r is Ok <==> doc.objects@.contains_key(page_id) && old(self).fits(doc),
            r matches Err(e) ==> *final(self) == *old(self) && e == (if doc.objects@.contains_key(
                page_id,
            ) {
                ErrorKind::ObjectLimitExceeded
            } else {
                ErrorKind::PageNotFound
            }),
            r matches Ok(new_id) ==> {
                &&& final(self).pages@ == old(self).pages@.push(new_id)
                &&& final(self).map_of(source@).contains_key(page_id)
                &&& final(self).map_of(source@)[page_id] == new_id
                &&& cloned(
                    doc.table(),
                    page_id,
                    old(self).document,
                    old(self).map_of(source@),
                    final(self).document,
                    final(self).map_of(source@),
                )
                &&& forall|other: Seq<char>|
                    other != source@ ==> #[trigger] final(self).map_of(other) == old(self).map_of(
                        other,
                    )
            },
    {
        if !doc.has_object(page_id) {
            return Err(ErrorKind::PageNotFound);
        }
        if doc.objects.len() > (u32::MAX - RESERVED_IDS - self.document.max_id) as usize {
            return Err(ErrorKind::ObjectLimitExceeded);
        }
        let at = self.locate(source);
        let ghost mid = *self;
        let mut entry = self.id_maps.remove(at);
        let ghost m0 = entry.ids@;
        proof {
            vstd::set_lib::lemma_len_subset(unmapped(doc.objects@.dom(), m0), doc.objects@.dom());
            lemma_table_dom(*doc);
        }
        let new_id = clone_with_dependencies(doc, page_id, &mut self.document, &mut entry.ids);
        let ghost named = entry;
        self.id_maps.insert(at, entry);
        self.pages.push(new_id);
        proof {
            assert(self.id_maps@ =~= mid.id_maps@.update(at as int, named));
            lemma_merge_state_closed(self.document, named.ids@);
            assert forall|k: int| 0 <= k < self.id_maps.len() implies merge_state(
                self.document,
                (#[trigger] self.id_maps[k]).ids@,
            ) by {
                if k != at {
                    assert(self.id_maps[k] == mid.id_maps[k]);
                    lemma_merge_state_kept(mid.document, self.document, mid.id_maps[k].ids@);
                }
            }
            assert(one_map_each(self.id_maps@)) by {
                assert forall|i: int, j: int| 0 <= i < j < self.id_maps.len() implies (
                #[trigger] self.id_maps@[i]).source@ != (#[trigger] self.id_maps@[j]).source@ by {
                    assert(self.id_maps@[i].source@ == mid.id_maps@[i].source@);
                    assert(self.id_maps@[j].source@ == mid.id_maps@[j].source@);
                }
            }
            assert forall|i: int| 0 <= i < self.pages.len() implies self.document.objects@.contains_key(
                #[trigger] self.pages[i],
            ) by {
                if i < mid.pages.len() {
                    assert(mid.document.objects@.contains_key(mid.pages[i]));
                }
            }
            assert(self.id_maps[at as int].source@ == source@);
            lemma_place_of(*self, source@, at as int);
            assert(self.map_of(source@) == named.ids@);
            assert forall|other: Seq<char>| other != source@ implies #[trigger] self.map_of(other)
                == mid.map_of(other) by {
                if mid.knows(other) {
                    let q = mid.place_of(other);
                    assert(self.id_maps[q].source@ == other);
                    lemma_place_of(*self, other, q);
                } else {
                    if self.knows(other) {
                        let q2 = self.place_of(other);
                        assert(mid.id_maps[q2].source@ == self.id_maps[q2].source@);
                    }
                }
            }
        }
        Ok(new_id)
    }

    /// Ends the merge: stores the page tree over the page roots, in the
    /// order in which they were added, and the catalog that points at it,
    /// makes the trailer refer to the catalog, and gives the container an
    /// identifier made of `fresh` unless it has one. Returns the container
    /// and the page roots.
    pub fn finish(self, fresh: Vec<u8>) -> (done: (Container, Vec<ObjectId>))
        requires
            self.wf(),
        ensures
            done.1@ == self.pages@,
            ({
                let doc = done.0;
                &&& doc.version == self.document.version
                &&& doc.max_id == self.document.max_id + RESERVED_IDS
                &&& doc.table() == self.document.table().insert(
                    ((self.document.max_id + 1) as u32, 0u16),
                    page_tree(self.pages@),
                ).insert(
                    ((self.document.max_id + 2) as u32, 0u16),
                    catalog(((self.document.max_id + 1) as u32, 0u16)),
                )
                &&& doc.trailer@ == finished_trailer(
                    self.document.trailer@,
                    ((self.document.max_id + 2) as u32, 0u16),
                    fresh@,
                )
                &&& finished(doc, self.pages@)
            }),
    {
        let Merger { document, pages, id_maps: _ } = self;
        let mut doc = document;
        let ghost before = doc;
        let tree_id = doc.new_object_id();
        doc.objects.insert(tree_id, page_tree_object(&pages));
        let catalog_id = doc.new_object_id();
        doc.objects.insert(catalog_id, catalog_object(tree_id));
        doc.trailer.set(root_key_bytes(), ObjectValue::Reference(catalog_id));
        if !doc.trailer.has(id_key_bytes().as_slice()) {
            let first = ObjectValue::String(bytes_copy(fresh.as_slice()), StringFormat::Hexadecimal);
            let second = ObjectValue::String(fresh, StringFormat::Hexadecimal);
            let mut pair: Vec<ObjectValue> = Vec::new();
            pair.push(first);
            pair.push(second);
            let value = ObjectValue::Array(pair);
            assert(values_of(pair@) =~= document_id(fresh@)->Array_0);
            assert(value@ == document_id(fresh@));
            doc.trailer.set(id_key_bytes(), value);
        }
        proof {
            let t0 = before.table();
            let t1 = t0.insert(tree_id, page_tree(pages@)).insert(catalog_id, catalog(tree_id));
            assert(doc.table() =~= t1);
            let rooted = with_entry(before.trailer@, root_key(), Value::Reference(catalog_id));
            lemma_lookup_stored(before.trailer@, root_key(), Value::Reference(catalog_id));
            assert(root_key()[0] != id_key()[0]);
            if !has_key(rooted, id_key()) {
                lemma_lookup_stored(rooted, id_key(), document_id(fresh@));
                lemma_lookup_other(rooted, id_key(), document_id(fresh@), root_key());
            }
            assert forall|i: int| 0 <= i < pages.len() implies doc.table().contains_key(
                #[trigger] pages[i],
            ) by {
                assert(before.objects@.contains_key(pages[i]));
            }
            let dom = doc.table().dom();
            assert forall|id: ObjectId| #[trigger] doc.table().contains_key(id) implies refs_within(
                doc.table()[id],
                dom,
            ) by {
                if id == tree_id {
                    let kid_refs = page_refs(pages@);
                    assert forall|k: int| 0 <= k < kid_refs.len() implies refs_within(
                        #[trigger] kid_refs[k],
                        dom,
                    ) by {
                        assert(before.objects@.contains_key(pages[k]));
                    }
                    assert(items_refs_within(kid_refs, dom));
                    let e0 = Seq::<(Seq<u8>, Value)>::empty();
                    assert(entries_refs_within(e0, dom));
                    let e1 = with_entry(e0, type_key(), Value::Name(pages_key()));
                    lemma_with_entry_refs_within(e0, type_key(), Value::Name(pages_key()), dom);
                    let e2 = with_entry(e1, kids_key(), Value::Array(kid_refs));
                    lemma_with_entry_refs_within(e1, kids_key(), Value::Array(kid_refs), dom);
                    lemma_with_entry_refs_within(
                        e2,
                        count_key(),
                        Value::Integer(length_value(pages@.len())),
                        dom,
                    );
                } else if id == catalog_id {
                    let e0 = Seq::<(Seq<u8>, Value)>::empty();
                    assert(entries_refs_within(e0, dom));
                    let e1 = with_entry(e0, type_key(), Value::Name(catalog_tag()));
                    lemma_with_entry_refs_within(e0, type_key(), Value::Name(catalog_tag()), dom);
                    lemma_with_entry_refs_within(e1, pages_key(), Value::Reference(tree_id), dom);
                } else {
                    assert(t0.contains_key(id));
                    lemma_refs_within_grow(t0[id], t0.dom(), dom);
                }
            }
        }
        (doc, pages)
    }
}

} // verus!
