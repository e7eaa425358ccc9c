use crate::container::{lemma_table_dom, Container, Table};
use crate::graph::{
    closed, entries_refs_within, fetched, grows, has_ref, images, items_refs_within,
    lemma_reaches_self, lemma_reaches_step, lemma_refs_within_grow, lemma_renamed_refs,
    lemma_renamed_stable, reached_from, reaches, refs_within, renamed, renamed_entries,
    renamed_items, settled, IdMap,
};
use crate::object::{
    bytes_copy, has_key, keys_unique, lemma_position_found, position, values_of, Dict, ObjectId,
    ObjectValue, Stream, Value,
};
use std::collections::BTreeMap;
use vstd::prelude::*;

verus! {

/// The identifiers of the source that have no image yet.
pub open spec fn unmapped(source: Set<ObjectId>, m: IdMap) -> Set<ObjectId> {
    source.difference(m.dom())
}

/// No two source identifiers share an image.
pub open spec fn injective(m: IdMap) -> bool {
    forall|a: ObjectId, b: ObjectId|
        m.contains_key(a) && m.contains_key(b) && a != b ==> #[trigger] m[a] != #[trigger] m[b]
}

/// What holds of a destination and a map at every moment of a merge, also in
/// the middle of a clone: identifiers in use are not above `max_id`, the map
/// is injective, and every reference in the destination points to an object
/// of the destination or to an image of the map.
pub open spec fn in_progress(dest: Container, m: IdMap) -> bool {
    &&& dest.ids_bounded()
    &&& forall|s: ObjectId| #[trigger] m.contains_key(s) ==> m[s].0 <= dest.max_id
    &&& injective(m)
    &&& forall|id: ObjectId| #[trigger]
        dest.table().contains_key(id) ==> refs_within(
            dest.table()[id],
            dest.table().dom().union(images(m)),
        )
}

/// What holds of a destination and a map between two clones: the state is
/// as during a clone, and every image of the map is stored.
pub open spec fn merge_state(dest: Container, m: IdMap) -> bool {
    &&& in_progress(dest, m)
    &&& forall|s: ObjectId| #[trigger] m.contains_key(s) ==> dest.objects@.contains_key(m[s])
}

/// The destination has identifiers left for every object of the source that
/// may still be cloned.
pub open spec fn has_room(source: Set<ObjectId>, dest: Container, m: IdMap) -> bool {
    dest.max_id + unmapped(source, m).len() <= u32::MAX
}

/// The table after holds every object of the table before, unchanged.
pub open spec fn kept(before: Map<ObjectId, ObjectValue>, after: Map<ObjectId, ObjectValue>) -> bool {
    forall|id: ObjectId| #[trigger]
        before.contains_key(id) ==> after.contains_key(id) && after[id] == before[id]
}

/// How one clone, whole or part, changes destination and map: the map grows
/// by identifiers of the source, the destination keeps what it had, every
/// identifier mapped by the clone has its object stored, every object stored
/// by the clone is the image of an identifier mapped by it, no image given
/// by the clone was stored before, and as many identifiers are used up as
/// were mapped.
pub open spec fn advanced(
    source: Set<ObjectId>,
    before: Container,
    m0: IdMap,
    after: Container,
    m1: IdMap,
) -> bool {
    &&& grows(m0, m1, source)
    &&& kept(before.objects@, after.objects@)
    &&& after.trailer == before.trailer
    &&& after.version == before.version
    &&& before.max_id <= after.max_id
    &&& after.max_id + unmapped(source, m1).len() == before.max_id + unmapped(source, m0).len()
    &&& forall|s: ObjectId| #[trigger]
        m1.contains_key(s) && !after.objects@.contains_key(m1[s]) ==> m0.contains_key(s)
            && !before.objects@.contains_key(m0[s])
    &&& forall|d: ObjectId| #[trigger]
        after.objects@.contains_key(d) && !before.objects@.contains_key(d) ==> exists|
            s: ObjectId,
        |
            m1.contains_key(s) && !m0.contains_key(s) && #[trigger] m1[s] == d
    &&& forall|s: ObjectId| #[trigger]
        m1.contains_key(s) && !m0.contains_key(s) ==> !before.objects@.contains_key(m1[s])
}

/// Every stored image is the copy of what the source holds under the mapped
/// identifier, and what that object refers to in the source is mapped too.
pub open spec fn faithful(source: Table, dest: Table, m: IdMap) -> bool {
    forall|s: ObjectId| #[trigger]
        m.contains_key(s) && dest.contains_key(m[s]) ==> dest[m[s]] == renamed(
            fetched(source, s),
            m,
        ) && refs_within(fetched(source, s), settled(source.dom(), m.dom()))
}

/// Whatever the clone mapped can be reached from `root` in the source.
pub open spec fn added_below_id(source: Table, root: ObjectId, m0: IdMap, m1: IdMap) -> bool {
    forall|s: ObjectId| #[trigger]
        m1.contains_key(s) && !m0.contains_key(s) ==> reaches(source, root, s)
}

/// Whatever the clone mapped can be reached from a reference that `v` holds.
pub open spec fn added_below(source: Table, v: Value, m0: IdMap, m1: IdMap) -> bool {
    forall|s: ObjectId| #[trigger]
        m1.contains_key(s) && !m0.contains_key(s) ==> reached_from(source, v, s)
}

/// What one clone of `root` from `source` makes of a destination and a map:
/// `root` is mapped, the state of the merge holds as before, the clone
/// changed it as `advanced` says, what it mapped can be reached from `root`,
/// a root that was mapped already leaves destination and map as they were,
/// and a faithful state is faithful afterwards.
pub open spec fn cloned(
    source: Table,
    root: ObjectId,
    before: Container,
    m0: IdMap,
    after: Container,
    m1: IdMap,
) -> bool {
    &&& m1.contains_key(root)
    &&& in_progress(after, m1)
    &&& advanced(source.dom(), before, m0, after, m1)
    &&& added_below_id(source, root, m0, m1)
    &&& m0.contains_key(root) ==> m1 == m0 && after == before
    &&& merge_state(before, m0) ==> merge_state(after, m1)
    &&& faithful(source, before.table(), m0) ==> faithful(source, after.table(), m1)
}

/// Two clones in a row are one clone.
pub proof fn lemma_advanced_twice(
    source: Set<ObjectId>,
    a: Container,
    ma: IdMap,
    b: Container,
    mb: IdMap,
    c: Container,
    mc: IdMap,
)
    requires
        advanced(source, a, ma, b, mb),
        advanced(source, b, mb, c, mc),
    ensures
        advanced(source, a, ma, c, mc),
{
    assert forall|s: ObjectId| #[trigger]
        mc.contains_key(s) && !ma.contains_key(s) implies !a.objects@.contains_key(mc[s]) by {
        if mb.contains_key(s) {
            assert(mc[s] == mb[s]);
        } else if a.objects@.contains_key(mc[s]) {
            assert(b.objects@.contains_key(mc[s]));
        }
    }
    assert forall|d: ObjectId| #[trigger]
        c.objects@.contains_key(d) && !a.objects@.contains_key(d) implies exists|s: ObjectId|
        mc.contains_key(s) && !ma.contains_key(s) && #[trigger] mc[s] == d by {
        if b.objects@.contains_key(d) {
            let s = choose|s: ObjectId|
                mb.contains_key(s) && !ma.contains_key(s) && #[trigger] mb[s] == d;
            assert(mc.contains_key(s) && mc[s] == d);
        } else {
            let s = choose|s: ObjectId|
                mc.contains_key(s) && !mb.contains_key(s) && #[trigger] mc[s] == d;
            assert(!ma.contains_key(s));
        }
    }
}

/// A clone that changes nothing.
pub proof fn lemma_advanced_none(source: Set<ObjectId>, a: Container, m: IdMap)
    ensures
        advanced(source, a, m, a, m),
{
}

/// Mapping one more identifier of the source leaves one fewer unmapped.
pub proof fn lemma_unmapped_insert(source: Set<ObjectId>, m: IdMap, id: ObjectId, to: ObjectId)
    requires
        source.finite(),
        source.contains(id),
        !m.contains_key(id),
    ensures
        unmapped(source, m).len() >= 1,
        unmapped(source, m.insert(id, to)).len() == unmapped(source, m).len() - 1,
{
    assert(unmapped(source, m).contains(id));
    assert(unmapped(source, m.insert(id, to)) =~= unmapped(source, m).remove(id));
}

/// Reserving an identifier for `id` keeps the state of the merge.
proof fn lemma_reserve(d0: Container, m0: IdMap, d1: Container, id: ObjectId)
    requires
        in_progress(d0, m0),
        !m0.contains_key(id),
        d0.max_id < u32::MAX,
        d1.max_id == d0.max_id + 1,
        d1.objects == d0.objects,
    ensures
        in_progress(d1, m0.insert(id, (d1.max_id, 0u16))),
        !d1.objects@.contains_key((d1.max_id, 0u16)),
{
    let m1 = m0.insert(id, (d1.max_id, 0u16));
    assert(d1.table() == d0.table());
    assert forall|x: ObjectId| #[trigger] d1.table().contains_key(x) implies refs_within(
        d1.table()[x],
        d1.table().dom().union(images(m1)),
    ) by {
        assert forall|r: ObjectId| images(m0).contains(r) implies images(m1).contains(r) by {
            let s = choose|s: ObjectId| m0.contains_key(s) && #[trigger] m0[s] == r;
            assert(m1.contains_key(s) && m1[s] == r);
        }
        lemma_refs_within_grow(
            d0.table()[x],
            d0.table().dom().union(images(m0)),
            d1.table().dom().union(images(m1)),
        );
    }
    if d1.objects@.contains_key((d1.max_id, 0u16)) {
        assert(d0.objects@.contains_key((d1.max_id, 0u16)));
    }
}

/// Storing the finished copy under its reserved identifier keeps the state
/// of the merge.
proof fn lemma_store(d2: Container, m: IdMap, d3: Container, new_id: ObjectId, copy: ObjectValue)
    requires
        in_progress(d2, m),
        new_id.0 <= d2.max_id,
        d3.max_id == d2.max_id,
        d3.objects@ == d2.objects@.insert(new_id, copy),
        refs_within(copy@, images(m)),
    ensures
        in_progress(d3, m),
{
    assert forall|x: ObjectId| #[trigger] d3.table().contains_key(x) implies refs_within(
        d3.table()[x],
        d3.table().dom().union(images(m)),
    ) by {
        if x == new_id {
            lemma_refs_within_grow(copy@, images(m), d3.table().dom().union(images(m)));
        } else {
            assert(d2.table().contains_key(x));
            lemma_refs_within_grow(
                d2.table()[x],
                d2.table().dom().union(images(m)),
                d3.table().dom().union(images(m)),
            );
        }
    }
}

/// A faithful state stays faithful while the map grows and the destination
/// keeps its objects, as far as the objects stored before are concerned.
proof fn lemma_faithful_kept(source: Table, t0: Table, m0: IdMap, m1: IdMap, s: ObjectId)
    requires
        faithful(source, t0, m0),
        grows(m0, m1, source.dom()),
        m0.contains_key(s),
        t0.contains_key(m0[s]),
    ensures
        t0[m0[s]] == renamed(fetched(source, s), m1),
        refs_within(fetched(source, s), settled(source.dom(), m1.dom())),
{
    lemma_renamed_stable(fetched(source, s), source.dom(), m0, m1);
}

/// Between two clones no object of the destination refers to an identifier
/// that the destination lacks.
pub proof fn lemma_merge_state_closed(dest: Container, m: IdMap)
    requires
        merge_state(dest, m),
    ensures
        closed(dest.table()),
{
    assert forall|id: ObjectId| #[trigger] dest.table().contains_key(id) implies refs_within(
        dest.table()[id],
        dest.table().dom(),
    ) by {
        assert forall|d: ObjectId| images(m).contains(d) implies dest.table().dom().contains(d) by {
            let s = choose|s: ObjectId| m.contains_key(s) && #[trigger] m[s] == d;
            assert(dest.objects@.contains_key(m[s]));
        }
        lemma_refs_within_grow(
            dest.table()[id],
            dest.table().dom().union(images(m)),
            dest.table().dom(),
        );
    }
}

/// A closed destination and an injective map whose images are stored make a
/// state between two clones.
pub proof fn lemma_merge_state_from_closed(dest: Container, m: IdMap)
    requires
        dest.ids_bounded(),
        closed(dest.table()),
        injective(m),
        forall|s: ObjectId| #[trigger] m.contains_key(s) ==> dest.objects@.contains_key(m[s]),
    ensures
        merge_state(dest, m),
{
    assert forall|id: ObjectId| #[trigger] dest.table().contains_key(id) implies refs_within(
        dest.table()[id],
        dest.table().dom().union(images(m)),
    ) by {
        lemma_refs_within_grow(
            dest.table()[id],
            dest.table().dom(),
            dest.table().dom().union(images(m)),
        );
    }
    assert forall|s: ObjectId| #[trigger] m.contains_key(s) implies m[s].0 <= dest.max_id by {
        assert(dest.objects@.contains_key(m[s]));
    }
}

/// Clones the object stored under `obj_id` in `doc`, and all that it refers
/// to, into `new_doc`, and returns the identifier of the copy. An identifier
/// that `id_map` already holds is not cloned again: its image is returned.
/// A new identifier is recorded in `id_map` before the clone descends, so
/// that a reference back to an object under way finds it there. What is
/// cloned is what a lookup of `obj_id` finds, so a chain of references that
/// starts at `obj_id` is followed to its end; where it leads nowhere or is
/// too long the copy is null.
pub fn clone_with_dependencies(
    doc: &Container,
    obj_id: ObjectId,
    new_doc: &mut Container,
    id_map: &mut BTreeMap<ObjectId, ObjectId>,
) -> (new_id: ObjectId)
    requires
        doc.objects@.contains_key(obj_id) || old(id_map)@.contains_key(obj_id),
        in_progress(*old(new_doc), old(id_map)@),
        has_room(doc.objects@.dom(), *old(new_doc), old(id_map)@),
    ensures
        new_id == final(id_map)@[obj_id],
        !old(id_map)@.contains_key(obj_id) ==> new_id == ((old(new_doc).max_id + 1) as u32, 0u16),
        cloned(doc.table(), obj_id, *old(new_doc), old(id_map)@, *final(new_doc), final(id_map)@),
    decreases unmapped(doc.objects@.dom(), old(id_map)@).len(), 0nat, doc,
{
    let ghost source = doc.objects@.dom();
    let ghost d0 = *new_doc;
    let ghost m0 = id_map@;
    proof {
        lemma_table_dom(*doc);
    }
    match id_map.get(&obj_id) {
        Some(mapped) => {
            return *mapped;
        },
        None => {},
    }
    proof {
        // The source holds `obj_id` unmapped, so there is room for its image.
        lemma_unmapped_insert(source, m0, obj_id, (0u32, 0u16));
    }
    let new_id = new_doc.new_object_id();
    id_map.insert(obj_id, new_id);
    let ghost d1 = *new_doc;
    let ghost m1 = id_map@;
    proof {
        lemma_unmapped_insert(source, m0, obj_id, new_id);
        lemma_reserve(d0, m0, d1, obj_id);
    }
    let cloned = match doc.get_object(obj_id) {
        Some(obj) => clone_object(obj, doc, new_doc, id_map),
        None => ObjectValue::Null,
    };
    let ghost d2 = *new_doc;
    let ghost m2 = id_map@;
    proof {
        assert(m1.contains_key(obj_id) && m1[obj_id] == new_id);
        assert(cloned@ == renamed(fetched(doc.table(), obj_id), m2));
        lemma_renamed_refs(fetched(doc.table(), obj_id), m2);
        assert(m2.contains_key(obj_id) && m2[obj_id] == new_id);
        // Nothing is stored under the reserved identifier yet: what the
        // descent stored are images of identifiers that it mapped itself.
        if d2.objects@.contains_key(new_id) {
            let s = choose|s: ObjectId|
                m2.contains_key(s) && !m1.contains_key(s) && #[trigger] m2[s] == new_id;
            assert(s != obj_id);
        }
    }
    new_doc.objects.insert(new_id, cloned);
    proof {
        let d3 = *new_doc;
        lemma_store(d2, m2, d3, new_id, cloned);
        assert(grows(m0, m1, source));
        assert(grows(m1, m2, source));
        assert(grows(m0, m2, source));
        assert(kept(d0.objects@, d3.objects@));
        // Every image that is not stored was not stored before.
        assert forall|s: ObjectId| #[trigger]
            m2.contains_key(s) && !d3.objects@.contains_key(m2[s]) implies m0.contains_key(s)
            && !d0.objects@.contains_key(m0[s]) by {
            assert(s != obj_id);
            assert(!d2.objects@.contains_key(m2[s]));
            assert(m1.contains_key(s) && !d1.objects@.contains_key(m1[s]));
        }
        // No image given by this clone was stored before.
        assert forall|s: ObjectId| #[trigger]
            m2.contains_key(s) && !m0.contains_key(s) implies !d0.objects@.contains_key(m2[s]) by {
            if s != obj_id {
                assert(!m1.contains_key(s));
                assert(!d1.objects@.contains_key(m2[s]));
            }
        }
        // Every object stored by this clone is the image of an identifier
        // that it mapped.
        assert forall|d: ObjectId| #[trigger]
            d3.objects@.contains_key(d) && !d0.objects@.contains_key(d) implies exists|
            s: ObjectId,
        |
            m2.contains_key(s) && !m0.contains_key(s) && #[trigger] m2[s] == d by {
            if d == new_id {
                assert(m2.contains_key(obj_id) && !m0.contains_key(obj_id) && m2[obj_id] == d);
            } else {
                let s = choose|s: ObjectId|
                    m2.contains_key(s) && !m1.contains_key(s) && #[trigger] m2[s] == d;
                assert(!m0.contains_key(s));
            }
        }
        // Every identifier mapped by this clone can be reached from `obj_id`.
        assert forall|s: ObjectId| #[trigger]
            m2.contains_key(s) && !m0.contains_key(s) implies reaches(doc.table(), obj_id, s) by {
            if s == obj_id {
                lemma_reaches_self(doc.table(), obj_id);
            } else {
                assert(!m1.contains_key(s));
                let r = choose|r: ObjectId|
                    has_ref(fetched(doc.table(), obj_id), r) && #[trigger] reaches(
                        doc.table(),
                        r,
                        s,
                    );
                lemma_reaches_step(doc.table(), obj_id, r, s);
            }
        }
        // A faithful state is faithful after the reservation, after the
        // descent, and after the copy is stored.
        if faithful(doc.table(), d0.table(), m0) {
            assert forall|s: ObjectId| #[trigger]
                m1.contains_key(s) && d1.table().contains_key(m1[s]) implies d1.table()[m1[s]]
                == renamed(fetched(doc.table(), s), m1) && refs_within(
                fetched(doc.table(), s),
                settled(doc.table().dom(), m1.dom()),
            ) by {
                assert(s != obj_id);
                lemma_faithful_kept(doc.table(), d0.table(), m0, m1, s);
            }
            assert(faithful(doc.table(), d1.table(), m1));
            assert(faithful(doc.table(), d2.table(), m2));
            assert forall|s: ObjectId| #[trigger]
                m2.contains_key(s) && d3.table().contains_key(m2[s]) implies d3.table()[m2[s]]
                == renamed(fetched(doc.table(), s), m2) && refs_within(
                fetched(doc.table(), s),
                settled(doc.table().dom(), m2.dom()),
            ) by {
                assert(doc.table().dom() =~= source);
                if s != obj_id {
                    assert(m2[s] != new_id);
                    assert(d2.table().contains_key(m2[s]));
                    assert(d3.table()[m2[s]] == d2.table()[m2[s]]);
                } else {
                    assert(d3.table()[new_id] == cloned@);
                }
            }
        }
    }
    new_id
}

/// Clones one value: a reference becomes a reference to the clone of what it
/// points to, or null where the source holds nothing under it; arrays,
/// dictionaries and streams are cloned part by part; every other value is
/// copied as it is.
pub fn clone_object(
    obj: &ObjectValue,
    doc: &Container,
    new_doc: &mut Container,
    id_map: &mut BTreeMap<ObjectId, ObjectId>,
) -> (copy: ObjectValue)
    requires
        in_progress(*old(new_doc), old(id_map)@),
        has_room(doc.objects@.dom(), *old(new_doc), old(id_map)@),
    ensures
        copy@ == renamed(obj@, final(id_map)@),
        refs_within(obj@, settled(doc.objects@.dom(), final(id_map)@.dom())),
        in_progress(*final(new_doc), final(id_map)@),
        advanced(
            doc.objects@.dom(),
            *old(new_doc),
            old(id_map)@,
            *final(new_doc),
            final(id_map)@,
        ),
        faithful(doc.table(), old(new_doc).table(), old(id_map)@) ==> faithful(
            doc.table(),
            final(new_doc).table(),
            final(id_map)@,
        ),
        added_below(doc.table(), obj@, old(id_map)@, final(id_map)@),
        obj@ matches Value::Reference(id) && old(id_map)@.contains_key(id) ==> final(id_map)@ == old(
            id_map,
        )@ && *final(new_doc) == *old(new_doc),
    decreases unmapped(doc.objects@.dom(), old(id_map)@).len(), 1nat, obj,
{
    proof {
        lemma_advanced_none(doc.objects@.dom(), *new_doc, id_map@);
        lemma_table_dom(*doc);
    }
    match obj {
        ObjectValue::Null => ObjectValue::Null,
        ObjectValue::Boolean(b) => ObjectValue::Boolean(*b),
        ObjectValue::Integer(n) => ObjectValue::Integer(*n),
        ObjectValue::Real(text) => ObjectValue::Real(bytes_copy(text.as_slice())),
        ObjectValue::Name(name) => ObjectValue::Name(bytes_copy(name.as_slice())),
        ObjectValue::String(text, format) => ObjectValue::String(bytes_copy(text.as_slice()), *format),
        ObjectValue::Array(items) => ObjectValue::Array(clone_array(items, doc, new_doc, id_map)),
        ObjectValue::Dictionary(dict) => ObjectValue::Dictionary(clone_dictionary(dict, doc, new_doc, id_map)),
        ObjectValue::Stream(stream) => {
            let dict = clone_dictionary(&stream.dict, doc, new_doc, id_map);
            proof {
                assert forall|s: ObjectId| #[trigger]
                    id_map@.contains_key(s) && !old(id_map)@.contains_key(s) implies reached_from(
                    doc.table(),
                    obj@,
                    s,
                ) by {
                    let r = choose|r: ObjectId|
                        has_ref(Value::Dictionary(stream.dict@), r) && #[trigger] reaches(
                            doc.table(),
                            r,
                            s,
                        );
                    assert(has_ref(obj@, r));
                }
            }
            ObjectValue::Stream(
                Stream {
                    dict,
                    content: bytes_copy(stream.content.as_slice()),
                    allows_compression: stream.allows_compression,
                    start_position: stream.start_position,
                },
            )
        },
        ObjectValue::Reference(id) => {
            if doc.has_object(*id) || id_map.contains_key(id) {
                let image = clone_with_dependencies(doc, *id, new_doc, id_map);
                proof {
                    assert forall|s: ObjectId| #[trigger]
                        id_map@.contains_key(s) && !old(id_map)@.contains_key(s) implies reached_from(
                        doc.table(),
                        obj@,
                        s,
                    ) by {
                        assert(has_ref(obj@, *id) && reaches(doc.table(), *id, s));
                    }
                }
                ObjectValue::Reference(image)
            } else {
                ObjectValue::Null
            }
        },
    }
}

/// Clones the items of an array, in order.
fn clone_array(
    items: &Vec<ObjectValue>,
    doc: &Container,
    new_doc: &mut Container,
    id_map: &mut BTreeMap<ObjectId, ObjectId>,
) -> (copy: Vec<ObjectValue>)
    requires
        in_progress(*old(new_doc), old(id_map)@),
        has_room(doc.objects@.dom(), *old(new_doc), old(id_map)@),
    ensures
        values_of(copy@) == renamed_items(values_of(items@), final(id_map)@),
        items_refs_within(values_of(items@), settled(doc.objects@.dom(), final(id_map)@.dom())),
        in_progress(*final(new_doc), final(id_map)@),
        advanced(
            doc.objects@.dom(),
            *old(new_doc),
            old(id_map)@,
            *final(new_doc),
            final(id_map)@,
        ),
        faithful(doc.table(), old(new_doc).table(), old(id_map)@) ==> faithful(
            doc.table(),
            final(new_doc).table(),
            final(id_map)@,
        ),
        added_below(
            doc.table(),
            Value::Array(values_of(items@)),
            old(id_map)@,
            final(id_map)@,
        ),
    decreases unmapped(doc.objects@.dom(), old(id_map)@).len(), 1nat, items,
{
    let ghost source = doc.objects@.dom();
    let ghost d0 = *new_doc;
    let ghost m0 = id_map@;
    proof {
        lemma_advanced_none(source, d0, m0);
    }
    let mut copy: Vec<ObjectValue> = Vec::new();
    let mut i: usize = 0;
    while i < items.len()
        invariant
            i <= items.len(),
            copy.len() == i,
            source == doc.objects@.dom(),
            m0 == old(id_map)@,
            in_progress(*new_doc, id_map@),
            has_room(source, *new_doc, id_map@),
            advanced(source, d0, m0, *new_doc, id_map@),
            faithful(doc.table(), d0.table(), m0) ==> faithful(
                doc.table(),
                new_doc.table(),
                id_map@,
            ),
            forall|k: int|
                0 <= k < i ==> (#[trigger] copy[k])@ == renamed(items[k]@, id_map@) && refs_within(
                    items[k]@,
                    settled(source, id_map@.dom()),
                ),
            added_below(doc.table(), Value::Array(values_of(items@)), m0, id_map@),
        decreases items.len() - i,
    {
        let ghost d1 = *new_doc;
        let ghost m1 = id_map@;
        assert(unmapped(source, m1).len() <= unmapped(source, m0).len());
        assert(decreases_to!(items => items[i as int]));
        let item = clone_object(&items[i], doc, new_doc, id_map);
        proof {
            lemma_advanced_twice(source, d0, m0, d1, m1, *new_doc, id_map@);
            assert forall|s: ObjectId| #[trigger]
                id_map@.contains_key(s) && !m0.contains_key(s) implies reached_from(
                doc.table(),
                Value::Array(values_of(items@)),
                s,
            ) by {
                if !m1.contains_key(s) {
                    let r = choose|r: ObjectId|
                        has_ref(items[i as int]@, r) && #[trigger] reaches(doc.table(), r, s);
                    assert(values_of(items@)[i as int] == items[i as int]@);
                    assert(has_ref(Value::Array(values_of(items@)), r));
                }
            }
            assert forall|k: int| 0 <= k < i implies (#[trigger] copy[k])@ == renamed(
                items[k]@,
                id_map@,
            ) && refs_within(items[k]@, settled(source, id_map@.dom())) by {
                lemma_renamed_stable(items[k]@, source, m1, id_map@);
            }
        }
        copy.push(item);
        i += 1;
    }
    proof {
        let from = values_of(items@);
        let want = renamed_items(from, id_map@);
        let got = values_of(copy@);
        assert forall|k: int| 0 <= k < got.len() implies got[k] == want[k] by {
            assert(copy[k]@ == renamed(items[k]@, id_map@));
        }
        assert(got =~= want);
        assert forall|k: int| 0 <= k < from.len() implies refs_within(
            #[trigger] from[k],
            settled(source, id_map@.dom()),
        ) by {
            assert(copy[k]@ == renamed(items[k]@, id_map@));
        }
    }
    copy
}

/// Clones the entries of a dictionary, in order.
fn clone_dictionary(
    dict: &Dict,
    doc: &Container,
    new_doc: &mut Container,
    id_map: &mut BTreeMap<ObjectId, ObjectId>,
) -> (copy: Dict)
    requires
        in_progress(*old(new_doc), old(id_map)@),
        has_room(doc.objects@.dom(), *old(new_doc), old(id_map)@),
    ensures
        copy@ == renamed_entries(dict@, final(id_map)@),
        entries_refs_within(dict@, settled(doc.objects@.dom(), final(id_map)@.dom())),
        in_progress(*final(new_doc), final(id_map)@),
        advanced(
            doc.objects@.dom(),
            *old(new_doc),
            old(id_map)@,
            *final(new_doc),
            final(id_map)@,
        ),
        faithful(doc.table(), old(new_doc).table(), old(id_map)@) ==> faithful(
            doc.table(),
            final(new_doc).table(),
            final(id_map)@,
        ),
        added_below(doc.table(), Value::Dictionary(dict@), old(id_map)@, final(id_map)@),
    decreases unmapped(doc.objects@.dom(), old(id_map)@).len(), 1nat, dict,
{
    let ghost source = doc.objects@.dom();
    let ghost d0 = *new_doc;
    let ghost m0 = id_map@;
    proof {
        lemma_advanced_none(source, d0, m0);
    }
    let mut copy = Dict::new();
    let n: usize = dict.len();
    let mut i: usize = 0;
    while i < n
        invariant
            i <= n,
            n == dict@.len(),
            keys_unique(dict@),
            source == doc.objects@.dom(),
            m0 == old(id_map)@,
            in_progress(*new_doc, id_map@),
            has_room(source, *new_doc, id_map@),
            advanced(source, d0, m0, *new_doc, id_map@),
            faithful(doc.table(), d0.table(), m0) ==> faithful(
                doc.table(),
                new_doc.table(),
                id_map@,
            ),
            copy@.len() == i,
            forall|k: int|
                0 <= k < i ==> (#[trigger] copy@[k]) == (dict@[k].0, renamed(dict@[k].1, id_map@))
                    && refs_within(dict@[k].1, settled(source, id_map@.dom())),
            added_below(doc.table(), Value::Dictionary(dict@), m0, id_map@),
        decreases n - i,
    {
        let ghost d1 = *new_doc;
        let ghost m1 = id_map@;
        let ghost before = copy@;
        let key = bytes_copy(dict.key(i).as_slice());
        assert(unmapped(source, m1).len() <= unmapped(source, m0).len());
        let value = clone_object(dict.value(i), doc, new_doc, id_map);
        copy.set(key, value);
        proof {
            lemma_advanced_twice(source, d0, m0, d1, m1, *new_doc, id_map@);
            assert forall|s: ObjectId| #[trigger]
                id_map@.contains_key(s) && !m0.contains_key(s) implies reached_from(
                doc.table(),
                Value::Dictionary(dict@),
                s,
            ) by {
                if !m1.contains_key(s) {
                    let r = choose|r: ObjectId|
                        has_ref(dict@[i as int].1, r) && #[trigger] reaches(doc.table(), r, s);
                    assert(has_ref(Value::Dictionary(dict@), r));
                }
            }
            assert(!has_key(before, key@)) by {
                if has_key(before, key@) {
                    lemma_position_found(before, key@);
                    let p = position(before, key@);
                    assert(before[p].0 == dict@[p].0);
                    assert(dict@[p].0 != dict@[i as int].0);
                }
            }
            assert(copy@ == before.push((key@, value@)));
            assert forall|k: int| 0 <= k < i + 1 implies (#[trigger] copy@[k]) == (
                dict@[k].0,
                renamed(dict@[k].1, id_map@),
            ) && refs_within(dict@[k].1, settled(source, id_map@.dom())) by {
                if k < i {
                    assert(copy@[k] == before[k]);
                    lemma_renamed_stable(dict@[k].1, source, m1, id_map@);
                } else {
                    assert(copy@[k] == (key@, value@));
                    assert(key@ == dict@[k].0);
                    assert(value@ == renamed(dict@[k].1, id_map@));
                }
            }
        }
        i += 1;
    }
    proof {
        assert(copy@ =~= renamed_entries(dict@, id_map@));
        assert forall|k: int| 0 <= k < dict@.len() implies refs_within(
            #[trigger] dict@[k].1,
            settled(source, id_map@.dom()),
        ) by {
            assert(copy@[k] == (dict@[k].0, renamed(dict@[k].1, id_map@)));
        }
    }
    copy
}

} // verus!
