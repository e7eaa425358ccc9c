use crate::container::{found, Table};
use crate::object::{has_key, lemma_position_found, with_entry, Entries, ObjectId, Value};
use vstd::prelude::*;

verus! {

/// A map from identifiers of a source container to identifiers of a
/// destination container.
pub type IdMap = Map<ObjectId, ObjectId>;

/// Every reference inside every value of `e` points into `allowed`.
pub open spec fn entries_refs_within(e: Entries, allowed: Set<ObjectId>) -> bool
    decreases e,
{
    forall|i: int| 0 <= i < e.len() ==> refs_within(#[trigger] e[i].1, allowed)
}

/// Every reference inside every item points into `allowed`.
pub open spec fn items_refs_within(items: Seq<Value>, allowed: Set<ObjectId>) -> bool
    decreases items,
{
    forall|i: int| 0 <= i < items.len() ==> refs_within(#[trigger] items[i], allowed)
}

/// Every reference inside `v` points into `allowed`.
pub open spec fn refs_within(v: Value, allowed: Set<ObjectId>) -> bool
    decreases v,
{
    match v {
        Value::Reference(r) => allowed.contains(r),
        Value::Array(items) => items_refs_within(items, allowed),
        Value::Dictionary(e) => entries_refs_within(e, allowed),
        Value::Stream { dict, .. } => entries_refs_within(dict, allowed),
        _ => true,
    }
}

/// The entries with every value rewritten by `renamed`.
pub open spec fn renamed_entries(e: Entries, m: IdMap) -> Entries
    decreases e,
{
    Seq::new(
        e.len(),
        |i: int|
            if 0 <= i < e.len() {
                (e[i].0, renamed(e[i].1, m))
            } else {
                (Seq::empty(), Value::Null)
            },
    )
}

/// The items, each rewritten by `renamed`.
pub open spec fn renamed_items(items: Seq<Value>, m: IdMap) -> Seq<Value>
    decreases items,
{
    Seq::new(
        items.len(),
        |i: int|
            if 0 <= i < items.len() {
                renamed(items[i], m)
            } else {
                Value::Null
            },
    )
}

/// The copy of `v` for the destination: the same value, with each reference
/// to a mapped identifier replaced by a reference to its image and each
/// reference to an unmapped one by null. All else stays: variants, numbers,
/// names, strings, the keys of dictionaries and their order, the order of
/// arrays, and the payload and settings of streams.
pub open spec fn renamed(v: Value, m: IdMap) -> Value
    decreases v,
{
    match v {
        Value::Reference(r) => if m.contains_key(r) {
            Value::Reference(m[r])
        } else {
            Value::Null
        },
        Value::Array(items) => Value::Array(renamed_items(items, m)),
        Value::Dictionary(e) => Value::Dictionary(renamed_entries(e, m)),
        Value::Stream { dict, content, allows_compression, start_position } => Value::Stream {
            dict: renamed_entries(dict, m),
            content,
            allows_compression,
            start_position,
        },
        _ => v,
    }
}

/// The identifiers that `m` maps to.
pub open spec fn images(m: IdMap) -> Set<ObjectId> {
    Set::new(|d: ObjectId| exists|s: ObjectId| m.contains_key(s) && #[trigger] m[s] == d)
}

/// The identifiers that are mapped, together with those that the source does
/// not hold at all.
pub open spec fn settled(source: Set<ObjectId>, mapped: Set<ObjectId>) -> Set<ObjectId> {
    Set::new(|r: ObjectId| mapped.contains(r) || !source.contains(r))
}

/// The content that cloning takes for `id`: what a lookup finds, or null
/// where it finds nothing.
pub open spec fn fetched(source: Table, id: ObjectId) -> Value {
    match found(source, id) {
        Some(v) => v,
        None => Value::Null,
    }
}

/// Some value of `e` holds a reference to `r`.
pub open spec fn entries_have_ref(e: Entries, r: ObjectId) -> bool
    decreases e,
{
    exists|i: int| 0 <= i < e.len() && has_ref(#[trigger] e[i].1, r)
}

/// Some item holds a reference to `r`.
pub open spec fn items_have_ref(items: Seq<Value>, r: ObjectId) -> bool
    decreases items,
{
    exists|i: int| 0 <= i < items.len() && has_ref(#[trigger] items[i], r)
}

/// `v` holds a reference to `r`, at any depth.
pub open spec fn has_ref(v: Value, r: ObjectId) -> bool
    decreases v,
{
    match v {
        Value::Reference(x) => x == r,
        Value::Array(items) => items_have_ref(items, r),
        Value::Dictionary(e) => entries_have_ref(e, r),
        Value::Stream { dict, .. } => entries_have_ref(dict, r),
        _ => false,
    }
}

/// Each identifier of the path is referred to by the object that cloning
/// takes for the identifier before it.
pub open spec fn is_path(source: Table, path: Seq<ObjectId>) -> bool {
    &&& path.len() >= 1
    &&& forall|i: int|
        0 <= i < path.len() - 1 ==> has_ref(fetched(source, #[trigger] path[i]), path[i + 1])
}

/// `to` can be reached from `from` by following references through the source.
pub open spec fn reaches(source: Table, from: ObjectId, to: ObjectId) -> bool {
    exists|path: Seq<ObjectId>| #[trigger]
        is_path(source, path) && path[0] == from && path.last() == to
}

/// `to` can be reached from one of the references that `v` holds.
pub open spec fn reached_from(source: Table, v: Value, to: ObjectId) -> bool {
    exists|r: ObjectId| has_ref(v, r) && #[trigger] reaches(source, r, to)
}

/// Every identifier reaches itself.
pub proof fn lemma_reaches_self(source: Table, id: ObjectId)
    ensures
        reaches(source, id, id),
{
    let path = seq![id];
    assert(is_path(source, path) && path[0] == id && path.last() == id);
}

/// One reference, then a path, is a path.
pub proof fn lemma_reaches_step(source: Table, a: ObjectId, r: ObjectId, to: ObjectId)
    requires
        has_ref(fetched(source, a), r),
        reaches(source, r, to),
    ensures
        reaches(source, a, to),
{
    let tail = choose|path: Seq<ObjectId>| #[trigger]
        is_path(source, path) && path[0] == r && path.last() == to;
    let path = seq![a] + tail;
    assert forall|i: int| 0 <= i < path.len() - 1 implies has_ref(
        fetched(source, #[trigger] path[i]),
        path[i + 1],
    ) by {
        if i > 0 {
            assert(path[i] == tail[i - 1]);
            assert(path[i + 1] == tail[i]);
        } else {
            assert(path[1] == tail[0]);
        }
    }
    assert(is_path(source, path) && path[0] == a && path.last() == to);
}

/// No object of the table refers to an identifier that the table lacks.
pub open spec fn closed(table: Table) -> bool {
    forall|id: ObjectId| #[trigger]
        table.contains_key(id) ==> refs_within(table[id], table.dom())
}

/// References of entries that point into a set point into every larger set.
pub proof fn lemma_entries_refs_within_grow(e: Entries, a: Set<ObjectId>, b: Set<ObjectId>)
    requires
        entries_refs_within(e, a),
        a.subset_of(b),
    ensures
        entries_refs_within(e, b),
    decreases e,
{
    assert forall|i: int| 0 <= i < e.len() implies refs_within(#[trigger] e[i].1, b) by {
        lemma_refs_within_grow(e[i].1, a, b);
    }
}

/// References that point into a set point into every larger set.
pub proof fn lemma_refs_within_grow(v: Value, a: Set<ObjectId>, b: Set<ObjectId>)
    requires
        refs_within(v, a),
        a.subset_of(b),
    ensures
        refs_within(v, b),
    decreases v,
{
    match v {
        Value::Array(items) => {
            assert forall|i: int| 0 <= i < items.len() implies refs_within(
                #[trigger] items[i],
                b,
            ) by {
                lemma_refs_within_grow(items[i], a, b);
            }
            assert(items_refs_within(items, b));
        },
        Value::Dictionary(e) => {
            lemma_entries_refs_within_grow(e, a, b);
        },
        Value::Stream { dict, .. } => {
            lemma_entries_refs_within_grow(dict, a, b);
        },
        _ => {},
    }
}

/// Storing a value without references keeps the entries' references where
/// they were.
pub proof fn lemma_with_entry_refs_within(
    e: Entries,
    key: Seq<u8>,
    value: Value,
    allowed: Set<ObjectId>,
)
    requires
        entries_refs_within(e, allowed),
        refs_within(value, allowed),
    ensures
        entries_refs_within(with_entry(e, key, value), allowed),
{
    let out = with_entry(e, key, value);
    if has_key(e, key) {
        lemma_position_found(e, key);
    }
    assert forall|i: int| 0 <= i < out.len() implies refs_within(#[trigger] out[i].1, allowed) by {
        if i < e.len() {
            assert(refs_within(e[i].1, allowed));
        }
    }
}

/// Every reference in rewritten entries points to an image of the map.
pub proof fn lemma_renamed_entries_refs(e: Entries, m: IdMap)
    ensures
        entries_refs_within(renamed_entries(e, m), images(m)),
    decreases e,
{
    let out = renamed_entries(e, m);
    assert forall|i: int| 0 <= i < out.len() implies refs_within(#[trigger] out[i].1, images(m)) by {
        lemma_renamed_refs(e[i].1, m);
    }
}

/// Every reference in a copy points to an image of the map.
pub proof fn lemma_renamed_refs(v: Value, m: IdMap)
    ensures
        refs_within(renamed(v, m), images(m)),
    decreases v,
{
    match v {
        Value::Reference(r) => {
            if m.contains_key(r) {
                assert(images(m).contains(m[r]));
            }
        },
        Value::Array(items) => {
            let out = renamed_items(items, m);
            assert forall|i: int| 0 <= i < out.len() implies refs_within(
                #[trigger] out[i],
                images(m),
            ) by {
                lemma_renamed_refs(items[i], m);
            }
            assert(items_refs_within(out, images(m)));
        },
        Value::Dictionary(e) => {
            lemma_renamed_entries_refs(e, m);
        },
        Value::Stream { dict, .. } => {
            lemma_renamed_entries_refs(dict, m);
        },
        _ => {},
    }
}

/// How a map may grow while one source is cloned: what was mapped stays
/// mapped to the same identifier, and what is added belongs to the source.
pub open spec fn grows(before: IdMap, after: IdMap, source: Set<ObjectId>) -> bool {
    &&& forall|s: ObjectId| #[trigger]
        before.contains_key(s) ==> after.contains_key(s) && after[s] == before[s]
    &&& forall|s: ObjectId| #[trigger]
        after.contains_key(s) && !before.contains_key(s) ==> source.contains(s)
}

/// Once every reference of the entries is settled, their rewriting no
/// longer depends on how the map grows.
pub proof fn lemma_renamed_entries_stable(
    e: Entries,
    source: Set<ObjectId>,
    before: IdMap,
    after: IdMap,
)
    requires
        entries_refs_within(e, settled(source, before.dom())),
        grows(before, after, source),
    ensures
        renamed_entries(e, before) == renamed_entries(e, after),
        entries_refs_within(e, settled(source, after.dom())),
    decreases e,
{
    assert forall|i: int| 0 <= i < e.len() implies renamed(e[i].1, before) == renamed(
        e[i].1,
        after,
    ) && refs_within(#[trigger] e[i].1, settled(source, after.dom())) by {
        lemma_renamed_stable(e[i].1, source, before, after);
    }
    assert(renamed_entries(e, before) =~= renamed_entries(e, after));
}

/// Once every reference of a value is settled, its copy no longer depends on
/// how the map grows.
pub proof fn lemma_renamed_stable(v: Value, source: Set<ObjectId>, before: IdMap, after: IdMap)
    requires
        refs_within(v, settled(source, before.dom())),
        grows(before, after, source),
    ensures
        renamed(v, before) == renamed(v, after),
        refs_within(v, settled(source, after.dom())),
    decreases v,
{
    match v {
        Value::Reference(r) => {
            if before.contains_key(r) {
            } else {
                assert(!source.contains(r));
                if after.contains_key(r) {
                    assert(source.contains(r));
                }
            }
        },
        Value::Array(items) => {
            assert forall|i: int| 0 <= i < items.len() implies renamed(items[i], before)
                == renamed(items[i], after) && refs_within(
                #[trigger] items[i],
                settled(source, after.dom()),
            ) by {
                lemma_renamed_stable(items[i], source, before, after);
            }
            assert(renamed_items(items, before) =~= renamed_items(items, after));
            assert(items_refs_within(items, settled(source, after.dom())));
        },
        Value::Dictionary(e) => {
            lemma_renamed_entries_stable(e, source, before, after);
        },
        Value::Stream { dict, .. } => {
            lemma_renamed_entries_stable(dict, source, before, after);
        },
        _ => {},
    }
}

/// A reference that a value holds points into every set that all its
/// references point into.
pub proof fn lemma_has_ref_within(v: Value, r: ObjectId, allowed: Set<ObjectId>)
    requires
        refs_within(v, allowed),
        has_ref(v, r),
    ensures
        allowed.contains(r),
    decreases v,
{
    match v {
        Value::Array(items) => {
            let i = choose|i: int| 0 <= i < items.len() && has_ref(#[trigger] items[i], r);
            lemma_has_ref_within(items[i], r, allowed);
        },
        Value::Dictionary(e) => {
            let i = choose|i: int| 0 <= i < e.len() && has_ref(#[trigger] e[i].1, r);
            lemma_has_ref_within(e[i].1, r, allowed);
        },
        Value::Stream { dict, .. } => {
            let i = choose|i: int| 0 <= i < dict.len() && has_ref(#[trigger] dict[i].1, r);
            lemma_has_ref_within(dict[i].1, r, allowed);
        },
        _ => {},
    }
}

/// The copy of a value holds the image of every mapped reference that the
/// value holds.
pub proof fn lemma_ref_renamed(v: Value, r: ObjectId, m: IdMap)
    requires
        has_ref(v, r),
        m.contains_key(r),
    ensures
        has_ref(renamed(v, m), m[r]),
    decreases v,
{
    match v {
        Value::Array(items) => {
            let i = choose|i: int| 0 <= i < items.len() && has_ref(#[trigger] items[i], r);
            lemma_ref_renamed(items[i], r, m);
            let out = renamed_items(items, m);
            assert(has_ref(out[i], m[r]));
        },
        Value::Dictionary(e) => {
            let i = choose|i: int| 0 <= i < e.len() && has_ref(#[trigger] e[i].1, r);
            lemma_ref_renamed(e[i].1, r, m);
            let out = renamed_entries(e, m);
            assert(has_ref(out[i].1, m[r]));
        },
        Value::Stream { dict, .. } => {
            let i = choose|i: int| 0 <= i < dict.len() && has_ref(#[trigger] dict[i].1, r);
            lemma_ref_renamed(dict[i].1, r, m);
            let out = renamed_entries(dict, m);
            assert(has_ref(out[i].1, m[r]));
        },
        _ => {},
    }
}

/// How a second map and a relabelling fit a first map: the relabelling
/// takes each image of the first map to the image that the second map has
/// for the same identifier, and both maps hold the same identifiers.
pub open spec fn relabels(first: IdMap, relabelling: IdMap, second: IdMap) -> bool {
    &&& forall|s: ObjectId| #[trigger]
        first.contains_key(s) ==> second.contains_key(s) && relabelling.contains_key(first[s])
            && relabelling[first[s]] == second[s]
    &&& forall|s: ObjectId| #[trigger] second.contains_key(s) ==> first.contains_key(s)
}

/// Rewriting rewritten entries, under a relabelling of the first map's
/// images, is rewriting under the second map.
pub proof fn lemma_renamed_entries_twice(
    e: Entries,
    first: IdMap,
    relabelling: IdMap,
    second: IdMap,
)
    requires
        relabels(first, relabelling, second),
    ensures
        renamed_entries(renamed_entries(e, first), relabelling) == renamed_entries(e, second),
    decreases e,
{
    assert forall|i: int| 0 <= i < e.len() implies renamed(
        renamed(#[trigger] e[i].1, first),
        relabelling,
    ) == renamed(e[i].1, second) by {
        lemma_renamed_twice(e[i].1, first, relabelling, second);
    }
    assert(renamed_entries(renamed_entries(e, first), relabelling) =~= renamed_entries(e, second));
}

/// The copy of a copy, under a relabelling of the first map's images, is
/// the copy under the second map.
pub proof fn lemma_renamed_twice(v: Value, first: IdMap, relabelling: IdMap, second: IdMap)
    requires
        relabels(first, relabelling, second),
    ensures
        renamed(renamed(v, first), relabelling) == renamed(v, second),
    decreases v,
{
    match v {
        Value::Reference(r) => {},
        Value::Array(items) => {
            assert forall|i: int| 0 <= i < items.len() implies renamed(
                renamed(#[trigger] items[i], first),
                relabelling,
            ) == renamed(items[i], second) by {
                lemma_renamed_twice(items[i], first, relabelling, second);
            }
            assert(renamed_items(renamed_items(items, first), relabelling) =~= renamed_items(
                items,
                second,
            ));
        },
        Value::Dictionary(e) => {
            lemma_renamed_entries_twice(e, first, relabelling, second);
        },
        Value::Stream { dict, .. } => {
            lemma_renamed_entries_twice(dict, first, relabelling, second);
        },
        _ => {},
    }
}

} // verus!
