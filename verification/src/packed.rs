use crate::codec::{members_of, unpack_stream, unpacked};
use crate::container::{holds_object_stream, is_object_stream, Container, Content, Table};
use crate::names::{
    ascii85_tag, ascii85_tag_bytes, bits_key, bits_key_bytes, colors_key, colors_key_bytes,
    columns_key, columns_key_bytes, decode_parms_key, decode_parms_key_bytes, filter_key,
    filter_key_bytes, object_stream_tag, object_stream_tag_bytes, predictor_key,
    predictor_key_bytes, type_key, type_key_bytes,
};
use crate::object::{
    bytes_eq, lemma_lookup_stored, lookup, values_of, with_entry, Dict, Entries, ObjectId,
    ObjectValue, Value,
};
use vstd::prelude::*;

verus! {

/// Whether `a` is `b` or comes before it in the order of identifiers: by
/// object number, then by generation.
pub open spec fn precedes(a: ObjectId, b: ObjectId) -> bool {
    a.0 < b.0 || (a.0 == b.0 && a.1 <= b.1)
}

/// Whether `a` is `b` or comes before it in the order of identifiers.
pub fn comes_before(a: ObjectId, b: ObjectId) -> (r: bool)
    ensures
        r == precedes(a, b),
{
    a.0 < b.0 || (a.0 == b.0 && a.1 <= b.1)
}

/// Whether `m` is the first of `ids` in the order of identifiers.
pub open spec fn is_least(ids: Set<ObjectId>, m: ObjectId) -> bool {
    ids.contains(m) && forall|o: ObjectId| ids.contains(o) ==> precedes(m, o)
}

/// The first of `ids` in the order of identifiers.
pub open spec fn least(ids: Set<ObjectId>) -> ObjectId {
    choose|m: ObjectId| is_least(ids, m)
}

/// No set has two first identifiers.
pub proof fn lemma_least_is_unique(ids: Set<ObjectId>, m: ObjectId)
    requires
        is_least(ids, m),
    ensures
        least(ids) == m,
{
    let c = least(ids);
    assert(is_least(ids, c));
    assert(precedes(m, c) && precedes(c, m));
}

/// Every finite set of identifiers that is not empty has a first one.
pub proof fn lemma_least_exists(ids: Set<ObjectId>)
    requires
        ids.finite(),
        ids.len() > 0,
    ensures
        is_least(ids, least(ids)),
    decreases ids.len(),
{
    let x = ids.choose();
    let rest = ids.remove(x);
    if rest.len() == 0 {
        assert forall|o: ObjectId| ids.contains(o) implies precedes(x, o) by {
            if o != x {
                assert(rest.contains(o));
            }
        }
        assert(is_least(ids, x));
    } else {
        lemma_least_exists(rest);
        let m = least(rest);
        let first = if precedes(x, m) {
            x
        } else {
            m
        };
        assert forall|o: ObjectId| ids.contains(o) implies precedes(first, o) by {
            if o != x {
                assert(rest.contains(o));
                assert(precedes(m, o));
            }
        }
        assert(is_least(ids, first));
    }
}

/// Without the identifier at `j`, a list without repetitions lists what it
/// listed before but for that identifier.
proof fn lemma_without_index(s: Seq<ObjectId>, j: int)
    requires
        s.no_duplicates(),
        0 <= j < s.len(),
    ensures
        s.remove(j).no_duplicates(),
        s.remove(j).to_set() == s.to_set().remove(s[j]),
{
    let r = s.remove(j);
    s.remove_ensures(j);
    assert forall|a: int, b: int| 0 <= a < b < r.len() implies r[a] != r[b] by {
        let a0 = if a < j { a } else { a + 1 };
        let b0 = if b < j { b } else { b + 1 };
        assert(r[a] == s[a0] && r[b] == s[b0]);
    }
    assert forall|x: ObjectId| r.to_set().contains(x) <==> s.to_set().remove(s[j]).contains(
        x,
    ) by {
        if r.to_set().contains(x) {
            let i = choose|i: int| 0 <= i < r.len() && r[i] == x;
            let i0 = if i < j { i } else { i + 1 };
            assert(s[i0] == x);
        }
        if s.to_set().remove(s[j]).contains(x) {
            let i = choose|i: int| 0 <= i < s.len() && s[i] == x;
            let i1 = if i < j { i } else { i - 1 };
            assert(r[i1] == x);
        }
    }
    assert(r.to_set() =~= s.to_set().remove(s[j]));
}

/// Takes the first identifier, in the order of identifiers, out of a list
/// that lists none twice.
pub fn take_least(ids: &mut Vec<ObjectId>) -> (m: ObjectId)
    requires
        old(ids)@.len() > 0,
        old(ids)@.no_duplicates(),
    ensures
        is_least(old(ids)@.to_set(), m),
        final(ids)@ == old(ids)@.remove(old(ids)@.index_of(m)),
        final(ids)@.no_duplicates(),
        final(ids)@.to_set() == old(ids)@.to_set().remove(m),
{
    let mut best: usize = 0;
    let mut i: usize = 1;
    while i < ids.len()
        invariant
            1 <= i <= ids.len(),
            best < i,
            forall|k: int| 0 <= k < i ==> precedes(ids@[best as int], #[trigger] ids@[k]),
        decreases ids.len() - i,
    {
        if !comes_before(ids[best], ids[i]) {
            proof {
                let b = ids@[best as int];
                let c = ids@[i as int];
                assert forall|k: int| 0 <= k < i + 1 implies precedes(c, #[trigger] ids@[k]) by {
                    if k < i {
                        assert(precedes(b, ids@[k]));
                    }
                }
            }
            best = i;
        }
        i += 1;
    }
    proof {
        lemma_without_index(ids@, best as int);
        assert forall|o: ObjectId| ids@.to_set().contains(o) implies precedes(
            ids@[best as int],
            o,
        ) by {
            let k = choose|k: int| 0 <= k < ids@.len() && ids@[k] == o;
            assert(precedes(ids@[best as int], ids@[k]));
        }
        assert(ids@.to_set().contains(ids@[best as int]));
        let at = ids@.index_of(ids@[best as int]);
        assert(0 <= at < ids@.len() && ids@[at] == ids@[best as int]);
        assert(at == best);
    }
    ids.remove(best)
}

/// The table after the objects found in a stream have been added, in their
/// order: an object is added only where the table holds nothing under its
/// identifier, and nothing is added under `skip`.
pub open spec fn inserted(table: Table, found: Seq<(ObjectId, Value)>, skip: Option<ObjectId>) -> Table
    decreases found.len(),
{
    if found.len() == 0 {
        table
    } else {
        let id = found[0].0;
        let next = if table.contains_key(id) || skip == Some(id) {
            table
        } else {
            table.insert(id, found[0].1)
        };
        inserted(next, found.drop_first(), skip)
    }
}

/// Adding the objects found in a stream replaces nothing that the table
/// holds, and puts nothing under `skip`.
pub proof fn lemma_inserted_keeps_stored(
    table: Table,
    found: Seq<(ObjectId, Value)>,
    skip: Option<ObjectId>,
)
    ensures
        forall|id: ObjectId| #[trigger]
            table.contains_key(id) ==> inserted(table, found, skip).contains_key(id) && inserted(
                table,
                found,
                skip,
            )[id] == table[id],
        skip matches Some(s) ==> (inserted(table, found, skip).contains_key(s)
            <==> table.contains_key(s)),
    decreases found.len(),
{
    if found.len() > 0 {
        let id = found[0].0;
        let next = if table.contains_key(id) || skip == Some(id) {
            table
        } else {
            table.insert(id, found[0].1)
        };
        lemma_inserted_keeps_stored(next, found.drop_first(), skip);
        assert forall|other: ObjectId| #[trigger] table.contains_key(other) implies inserted(
            table,
            found,
            skip,
        ).contains_key(other) && inserted(table, found, skip)[other] == table[other] by {
            assert(next.contains_key(other) && next[other] == table[other]);
        }
    }
}

/// Adds the objects found in a stream to the container, in their order: an
/// object is added only where the container holds nothing under its
/// identifier, and nothing is added under `skip`.
pub fn insert_found(doc: &mut Container, found: Vec<(ObjectId, ObjectValue)>, skip: Option<ObjectId>)
    ensures
        final(doc).table() == inserted(old(doc).table(), members_of(found@), skip),
        final(doc).trailer == old(doc).trailer,
        final(doc).version == old(doc).version,
        final(doc).max_id == old(doc).max_id,
{
    let ghost all = members_of(found@);
    let ghost start = doc.table();
    let mut rest = found;
    while rest.len() > 0
        invariant
            inserted(doc.table(), members_of(rest@), skip) == inserted(start, all, skip),
            doc.trailer == old(doc).trailer,
            doc.version == old(doc).version,
            doc.max_id == old(doc).max_id,
        decreases rest.len(),
    {
        let ghost before = doc.table();
        let ghost listed = members_of(rest@);
        let (id, object) = rest.remove(0);
        proof {
            assert(listed[0] == (id, object@));
            assert(members_of(rest@) =~= listed.drop_first());
        }
        let spared = match skip {
            Some(s) => s.0 == id.0 && s.1 == id.1,
            None => false,
        };
        assert(spared == (skip == Some(id)));
        if !spared && !doc.objects.contains_key(&id) {
            doc.objects.insert(id, object);
            assert(doc.table() =~= before.insert(id, object@));
        } else {
            assert(before.contains_key(id) || skip == Some(id));
        }
    }
    assert(members_of(rest@).len() == 0);
}

/// The word that types a stream that packs other objects while the
/// container is decrypted: the bytes of `Held`.
pub open spec fn held_tag() -> Seq<u8> {
    seq![72u8, 101u8, 108u8, 100u8]
}

/// The bytes of the word `Held`.
pub fn held_tag_bytes() -> (k: Vec<u8>)
    ensures
        k@ == held_tag(),
{
    let k = vec![72u8, 101u8, 108u8, 100u8];
    assert(k@ =~= held_tag());
    k
}

/// A stream with `tag` as its type; any other value as it is.
pub open spec fn retyped(v: Value, tag: Seq<u8>) -> Value {
    match v {
        Value::Stream { dict, content, allows_compression, start_position } => Value::Stream {
            dict: with_entry(dict, type_key(), Value::Name(tag)),
            content,
            allows_compression,
            start_position,
        },
        _ => v,
    }
}

/// Gives a stream `tag` as its type, and leaves any other object as it is.
pub fn retype(object: ObjectValue, tag: Vec<u8>) -> (r: ObjectValue)
    ensures
        r@ == retyped(object@, tag@),
{
    match object {
        ObjectValue::Stream(stream) => {
            let mut stream = stream;
            stream.dict.set(type_key_bytes(), ObjectValue::Name(tag));
            ObjectValue::Stream(stream)
        },
        other => other,
    }
}

/// Whether an object is a stream that packs other objects.
pub fn is_packed(object: &ObjectValue) -> (b: bool)
    ensures
        b == is_object_stream(object@),
{
    match object {
        ObjectValue::Stream(stream) => match stream.dict.get(type_key_bytes().as_slice()) {
            Some(ObjectValue::Name(name)) => bytes_eq(
                name.as_slice(),
                object_stream_tag_bytes().as_slice(),
            ),
            _ => false,
        },
        _ => false,
    }
}

/// A value as it is held while its container is decrypted: a stream that
/// packs other objects is typed as held back, and any other value is as it
/// is.
pub open spec fn masked_value(v: Value) -> Value {
    if is_object_stream(v) {
        retyped(v, held_tag())
    } else {
        v
    }
}

/// A container as it is held while it is decrypted: every stream that
/// packs other objects is typed as held back.
pub open spec fn masked(held: Content) -> Content {
    Content { table: held.table.map_values(|v: Value| masked_value(v)), ..held }
}

/// The identifiers of the streams of a table that pack other objects.
pub open spec fn packed_ids(table: Table) -> Set<ObjectId> {
    Set::new(|id: ObjectId| table.contains_key(id) && is_object_stream(table[id]))
}

/// A value that is held back is no stream that packs other objects.
pub proof fn lemma_masked_value_is_plain(v: Value)
    ensures
        !is_object_stream(masked_value(v)),
{
    if is_object_stream(v) {
        let dict = v->Stream_dict;
        lemma_lookup_stored(dict, type_key(), Value::Name(held_tag()));
        assert(held_tag().len() != object_stream_tag().len());
    }
}

/// A container that is held for decryption stores no stream that packs
/// other objects.
pub proof fn lemma_masked_holds_none(held: Content)
    ensures
        !holds_object_stream(masked(held)),
{
    assert forall|id: ObjectId| masked(held).table.contains_key(id) implies !is_object_stream(
        #[trigger] masked(held).table[id],
    ) by {
        lemma_masked_value_is_plain(held.table[id]);
    }
}

/// Types every stream of the container that packs other objects as held
/// back, and lists the identifiers of these streams.
pub fn hold_back(doc: &mut Container) -> (packed: Vec<ObjectId>)
    ensures
        final(doc).content() == masked(old(doc).content()),
        packed@.no_duplicates(),
        packed@.to_set() == packed_ids(old(doc).table()),
{
    let ids = doc.object_ids();
    let ghost before = *doc;
    let mut packed: Vec<ObjectId> = Vec::new();
    let mut i: usize = 0;
    while i < ids.len()
        invariant
            i <= ids.len(),
            ids@.no_duplicates(),
            ids@.to_set() == before.objects@.dom(),
            doc.objects@.dom() == before.objects@.dom(),
            doc.trailer == before.trailer,
            doc.version == before.version,
            doc.max_id == before.max_id,
            forall|k: int|
                0 <= k < i ==> doc.table()[#[trigger] ids@[k]] == masked_value(
                    before.table()[ids@[k]],
                ),
            forall|k: int| i <= k < ids.len() ==> doc.objects@[#[trigger] ids@[k]] == before.objects@[ids@[k]],
            packed@.no_duplicates(),
            forall|p: int|
                0 <= p < packed@.len() ==> exists|k: int|
                    0 <= k < i && ids@[k] == #[trigger] packed@[p],
            forall|k: int|
                0 <= k < i ==> (is_object_stream(before.table()[#[trigger] ids@[k]])
                    <==> packed@.contains(ids@[k])),
        decreases ids.len() - i,
    {
        let id = ids[i];
        assert(ids@.to_set().contains(ids@[i as int]));
        match doc.objects.remove(&id) {
            Some(object) => {
                let ghost was = packed@;
                let held = if is_packed(&object) {
                    proof {
                        assert(!was.contains(id)) by {
                            if was.contains(id) {
                                let p = choose|p: int| 0 <= p < was.len() && was[p] == id;
                                let k = choose|k: int| 0 <= k < i && ids@[k] == was[p];
                                assert(ids@[k] == ids@[i as int]);
                            }
                        }
                    }
                    packed.push(id);
                    proof {
                        assert(packed@[was.len() as int] == id);
                        assert forall|k: int| 0 <= k < i implies (is_object_stream(
                            before.table()[#[trigger] ids@[k]],
                        ) <==> packed@.contains(ids@[k])) by {
                            if was.contains(ids@[k]) {
                                let p = choose|p: int| 0 <= p < was.len() && was[p] == ids@[k];
                                assert(packed@[p] == ids@[k]);
                            }
                            if packed@.contains(ids@[k]) {
                                let p = choose|p: int|
                                    0 <= p < packed@.len() && packed@[p] == ids@[k];
                                if p < was.len() {
                                    assert(was[p] == ids@[k]);
                                }
                            }
                        }
                    }
                    retype(object, held_tag_bytes())
                } else {
                    object
                };
                assert(held@ == masked_value(before.table()[id]));
                doc.objects.insert(id, held);
                assert(doc.objects@.dom() =~= before.objects@.dom());
            },
            None => {},
        }
        i += 1;
    }
    proof {
        let want = before.table().map_values(|v: Value| masked_value(v));
        assert forall|id: ObjectId| #[trigger] doc.table().contains_key(id) implies doc.table()[id]
            == want[id] by {
            assert(ids@.to_set().contains(id));
            let k = choose|k: int| 0 <= k < ids@.len() && ids@[k] == id;
            assert(doc.table()[ids@[k]] == masked_value(before.table()[ids@[k]]));
        }
        assert(doc.table() =~= want);
        assert forall|id: ObjectId| packed@.to_set().contains(id) <==> packed_ids(
            before.table(),
        ).contains(id) by {
            if packed@.contains(id) {
                let p = choose|p: int| 0 <= p < packed@.len() && packed@[p] == id;
                let k = choose|k: int| 0 <= k < i && ids@[k] == packed@[p];
                assert(is_object_stream(before.table()[ids@[k]]));
                assert(ids@.to_set().contains(ids@[k]));
            }
            if packed_ids(before.table()).contains(id) {
                assert(ids@.to_set().contains(id));
                let k = choose|k: int| 0 <= k < ids@.len() && ids@[k] == id;
                assert(packed@.contains(ids@[k]));
            }
        }
        assert(packed@.to_set() =~= packed_ids(before.table()));
    }
    packed
}

/// The dictionary of a stream; no entries for any other value.
pub open spec fn stream_dict(v: Value) -> Entries {
    match v {
        Value::Stream { dict, .. } => dict,
        _ => Seq::empty(),
    }
}

/// Whether what a dictionary holds under `Filter` names the filter `tag`:
/// it is that name, or a list with that name in it.
pub open spec fn is_named(filter: Option<Value>, tag: Seq<u8>) -> bool {
    match filter {
        Some(Value::Name(name)) => name == tag,
        Some(Value::Array(items)) => exists|i: int|
            0 <= i < items.len() && #[trigger] items[i] == Value::Name(tag),
        _ => false,
    }
}

/// What an object holds, if there is one.
pub open spec fn value_of(object: Option<&ObjectValue>) -> Option<Value> {
    match object {
        Some(o) => Some(o@),
        None => None,
    }
}

/// Whether what a dictionary holds under `Filter` names the filter `tag`.
pub fn names_filter(filter: Option<&ObjectValue>, tag: &[u8]) -> (b: bool)
    ensures
        b == is_named(value_of(filter), tag@),
{
    match filter {
        Some(ObjectValue::Name(name)) => bytes_eq(name.as_slice(), tag),
        Some(ObjectValue::Array(items)) => {
            let mut i: usize = 0;
            while i < items.len()
                invariant
                    i <= items.len(),
                    value_of(filter) == Some(Value::Array(values_of(items@))),
                    forall|k: int| 0 <= k < i ==> #[trigger] values_of(items@)[k] != Value::Name(tag@),
                decreases items.len() - i,
            {
                assert(values_of(items@)[i as int] == items[i as int]@);
                match &items[i] {
                    ObjectValue::Name(name) => {
                        if bytes_eq(name.as_slice(), tag) {
                            assert(values_of(items@)[i as int] == Value::Name(tag@));
                            return true;
                        }
                    },
                    _ => {},
                }
                i += 1;
            }
            false
        },
        _ => false,
    }
}

/// A decoding parameter as the decoder reads it: the integer under `key`,
/// or one where there is no integer, and `least` where that is smaller.
pub open spec fn parameter(parms: Entries, key: Seq<u8>, least: int) -> int {
    let given: int = match lookup(parms, key) {
        Some(Value::Integer(n)) => n as int,
        _ => 1,
    };
    if given < least {
        least
    } else {
        given
    }
}

/// Reads a decoding parameter as the decoder reads it.
pub fn parameter_of(parms: &Dict, key: &[u8], least: i64) -> (n: i64)
    ensures
        n == parameter(parms@, key@, least as int),
{
    let given: i64 = match parms.get(key) {
        Some(ObjectValue::Integer(n)) => *n,
        _ => 1,
    };
    if given < least {
        least
    } else {
        given
    }
}

/// Whether decoding parameters ask for a predictor that works on rows of
/// pixels: one of the predictors 10 to 15.
pub open spec fn predicts_rows(parms: Entries) -> bool {
    lookup(parms, predictor_key()) matches Some(Value::Integer(n)) && 10 <= n <= 15
}

/// Whether decoding parameters ask for a predictor that works on rows of
/// pixels.
pub fn asks_for_rows(parms: &Dict) -> (b: bool)
    ensures
        b == predicts_rows(parms@),
{
    match parms.get(predictor_key_bytes().as_slice()) {
        Some(ObjectValue::Integer(n)) => 10 <= *n && *n <= 15,
        _ => false,
    }
}

/// Whether the size of a row of pixels, as decoding parameters give it, can
/// be computed on this machine: columns, colours and bits for each colour
/// are machine sizes, and so are the bits of a pixel and the bytes of a
/// row.
pub open spec fn row_fits(parms: Entries) -> bool {
    let columns = parameter(parms, columns_key(), 1);
    let colors = parameter(parms, colors_key(), 1);
    let bits = parameter(parms, bits_key(), 8);
    &&& columns <= usize::MAX
    &&& colors <= usize::MAX
    &&& bits <= usize::MAX
    &&& colors * bits <= usize::MAX
    &&& (colors * bits / 8) * columns <= usize::MAX
}

/// Whether the size of a row of pixels can be computed on this machine.
pub fn row_is_computable(parms: &Dict) -> (b: bool)
    ensures
        b == row_fits(parms@),
{
    let columns: u128 = parameter_of(parms, columns_key_bytes().as_slice(), 1) as u128;
    let colors: u128 = parameter_of(parms, colors_key_bytes().as_slice(), 1) as u128;
    let bits: u128 = parameter_of(parms, bits_key_bytes().as_slice(), 8) as u128;
    let limit: u128 = usize::MAX as u128;
    if columns > limit || colors > limit || bits > limit {
        return false;
    }
    assert(colors * bits <= 0xffff_ffff_ffff_ffff * 0xffff_ffff_ffff_ffff) by (nonlinear_arith)
        requires
            colors <= 0xffff_ffff_ffff_ffff,
            bits <= 0xffff_ffff_ffff_ffff,
    ;
    let pixel: u128 = colors * bits;
    if pixel > limit {
        return false;
    }
    assert((pixel / 8) * columns <= 0xffff_ffff_ffff_ffff * 0xffff_ffff_ffff_ffff)
        by (nonlinear_arith)
        requires
            pixel <= 0xffff_ffff_ffff_ffff,
            columns <= 0xffff_ffff_ffff_ffff,
    ;
    let row: u128 = (pixel / 8) * columns;
    row <= limit
}

/// Whether machine sizes have 64 bits or more.
pub open spec fn wide_machine() -> bool {
    usize::MAX >= 0xffff_ffff_ffff_ffff
}

/// Whether machine sizes have 64 bits or more.
pub fn machine_is_wide() -> (b: bool)
    ensures
        b == wide_machine(),
{
    usize::MAX as u128 >= 0xffff_ffff_ffff_ffffu128
}

/// Whether `lopdf` can be left to unpack a stream with this dictionary.
/// It adds up the offsets of the packed objects, decodes the filter
/// `ASCII85Decode` and computes the size of a row of pixels with unchecked
/// arithmetic. So machine sizes must be wide enough for the sum of a
/// payload's length and a 32-bit offset, the stream must not name that
/// filter, and where its decoding parameters ask for a predictor on rows,
/// the size of a row must be computable.
pub open spec fn can_unpack(dict: Entries) -> bool {
    &&& wide_machine()
    &&& !is_named(lookup(dict, filter_key()), ascii85_tag())
    &&& lookup(dict, decode_parms_key()) matches Some(Value::Dictionary(parms)) ==> (predicts_rows(
        parms,
    ) ==> row_fits(parms))
}

/// Whether `lopdf` can be left to unpack a stream with this dictionary.
pub fn fits_unpacking(dict: &Dict) -> (b: bool)
    ensures
        b == can_unpack(dict@),
{
    if !machine_is_wide() {
        return false;
    }
    if names_filter(dict.get(filter_key_bytes().as_slice()), ascii85_tag_bytes().as_slice()) {
        return false;
    }
    match dict.get(decode_parms_key_bytes().as_slice()) {
        Some(ObjectValue::Dictionary(parms)) => !asks_for_rows(parms) || row_is_computable(parms),
        _ => true,
    }
}

/// The table after the stream under `id` has been unpacked: the stream is
/// typed again as one that packs other objects and replaced by what the
/// unpacking leaves of it, and the objects found in it are added as
/// `inserted` says. Nothing comes of a stream that cannot be left to
/// `lopdf`, as `can_unpack` says, or of one whose unpacking fails. Where
/// the table holds no stream under `id` it stays as it is.
pub open spec fn unpacked_one(table: Table, id: ObjectId, skip: Option<ObjectId>) -> Option<Table> {
    if table.contains_key(id) && table[id] is Stream {
        let stream = retyped(table[id], object_stream_tag());
        if !can_unpack(stream_dict(stream)) {
            None
        } else {
            match unpacked(stream) {
                None => None,
                Some((left, found)) => Some(inserted(table.insert(id, left), found, skip)),
            }
        }
    } else {
        Some(table)
    }
}

/// What a container holds with `table` as its table.
pub open spec fn with_table(held: Content, table: Option<Table>) -> Option<Content> {
    match table {
        Some(table) => Some(Content { table, ..held }),
        None => None,
    }
}

/// Unpacks the stream under `id` into the container, as `unpacked_one`
/// says; hands over nothing where that fails.
pub fn unpack_one(doc: Container, id: ObjectId, skip: Option<ObjectId>) -> (r: Option<Container>)
    ensures
        match r {
            Some(whole) => with_table(doc.content(), unpacked_one(doc.table(), id, skip)) == Some(
                whole.content(),
            ),
            None => unpacked_one(doc.table(), id, skip) is None,
        },
{
    let ghost before = doc.table();
    let mut doc = doc;
    match doc.objects.remove(&id) {
        Some(object) => {
            assert(before.contains_key(id) && before[id] == object@);
            let is_stream = match &object {
                ObjectValue::Stream(_) => true,
                _ => false,
            };
            if !is_stream {
                doc.objects.insert(id, object);
                assert(doc.table() =~= before);
                return Some(doc);
            }
            let stream = retype(object, object_stream_tag_bytes());
            let fits = match &stream {
                ObjectValue::Stream(s) => fits_unpacking(&s.dict),
                _ => false,
            };
            if !fits {
                return None;
            }
            match unpack_stream(&stream) {
                Some((left, found)) => {
                    doc.objects.insert(id, left);
                    assert(doc.table() =~= before.insert(id, left@));
                    insert_found(&mut doc, found, skip);
                    Some(doc)
                },
                None => None,
            }
        },
        None => {
            assert(doc.table() =~= before);
            Some(doc)
        },
    }
}

/// The table after the streams under `waiting` have been unpacked, one after
/// the other in the order of their identifiers; nothing where one of them
/// cannot be unpacked. A finite set that is not empty has a first
/// identifier, as `lemma_least_exists` shows, so none of a finite set is
/// left out.
pub open spec fn unpacked_all(table: Table, waiting: Set<ObjectId>, skip: Option<ObjectId>) -> Option<
    Table,
>
    decreases waiting.len(),
{
    if waiting.finite() && waiting.len() > 0 && is_least(waiting, least(waiting)) {
        match unpacked_one(table, least(waiting), skip) {
            None => None,
            Some(next) => unpacked_all(next, waiting.remove(least(waiting)), skip),
        }
    } else {
        Some(table)
    }
}

/// Unpacks the streams under `packed` into the container, one after the
/// other in the order of their identifiers; hands over nothing where one of
/// them cannot be unpacked.
pub fn unpack_all(doc: Container, packed: Vec<ObjectId>, skip: Option<ObjectId>) -> (r: Option<
    Container,
>)
    requires
        packed@.no_duplicates(),
    ensures
        match r {
            Some(whole) => with_table(
                doc.content(),
                unpacked_all(doc.table(), packed@.to_set(), skip),
            ) == Some(whole.content()),
            None => unpacked_all(doc.table(), packed@.to_set(), skip) is None,
        },
{
    let ghost start = doc;
    let mut whole = doc;
    let mut rest = packed;
    while rest.len() > 0
        invariant
            rest@.no_duplicates(),
            unpacked_all(whole.table(), rest@.to_set(), skip) == unpacked_all(
                start.table(),
                packed@.to_set(),
                skip,
            ),
            start == doc,
            whole.trailer@ == start.trailer@,
            whole.version@ == start.version@,
            whole.max_id == start.max_id,
        decreases rest.len(),
    {
        let ghost waiting = rest@.to_set();
        let ghost table = whole.table();
        proof {
            rest@.unique_seq_to_set();
            vstd::seq_lib::seq_to_set_is_finite(rest@);
        }
        let id = take_least(&mut rest);
        proof {
            lemma_least_is_unique(waiting, id);
        }
        whole = match unpack_one(whole, id, skip) {
            Some(next) => next,
            None => {
                assert(unpacked_all(table, waiting, skip) is None);
                return None;
            },
        };
    }
    proof {
        assert(rest@.to_set() =~= Set::<ObjectId>::empty());
    }
    Some(whole)
}

} // verus!
