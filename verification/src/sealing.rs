use crate::container::{Container, Content};
use crate::encryption::{EncryptionAlgorithm, EncryptionDescriptor};
use crate::graph::{
    closed, entries_refs_within, items_refs_within, lemma_refs_within_grow, refs_within,
};
use crate::names::{
    aes128_method, aes128_method_bytes, crypt_filters_key, crypt_filters_key_bytes, encrypt_key,
    encrypt_key_bytes, encrypt_metadata_key, encrypt_metadata_key_bytes, length_key, method_key, method_key_bytes, stream_filter_key,
    stream_filter_key_bytes, string_filter_key, string_filter_key_bytes, version_key,
    version_key_bytes,
};
use crate::object::{
    bytes_eq, has_key, is_first, lemma_lookup_other, lemma_lookup_stored, lemma_position,
    lemma_position_found, lookup, position, with_entry, Dict, Entries, ObjectId, ObjectValue,
    Value,
};
use vstd::prelude::*;

verus! {

/// Whether the entries `f` are the entries `e` but for what `like` leaves
/// open: the same keys in the same order, with values that are alike.
pub open spec fn entries_like(e: Entries, f: Entries, sealing: bool) -> bool
    decreases e,
{
    &&& f.len() == e.len()
    &&& forall|i: int|
        0 <= i < e.len() ==> like(#[trigger] e[i].1, f[i].1, sealing) && f[i].0 == e[i].0
}

/// Whether the items `others` are the items `items` but for what `like`
/// leaves open.
pub open spec fn items_like(items: Seq<Value>, others: Seq<Value>, sealing: bool) -> bool
    decreases items,
{
    &&& others.len() == items.len()
    &&& forall|i: int| 0 <= i < items.len() ==> like(#[trigger] items[i], others[i], sealing)
}

/// Whether `f` can be the dictionary of a stream with the dictionary `e`
/// once the stream is encrypted: the entries of `e` in their order, with
/// values that are alike but for the text of real numbers, where `Length`
/// may have become an integer, and may have been added at the end where
/// `e` had none.
pub open spec fn stream_entries_sealed(e: Entries, f: Entries) -> bool
    decreases e,
{
    &&& f.len() == e.len() || (f.len() == e.len() + 1 && !has_key(e, length_key()) && f[e.len() as int].0
        == length_key() && f[e.len() as int].1 is Integer)
    &&& forall|i: int|
        0 <= i < e.len() ==> (like(#[trigger] e[i].1, f[i].1, false) || (e[i].0 == length_key()
            && f[i].1 is Integer)) && i < f.len() && f[i].0 == e[i].0
}

/// Whether `b` is `a` but for what handing a value to `lopdf` and, with
/// `sealing`, encrypting it may change.
///
/// Without `sealing` only the text of a real number is open. With it, the
/// bytes of a string and the payload of a stream are open too, and the
/// dictionary of a stream is as `stream_entries_sealed` says. All else is
/// the same: the variant, the format of a string, the items of a list and
/// the keys of a dictionary in their order, names, integers and references.
pub open spec fn like(a: Value, b: Value, sealing: bool) -> bool
    decreases a,
{
    match a {
        Value::Real(_) => b is Real,
        Value::String(_, format) => if sealing {
            b matches Value::String(_, other) && other == format
        } else {
            b == a
        },
        Value::Array(items) => b matches Value::Array(others) && items_like(items, others, sealing),
        Value::Dictionary(e) => b matches Value::Dictionary(f) && entries_like(e, f, sealing),
        Value::Stream { dict, content, allows_compression, start_position } => match b {
            Value::Stream {
                dict: other,
                content: payload,
                allows_compression: allowed,
                start_position: start,
            } => allowed == allows_compression && start == start_position && if sealing {
                stream_entries_sealed(dict, other)
            } else {
                payload == content && entries_like(dict, other, false)
            },
            _ => false,
        },
        _ => b == a,
    }
}

/// Whether `sealed` can be what `plain` holds once it is encrypted: the
/// version is kept, one object number more is used, the encryption
/// dictionary, which holds no reference, is stored under it, the trailer
/// refers to it under `Encrypt`
/// and is otherwise as before but for the text of real numbers, and every
/// other object is as before but for what encrypting it changes.
pub open spec fn encrypted_from(plain: Content, sealed: Content) -> bool {
    let id = (sealed.max_id, 0u16);
    &&& sealed.version == plain.version
    &&& sealed.max_id == plain.max_id + 1
    &&& sealed.table.dom() == plain.table.dom().insert(id)
    &&& sealed.table[id] is Dictionary
    &&& refs_within(sealed.table[id], Set::empty())
    &&& entries_like(
        with_entry(plain.trailer, encrypt_key(), Value::Reference(id)),
        sealed.trailer,
        false,
    )
    &&& forall|k: ObjectId|
        plain.table.contains_key(k) && k != id ==> like(
            plain.table[k],
            #[trigger] sealed.table[k],
            true,
        )
}

/// Entries that are alike have the same keys at the same places, and what
/// they hold under a key is alike.
pub proof fn lemma_like_lookup(e: Entries, f: Entries, sealing: bool, key: Seq<u8>)
    requires
        entries_like(e, f, sealing),
    ensures
        has_key(f, key) == has_key(e, key),
        has_key(e, key) ==> position(f, key) == position(e, key) && like(
            lookup(e, key)->Some_0,
            lookup(f, key)->Some_0,
            sealing,
        ),
{
    if has_key(e, key) {
        lemma_position_found(e, key);
        let p = position(e, key);
        assert(like(e[p].1, f[p].1, sealing) && f[p].0 == e[p].0);
        assert forall|j: int| 0 <= j < p implies (#[trigger] f[j]).0 != key by {
            assert(like(e[j].1, f[j].1, sealing) && f[j].0 == e[j].0);
        }
        assert(is_first(f, key, p));
        lemma_position(f, key, p);
    }
    if has_key(f, key) {
        let i = choose|i: int| 0 <= i < f.len() && (#[trigger] f[i]).0 == key;
        assert(like(e[i].1, f[i].1, sealing) && f[i].0 == e[i].0);
        assert(e[i].0 == key);
    }
}

/// Whether nothing in `v` is open to `like`: it holds no real number and,
/// with `sealing`, no string and no stream.
pub open spec fn fixed(v: Value, sealing: bool) -> bool
    decreases v,
{
    match v {
        Value::Real(_) => false,
        Value::String(_, _) => !sealing,
        Value::Array(items) => items_fixed(items, sealing),
        Value::Dictionary(e) => entries_fixed(e, sealing),
        Value::Stream { dict, .. } => !sealing && entries_fixed(dict, false),
        _ => true,
    }
}

/// Whether nothing in the items is open to `like`.
pub open spec fn items_fixed(items: Seq<Value>, sealing: bool) -> bool
    decreases items,
{
    forall|i: int| 0 <= i < items.len() ==> fixed(#[trigger] items[i], sealing)
}

/// Whether nothing in the values of the entries is open to `like`.
pub open spec fn entries_fixed(e: Entries, sealing: bool) -> bool
    decreases e,
{
    forall|i: int| 0 <= i < e.len() ==> fixed(#[trigger] e[i].1, sealing)
}

/// Entries with nothing open are the same as entries that are like them.
pub proof fn lemma_fixed_entries_are_kept(e: Entries, f: Entries, sealing: bool)
    requires
        entries_like(e, f, sealing),
        entries_fixed(e, sealing),
    ensures
        f == e,
    decreases e,
{
    assert forall|i: int| 0 <= i < e.len() implies f[i] == e[i] by {
        assert(like(e[i].1, f[i].1, sealing) && f[i].0 == e[i].0);
        assert(fixed(e[i].1, sealing));
        lemma_fixed_is_kept(e[i].1, f[i].1, sealing);
    }
    assert(f =~= e);
}

/// A value with nothing open is the same as a value that is like it.
pub proof fn lemma_fixed_is_kept(a: Value, b: Value, sealing: bool)
    requires
        like(a, b, sealing),
        fixed(a, sealing),
    ensures
        b == a,
    decreases a,
{
    match a {
        Value::Array(items) => {
            let others = b->Array_0;
            assert forall|i: int| 0 <= i < items.len() implies others[i] == items[i] by {
                assert(like(items[i], others[i], sealing));
                assert(fixed(items[i], sealing));
                lemma_fixed_is_kept(items[i], others[i], sealing);
            }
            assert(others =~= items);
        },
        Value::Dictionary(e) => {
            lemma_fixed_entries_are_kept(e, b->Dictionary_0, sealing);
        },
        Value::Stream { dict, .. } => {
            lemma_fixed_entries_are_kept(dict, b->Stream_dict, false);
        },
        _ => {},
    }
}

/// Entries that are like entries whose references point into a set have
/// no references but into that set.
pub proof fn lemma_like_entries_refs_within(
    e: Entries,
    f: Entries,
    sealing: bool,
    allowed: Set<ObjectId>,
)
    requires
        entries_like(e, f, sealing),
        entries_refs_within(e, allowed),
    ensures
        entries_refs_within(f, allowed),
    decreases e,
{
    assert forall|i: int| 0 <= i < f.len() implies refs_within(#[trigger] f[i].1, allowed) by {
        assert(like(e[i].1, f[i].1, sealing) && f[i].0 == e[i].0);
        assert(refs_within(e[i].1, allowed));
        lemma_like_refs_within(e[i].1, f[i].1, sealing, allowed);
    }
}

/// A value that is like a value whose references point into a set has no
/// references but into that set: neither handing a value to `lopdf` nor
/// encrypting it adds a reference.
pub proof fn lemma_like_refs_within(a: Value, b: Value, sealing: bool, allowed: Set<ObjectId>)
    requires
        like(a, b, sealing),
        refs_within(a, allowed),
    ensures
        refs_within(b, allowed),
    decreases a,
{
    match a {
        Value::Array(items) => {
            let others = b->Array_0;
            assert forall|i: int| 0 <= i < others.len() implies refs_within(
                #[trigger] others[i],
                allowed,
            ) by {
                assert(like(items[i], others[i], sealing));
                assert(refs_within(items[i], allowed));
                lemma_like_refs_within(items[i], others[i], sealing, allowed);
            }
            assert(items_refs_within(others, allowed));
        },
        Value::Dictionary(e) => {
            lemma_like_entries_refs_within(e, b->Dictionary_0, sealing, allowed);
        },
        Value::Stream { dict, .. } => {
            let other = b->Stream_dict;
            if sealing {
                assert forall|i: int| 0 <= i < other.len() implies refs_within(
                    #[trigger] other[i].1,
                    allowed,
                ) by {
                    if i < dict.len() {
                        assert((like(dict[i].1, other[i].1, false) || (dict[i].0 == length_key()
                            && other[i].1 is Integer)) && i < other.len() && other[i].0
                            == dict[i].0);
                        assert(refs_within(dict[i].1, allowed));
                        if like(dict[i].1, other[i].1, false) {
                            lemma_like_refs_within(dict[i].1, other[i].1, false, allowed);
                        }
                    }
                }
                assert(entries_refs_within(other, allowed));
            } else {
                lemma_like_entries_refs_within(dict, other, false, allowed);
            }
        },
        _ => {},
    }
}

/// Encrypting a container in which no object refers to an identifier that
/// it lacks gives such a container.
pub proof fn lemma_encrypted_is_closed(plain: Content, sealed: Content)
    requires
        encrypted_from(plain, sealed),
        closed(plain.table),
    ensures
        closed(sealed.table),
{
    let id = (sealed.max_id, 0u16);
    assert forall|k: ObjectId| #[trigger] sealed.table.contains_key(k) implies refs_within(
        sealed.table[k],
        sealed.table.dom(),
    ) by {
        if k == id {
            lemma_refs_within_grow(sealed.table[k], Set::empty(), sealed.table.dom());
        } else {
            assert(plain.table.dom().insert(id).contains(k));
            assert(plain.table.contains_key(k));
            assert(like(plain.table[k], sealed.table[k], true));
            assert(refs_within(plain.table[k], plain.table.dom()));
            lemma_refs_within_grow(plain.table[k], plain.table.dom(), sealed.table.dom());
            lemma_like_refs_within(plain.table[k], sealed.table[k], true, sealed.table.dom());
        }
    }
}

/// An encrypted container refers, under `Encrypt` in its trailer, to the
/// encryption dictionary under its largest object number.
pub proof fn lemma_encrypted_refers_to_dictionary(plain: Content, sealed: Content)
    requires
        encrypted_from(plain, sealed),
    ensures
        lookup(sealed.trailer, encrypt_key()) == Some(Value::Reference((sealed.max_id, 0u16))),
        sealed.table.contains_key((sealed.max_id, 0u16)),
        sealed.table[(sealed.max_id, 0u16)] is Dictionary,
{
    let id = (sealed.max_id, 0u16);
    let want = with_entry(plain.trailer, encrypt_key(), Value::Reference(id));
    lemma_lookup_stored(plain.trailer, encrypt_key(), Value::Reference(id));
    lemma_like_lookup(want, sealed.trailer, false, encrypt_key());
    assert(plain.table.dom().insert(id).contains(id));
}

/// An encrypted container holds under every other key of its trailer what
/// the plain one held, but for the text of real numbers, and has no other
/// keys.
pub proof fn lemma_encrypted_keeps_trailer(plain: Content, sealed: Content, key: Seq<u8>)
    requires
        encrypted_from(plain, sealed),
        key != encrypt_key(),
    ensures
        has_key(sealed.trailer, key) == has_key(plain.trailer, key),
        has_key(plain.trailer, key) ==> like(
            lookup(plain.trailer, key)->Some_0,
            lookup(sealed.trailer, key)->Some_0,
            false,
        ),
        has_key(plain.trailer, key) && fixed(lookup(plain.trailer, key)->Some_0, false) ==> lookup(
            sealed.trailer,
            key,
        ) == lookup(plain.trailer, key),
{
    let id = (sealed.max_id, 0u16);
    let want = with_entry(plain.trailer, encrypt_key(), Value::Reference(id));
    lemma_lookup_other(plain.trailer, encrypt_key(), Value::Reference(id), key);
    lemma_like_lookup(want, sealed.trailer, false, key);
    if has_key(plain.trailer, key) && fixed(lookup(plain.trailer, key)->Some_0, false) {
        lemma_fixed_is_kept(
            lookup(plain.trailer, key)->Some_0,
            lookup(sealed.trailer, key)->Some_0,
            false,
        );
    }
}

/// An encrypted container holds every object of the plain one, and holds
/// an object without strings, streams and real numbers as it was.
pub proof fn lemma_encrypted_keeps_objects(plain: Content, sealed: Content, id: ObjectId)
    requires
        encrypted_from(plain, sealed),
        plain.table.contains_key(id),
        id != (sealed.max_id, 0u16),
    ensures
        sealed.table.contains_key(id),
        like(plain.table[id], sealed.table[id], true),
        fixed(plain.table[id], true) ==> sealed.table[id] == plain.table[id],
{
    assert(plain.table.dom().insert((sealed.max_id, 0u16)).contains(id));
    assert(like(plain.table[id], sealed.table[id], true));
    if fixed(plain.table[id], true) {
        lemma_fixed_is_kept(plain.table[id], sealed.table[id], true);
    }
}

/// The method of the crypt filter that an encryption dictionary names
/// under `which`, if it names one and holds it with a method.
pub open spec fn method_of(e: Entries, which: Seq<u8>) -> Option<Seq<u8>> {
    match (lookup(e, which), lookup(e, crypt_filters_key())) {
        (Some(Value::Name(name)), Some(Value::Dictionary(filters))) => match lookup(filters, name) {
            Some(Value::Dictionary(filter)) => match lookup(filter, method_key()) {
                Some(Value::Name(method)) => Some(method),
                _ => None,
            },
            _ => None,
        },
        _ => None,
    }
}

/// Whether the crypt filter that an encryption dictionary names under
/// `which` has the method `method`.
pub fn has_method(e: &Dict, which: &[u8], method: &[u8]) -> (b: bool)
    ensures
        b == (method_of(e@, which@) == Some(method@)),
{
    match (e.get(which), e.get(crypt_filters_key_bytes().as_slice())) {
        (Some(ObjectValue::Name(name)), Some(ObjectValue::Dictionary(filters))) => match filters.get(
            name.as_slice(),
        ) {
            Some(ObjectValue::Dictionary(filter)) => match filter.get(method_key_bytes().as_slice()) {
                Some(ObjectValue::Name(found)) => bytes_eq(found.as_slice(), method),
                _ => false,
            },
            _ => false,
        },
        _ => false,
    }
}

/// The algorithm that an encryption dictionary stands for: the legacy
/// cipher with version 1; AES with a 128-bit key with version 4 and crypt
/// filters of the method `AESV2` for streams and for strings; none that
/// the library knows otherwise.
pub open spec fn cipher_named(e: Entries) -> Option<EncryptionAlgorithm> {
    match lookup(e, version_key()) {
        Some(Value::Integer(version)) => if version == 1 {
            Some(EncryptionAlgorithm::LegacyRc4)
        } else if version == 4 && method_of(e, stream_filter_key()) == Some(aes128_method())
            && method_of(e, string_filter_key()) == Some(aes128_method()) {
            Some(EncryptionAlgorithm::Aes128)
        } else {
            None
        },
        _ => None,
    }
}

/// Reads the algorithm that an encryption dictionary stands for.
pub fn named_cipher(e: &Dict) -> (cipher: Option<EncryptionAlgorithm>)
    ensures
        cipher == cipher_named(e@),
{
    match e.get(version_key_bytes().as_slice()) {
        Some(ObjectValue::Integer(version)) => {
            if *version == 1 {
                Some(EncryptionAlgorithm::LegacyRc4)
            } else if *version == 4 && has_method(
                e,
                stream_filter_key_bytes().as_slice(),
                aes128_method_bytes().as_slice(),
            ) && has_method(
                e,
                string_filter_key_bytes().as_slice(),
                aes128_method_bytes().as_slice(),
            ) {
                Some(EncryptionAlgorithm::Aes128)
            } else {
                None
            }
        },
        _ => None,
    }
}

/// Whether an encryption dictionary is made as a descriptor says: it
/// stands for the algorithm of the descriptor, and for AES it names the
/// descriptor's crypt filters for streams and for strings and says of
/// metadata what the descriptor says.
pub open spec fn dictionary_follows(e: Entries, d: EncryptionDescriptor) -> bool {
    &&& cipher_named(e) == Some(d.algorithm)
    &&& d.algorithm == EncryptionAlgorithm::Aes128 ==> {
        &&& lookup(e, stream_filter_key()) == Some(Value::Name(d.stream_filter@))
        &&& lookup(e, string_filter_key()) == Some(Value::Name(d.string_filter@))
        &&& lookup(e, encrypt_metadata_key()) == Some(Value::Boolean(d.encrypt_metadata))
    }
}

/// Whether what a dictionary holds under `key` is the name `name`.
pub fn holds_name(e: &Dict, key: &[u8], name: &[u8]) -> (b: bool)
    ensures
        b == (lookup(e@, key@) == Some(Value::Name(name@))),
{
    match e.get(key) {
        Some(ObjectValue::Name(found)) => bytes_eq(found.as_slice(), name),
        _ => false,
    }
}

/// Whether what a dictionary holds under `key` is the truth value `flag`.
pub fn holds_flag(e: &Dict, key: &[u8], flag: bool) -> (b: bool)
    ensures
        b == (lookup(e@, key@) == Some(Value::Boolean(flag))),
{
    match e.get(key) {
        Some(ObjectValue::Boolean(found)) => *found == flag,
        _ => false,
    }
}

/// Checks whether an encryption dictionary is made as a descriptor says.
pub fn follows_descriptor(e: &Dict, d: &EncryptionDescriptor) -> (b: bool)
    ensures
        b == dictionary_follows(e@, *d),
{
    match (named_cipher(e), d.algorithm) {
        (Some(EncryptionAlgorithm::LegacyRc4), EncryptionAlgorithm::LegacyRc4) => true,
        (Some(EncryptionAlgorithm::Aes128), EncryptionAlgorithm::Aes128) => holds_name(
            e,
            stream_filter_key_bytes().as_slice(),
            d.stream_filter.as_slice(),
        ) && holds_name(e, string_filter_key_bytes().as_slice(), d.string_filter.as_slice())
            && holds_flag(e, encrypt_metadata_key_bytes().as_slice(), d.encrypt_metadata),
        _ => false,
    }
}

/// The encryption dictionary of a container: the dictionary to which the
/// trailer refers under `Encrypt`, if it refers to one that is stored.
pub open spec fn encryption_dictionary(held: Content) -> Option<Entries> {
    match lookup(held.trailer, encrypt_key()) {
        Some(Value::Reference(id)) => if held.table.contains_key(id) {
            match held.table[id] {
                Value::Dictionary(e) => Some(e),
                _ => None,
            }
        } else {
            None
        },
        _ => None,
    }
}

/// The algorithm with which a container says that it is encrypted: the one
/// that its encryption dictionary stands for.
pub open spec fn cipher_of(held: Content) -> Option<EncryptionAlgorithm> {
    match encryption_dictionary(held) {
        Some(e) => cipher_named(e),
        None => None,
    }
}

/// Whether a container says that it is encrypted as a descriptor says.
pub open spec fn sealed_as(held: Content, d: EncryptionDescriptor) -> bool {
    encryption_dictionary(held) matches Some(e) && dictionary_follows(e, d)
}

/// Finds the encryption dictionary of a container.
pub fn find_encryption_dictionary(document: &Container) -> (found: Option<&Dict>)
    ensures
        match found {
            Some(e) => encryption_dictionary(document.content()) == Some(e@),
            None => encryption_dictionary(document.content()) is None,
        },
{
    match document.trailer.get(encrypt_key_bytes().as_slice()) {
        Some(ObjectValue::Reference(id)) => {
            assert(document.table().contains_key(*id) == document.objects@.contains_key(*id));
            match document.objects.get(id) {
                Some(ObjectValue::Dictionary(e)) => {
                    assert(document.table()[*id] == Value::Dictionary(e@));
                    Some(e)
                },
                Some(other) => {
                    assert(document.table()[*id] == other@);
                    None
                },
                None => None,
            }
        },
        _ => None,
    }
}

/// Reads the algorithm with which a container says that it is encrypted.
pub fn read_cipher(document: &Container) -> (cipher: Option<EncryptionAlgorithm>)
    ensures
        cipher == cipher_of(document.content()),
{
    match find_encryption_dictionary(document) {
        Some(e) => named_cipher(e),
        None => None,
    }
}

/// Checks whether a container says that it is encrypted as a descriptor
/// says.
pub fn is_sealed_as(document: &Container, d: &EncryptionDescriptor) -> (b: bool)
    ensures
        b == sealed_as(document.content(), *d),
{
    match find_encryption_dictionary(document) {
        Some(e) => follows_descriptor(e, d),
        None => false,
    }
}

} // verus!
