use crate::names::{
    decode_parms_key, decode_parms_key_bytes, filter_key, filter_key_bytes, length_key,
    length_key_bytes,
};
use vstd::prelude::*;

verus! {

/// Identifies an object inside one container: object number and generation.
pub type ObjectId = (u32, u16);

/// The two ways a string object can be written.
#[derive(Clone, Copy, Debug, PartialEq, Eq, Structural)]
pub enum StringFormat {
    Literal,
    Hexadecimal,
}

/// Ordered key/value entries, the mathematical content of a dictionary.
pub type Entries = Seq<(Seq<u8>, Value)>;

/// The mathematical content of an object.
pub enum Value {
    Null,
    Boolean(bool),
    Integer(i64),
    Real(Seq<u8>),
    Name(Seq<u8>),
    String(Seq<u8>, StringFormat),
    Array(Seq<Value>),
    Dictionary(Entries),
    Stream { dict: Entries, content: Seq<u8>, allows_compression: bool, start_position: Option<usize> },
    Reference(ObjectId),
}

/// A dictionary object: named entries in insertion order, no key twice.
#[derive(Debug, PartialEq)]
pub struct Dict {
    pub(crate) entries: Vec<(Vec<u8>, ObjectValue)>,
}

/// A stream object: a dictionary and a byte payload.
#[derive(Debug, PartialEq)]
pub struct Stream {
    pub dict: Dict,
    pub content: Vec<u8>,
    pub allows_compression: bool,
    pub start_position: Option<usize>,
}

/// An object of a container.
#[derive(Debug, PartialEq)]
pub enum ObjectValue {
    Null,
    Boolean(bool),
    Integer(i64),
    /// A real number, held as its decimal text. The library carries the
    /// text and never computes with it; where a container is handed to
    /// `lopdf`, text that is no number is handed over as zero.
    Real(Vec<u8>),
    Name(Vec<u8>),
    String(Vec<u8>, StringFormat),
    Array(Vec<ObjectValue>),
    Dictionary(Dict),
    Stream(Stream),
    Reference(ObjectId),
}

/// No key occurs twice.
pub open spec fn keys_unique(e: Entries) -> bool {
    forall|i: int, j: int| 0 <= i < j < e.len() ==> (#[trigger] e[i]).0 != (#[trigger] e[j]).0
}

/// The contents of a sequence of objects.
pub open spec fn values_of(items: Seq<ObjectValue>) -> Seq<Value>
    decreases items,
{
    Seq::new(
        items.len(),
        |i: int|
            if 0 <= i < items.len() {
                items[i]@
            } else {
                Value::Null
            },
    )
}

impl View for ObjectValue {
    type V = Value;

    open spec fn view(&self) -> Value
        decreases self,
    {
        match self {
            ObjectValue::Null => Value::Null,
            ObjectValue::Boolean(b) => Value::Boolean(*b),
            ObjectValue::Integer(n) => Value::Integer(*n),
            ObjectValue::Real(text) => Value::Real(text@),
            ObjectValue::Name(n) => Value::Name(n@),
            ObjectValue::String(s, f) => Value::String(s@, *f),
            ObjectValue::Array(items) => Value::Array(values_of(items@)),
            ObjectValue::Dictionary(d) => Value::Dictionary(d@),
            ObjectValue::Stream(s) => Value::Stream {
                dict: s.dict@,
                content: s.content@,
                allows_compression: s.allows_compression,
                start_position: s.start_position,
            },
            ObjectValue::Reference(id) => Value::Reference(*id),
        }
    }
}

impl View for Dict {
    type V = Entries;

    closed spec fn view(&self) -> Entries
        decreases self,
    {
        Seq::new(
            self.entries.len() as nat,
            |i: int|
                if 0 <= i < self.entries.len() {
                    (self.entries[i].0@, self.entries[i].1@)
                } else {
                    (Seq::empty(), Value::Null)
                },
        )
    }
}

/// Whether some entry has this key.
pub open spec fn has_key(e: Entries, key: Seq<u8>) -> bool {
    exists|i: int| 0 <= i < e.len() && (#[trigger] e[i]).0 == key
}

/// Entry `i` has this key and no entry before it has.
pub open spec fn is_first(e: Entries, key: Seq<u8>, i: int) -> bool {
    &&& 0 <= i < e.len()
    &&& e[i].0 == key
    &&& forall|j: int| 0 <= j < i ==> (#[trigger] e[j]).0 != key
}

/// The place of the first entry with this key, where there is one.
pub open spec fn position(e: Entries, key: Seq<u8>) -> int {
    choose|i: int| is_first(e, key, i)
}

/// The value stored under a key.
pub open spec fn lookup(e: Entries, key: Seq<u8>) -> Option<Value> {
    if has_key(e, key) {
        Some(e[position(e, key)].1)
    } else {
        None
    }
}

/// The entries after storing a value under a key: an existing entry keeps its
/// place, a new one goes to the end.
pub open spec fn with_entry(e: Entries, key: Seq<u8>, value: Value) -> Entries {
    if has_key(e, key) {
        e.update(position(e, key), (key, value))
    } else {
        e.push((key, value))
    }
}

/// The entries after removing a key: the last entry takes the freed place.
pub open spec fn without_key(e: Entries, key: Seq<u8>) -> Entries {
    if has_key(e, key) {
        e.update(position(e, key), e.last()).drop_last()
    } else {
        e
    }
}

/// The first entry with a key is where `position` says.
pub proof fn lemma_position(e: Entries, key: Seq<u8>, i: int)
    requires
        is_first(e, key, i),
    ensures
        has_key(e, key),
        position(e, key) == i,
{
    let p = position(e, key);
    assert(is_first(e, key, p));
    if p < i {
        assert(e[p].0 != key);
    } else if i < p {
        assert(e[i].0 != key);
    }
}

/// Where an entry up to `i` has the key, one of them is the first.
proof fn lemma_first_up_to(e: Entries, key: Seq<u8>, i: int)
    requires
        0 <= i < e.len(),
        e[i].0 == key,
    ensures
        exists|p: int| 0 <= p <= i && is_first(e, key, p),
    decreases i,
{
    if exists|j: int| 0 <= j < i && (#[trigger] e[j]).0 == key {
        let j = choose|j: int| 0 <= j < i && (#[trigger] e[j]).0 == key;
        lemma_first_up_to(e, key, j);
        let p = choose|p: int| 0 <= p <= j && is_first(e, key, p);
        assert(0 <= p <= i && is_first(e, key, p));
    } else {
        assert(is_first(e, key, i));
    }
}

/// Where some entry has the key, `position` is the place of the first.
pub proof fn lemma_position_found(e: Entries, key: Seq<u8>)
    requires
        has_key(e, key),
    ensures
        is_first(e, key, position(e, key)),
{
    let i = choose|i: int| 0 <= i < e.len() && (#[trigger] e[i]).0 == key;
    lemma_first_up_to(e, key, i);
}

/// After a value is stored under a key, a lookup of the key finds it.
pub proof fn lemma_lookup_stored(e: Entries, key: Seq<u8>, value: Value)
    ensures
        has_key(with_entry(e, key, value), key),
        lookup(with_entry(e, key, value), key) == Some(value),
        with_entry(e, key, value).len() == if has_key(e, key) {
            e.len()
        } else {
            e.len() + 1
        },
{
    let out = with_entry(e, key, value);
    if has_key(e, key) {
        lemma_position_found(e, key);
        let p = position(e, key);
        assert(is_first(out, key, p)) by {
            assert forall|j: int| 0 <= j < p implies (#[trigger] out[j]).0 != key by {
                assert(out[j] == e[j]);
            }
        }
        lemma_position(out, key, p);
    } else {
        let p: int = e.len() as int;
        assert(is_first(out, key, p)) by {
            assert forall|j: int| 0 <= j < p implies (#[trigger] out[j]).0 != key by {
                assert(out[j] == e[j]);
            }
        }
        lemma_position(out, key, p);
    }
}

/// Storing a value under one key leaves what is found under every other key.
pub proof fn lemma_lookup_other(e: Entries, key: Seq<u8>, value: Value, other: Seq<u8>)
    requires
        other != key,
    ensures
        has_key(with_entry(e, key, value), other) == has_key(e, other),
        lookup(with_entry(e, key, value), other) == lookup(e, other),
{
    let out = with_entry(e, key, value);
    if has_key(e, key) {
        lemma_position_found(e, key);
    }
    if has_key(e, other) {
        lemma_position_found(e, other);
        let p = position(e, other);
        assert(out[p] == e[p]);
        assert(is_first(out, other, p)) by {
            assert forall|j: int| 0 <= j < p implies (#[trigger] out[j]).0 != other by {
                if out[j] != e[j] {
                    assert(out[j].0 == key);
                }
            }
        }
        lemma_position(out, other, p);
    } else {
        if has_key(out, other) {
            let i = choose|i: int| 0 <= i < out.len() && (#[trigger] out[i]).0 == other;
            assert(i < e.len());
            assert(out[i] == e[i]);
            assert(e[i].0 == other);
        }
    }
}

/// A length as the integer that a dictionary stores for it.
pub open spec fn length_value(n: nat) -> i64 {
    if n <= i64::MAX {
        n as i64
    } else {
        i64::MAX
    }
}

/// After a key is removed from entries with unique keys, a lookup of the
/// key finds nothing.
pub proof fn lemma_lookup_removed(e: Entries, key: Seq<u8>)
    requires
        keys_unique(e),
    ensures
        !has_key(without_key(e, key), key),
{
    let out = without_key(e, key);
    if has_key(e, key) {
        lemma_position_found(e, key);
        let p = position(e, key);
        if has_key(out, key) {
            let i = choose|i: int| 0 <= i < out.len() && (#[trigger] out[i]).0 == key;
            if i == p {
                assert(out[i] == e[e.len() - 1]);
                assert(e[p].0 != e[e.len() - 1].0);
            } else {
                assert(out[i] == e[i]);
                if i < p {
                    assert(e[i].0 != e[p].0);
                } else {
                    assert(e[p].0 != e[i].0);
                }
            }
        }
    }
}

/// Removing one key from entries with unique keys leaves what is found
/// under every other key.
pub proof fn lemma_lookup_after_removal(e: Entries, key: Seq<u8>, other: Seq<u8>)
    requires
        keys_unique(e),
        other != key,
    ensures
        lookup(without_key(e, key), other) == lookup(e, other),
{
    let out = without_key(e, key);
    if has_key(e, key) {
        lemma_position_found(e, key);
        let p = position(e, key);
        let last: int = e.len() - 1;
        if has_key(e, other) {
            lemma_position_found(e, other);
            let q = position(e, other);
            let q2 = if q == last {
                p
            } else {
                q
            };
            assert(out[q2] == e[q]);
            assert(is_first(out, other, q2)) by {
                assert forall|j: int| 0 <= j < q2 implies (#[trigger] out[j]).0 != other by {
                    if j == p {
                        assert(out[j] == e[last]);
                        if q != last {
                            assert(e[q].0 != e[last].0);
                        }
                    } else {
                        assert(out[j] == e[j]);
                        if j < q {
                            assert(e[j].0 != e[q].0);
                        } else if q < j {
                            assert(e[q].0 != e[j].0);
                        }
                    }
                }
            }
            lemma_position(out, other, q2);
        } else if has_key(out, other) {
            let i = choose|i: int| 0 <= i < out.len() && (#[trigger] out[i]).0 == other;
            if i == p {
                assert(out[i] == e[last]);
                assert(e[last].0 == other);
            } else {
                assert(out[i] == e[i]);
                assert(e[i].0 == other);
            }
        }
    }
}

/// A newly made stream: the dictionary records the payload's length, the
/// stream may be compressed and has no position in a file.
pub open spec fn stream_value(dict: Entries, content: Seq<u8>) -> Value {
    Value::Stream {
        dict: with_entry(dict, length_key(), Value::Integer(length_value(content.len()))),
        content,
        allows_compression: true,
        start_position: None,
    }
}

/// Whether two byte strings are equal.
pub fn bytes_eq(a: &[u8], b: &[u8]) -> (r: bool)
    ensures
        r == (a@ == b@),
{
    if a.len() != b.len() {
        return false;
    }
    let mut i: usize = 0;
    while i < a.len()
        invariant
            a.len() == b.len(),
            i <= a.len(),
            forall|k: int| 0 <= k < i ==> a@[k] == b@[k],
        decreases a.len() - i,
    {
        if a[i] != b[i] {
            return false;
        }
        i += 1;
    }
    assert(a@ =~= b@);
    true
}

/// A copy of a byte string.
pub fn bytes_copy(a: &[u8]) -> (r: Vec<u8>)
    ensures
        r@ == a@,
{
    let mut out: Vec<u8> = Vec::new();
    let mut i: usize = 0;
    while i < a.len()
        invariant
            i <= a.len(),
            out@ == a@.take(i as int),
        decreases a.len() - i,
    {
        out.push(a[i]);
        i += 1;
    }
    assert(a@.take(a.len() as int) =~= a@);
    out
}

impl Dict {
    /// No key occurs twice.
    #[verifier::type_invariant]
    spec fn well_formed(self) -> bool {
        keys_unique(self@)
    }

    /// An empty dictionary.
    pub fn new() -> (d: Dict)
        ensures
            d@ == Seq::<(Seq<u8>, Value)>::empty(),
    {
        Dict { entries: Vec::new() }
    }

    /// The number of entries. No two of them share a key.
    pub fn len(&self) -> (n: usize)
        ensures
            n == self@.len(),
            keys_unique(self@),
    {
        proof {
            use_type_invariant(self);
        }
        self.entries.len()
    }

    /// Whether the dictionary has no entry.
    pub fn is_empty(&self) -> (b: bool)
        ensures
            b == (self@.len() == 0),
    {
        self.entries.len() == 0
    }

    /// The key of the entry at place `i`.
    pub fn key(&self, i: usize) -> (k: &Vec<u8>)
        requires
            i < self@.len(),
        ensures
            k@ == self@[i as int].0,
    {
        &self.entries[i].0
    }

    /// The value of the entry at place `i`.
    pub fn value(&self, i: usize) -> (v: &ObjectValue)
        requires
            i < self@.len(),
        ensures
            v@ == self@[i as int].1,
            decreases_to!(self => v),
    {
        &self.entries[i].1
    }

    /// The place of the entry under `key`.
    fn find(&self, key: &[u8]) -> (r: Option<usize>)
        ensures
            match r {
                Some(i) => i < self@.len() && self@[i as int].0 == key@ && position(self@, key@) == i
                    && has_key(self@, key@),
                None => !has_key(self@, key@),
            },
    {
        let mut i: usize = 0;
        while i < self.entries.len()
            invariant
                i <= self.entries.len(),
                self@.len() == self.entries.len(),
                forall|k: int| 0 <= k < i ==> (#[trigger] self@[k]).0 != key@,
            decreases self.entries.len() - i,
        {
            if bytes_eq(self.entries[i].0.as_slice(), key) {
                proof {
                    lemma_position(self@, key@, i as int);
                }
                return Some(i);
            }
            i += 1;
        }
        None
    }

    /// Whether the dictionary has an entry under `key`.
    pub fn has(&self, key: &[u8]) -> (b: bool)
        ensures
            b == has_key(self@, key@),
    {
        self.find(key).is_some()
    }

    /// The value stored under `key`.
    pub fn get(&self, key: &[u8]) -> (r: Option<&ObjectValue>)
        ensures
            match r {
                Some(v) => lookup(self@, key@) == Some(v@),
                None => lookup(self@, key@) is None,
            },
    {
        match self.find(key) {
            Some(i) => Some(&self.entries[i].1),
            None => None,
        }
    }

    /// Stores `value` under `key`: an existing entry keeps its place and gets
    /// the new value, a new entry goes to the end.
    pub fn set(&mut self, key: Vec<u8>, value: ObjectValue)
        ensures
            final(self)@ == with_entry(old(self)@, key@, value@),
            lookup(final(self)@, key@) == Some(value@),
            forall|other: Seq<u8>|
                other != key@ ==> #[trigger] lookup(final(self)@, other) == lookup(old(self)@, other),
    {
        proof {
            use_type_invariant(&*self);
            lemma_lookup_stored(self@, key@, value@);
            assert forall|other: Seq<u8>| other != key@ implies #[trigger] lookup(
                with_entry(self@, key@, value@),
                other,
            ) == lookup(self@, other) by {
                lemma_lookup_other(self@, key@, value@, other);
            }
        }
        let ghost before = self@;
        let found = self.find(key.as_slice());
        let mut entries: Vec<(Vec<u8>, ObjectValue)> = Vec::new();
        std::mem::swap(&mut self.entries, &mut entries);
        match found {
            Some(i) => {
                entries.set(i, (key, value));
            },
            None => {
                entries.push((key, value));
            },
        }
        proof {
            let after = (Dict { entries })@;
            assert(after =~= with_entry(before, key@, value@));
            assert(keys_unique(after)) by {
                assert forall|a: int, b: int| 0 <= a < b < after.len() implies (#[trigger] after[a]).0
                    != (#[trigger] after[b]).0 by {
                    if found is Some {
                        assert(before[a].0 != before[b].0);
                    } else if b == before.len() {
                        assert(before[a].0 != key@);
                    } else {
                        assert(before[a].0 != before[b].0);
                    }
                }
            }
        }
        self.entries = entries;
    }

    /// Removes the entry under `key` and returns its value; the last entry
    /// takes the freed place.
    pub fn remove(&mut self, key: &[u8]) -> (r: Option<ObjectValue>)
        ensures
            final(self)@ == without_key(old(self)@, key@),
            match r {
                Some(v) => lookup(old(self)@, key@) == Some(v@),
                None => lookup(old(self)@, key@) is None,
            },
            lookup(final(self)@, key@) is None,
            forall|other: Seq<u8>|
                other != key@ ==> #[trigger] lookup(final(self)@, other) == lookup(old(self)@, other),
    {
        proof {
            use_type_invariant(&*self);
            lemma_lookup_removed(self@, key@);
            assert forall|other: Seq<u8>| other != key@ implies #[trigger] lookup(
                without_key(self@, key@),
                other,
            ) == lookup(self@, other) by {
                lemma_lookup_after_removal(self@, key@, other);
            }
        }
        let ghost before = self@;
        match self.find(key) {
            Some(i) => {
                let mut entries: Vec<(Vec<u8>, ObjectValue)> = Vec::new();
                std::mem::swap(&mut self.entries, &mut entries);
                let removed = entries.swap_remove(i);
                proof {
                    let after = (Dict { entries })@;
                    assert(after =~= without_key(before, key@));
                    assert forall|a: int, b: int| 0 <= a < b < after.len() implies (
                    #[trigger] after[a]).0 != (#[trigger] after[b]).0 by {
                        let last: int = before.len() - 1;
                        if a == i {
                            assert(before[b].0 != before[last].0);
                        } else if b == i {
                            assert(before[a].0 != before[last].0);
                        } else {
                            assert(before[a].0 != before[b].0);
                        }
                    }
                }
                self.entries = entries;
                Some(removed.1)
            },
            None => None,
        }
    }
}

impl Stream {
    /// A stream around `dict` and `content`: the dictionary records the
    /// payload's length under `Length`.
    pub fn new(dict: Dict, content: Vec<u8>) -> (s: Stream)
        ensures
            ObjectValue::Stream(s)@ == stream_value(dict@, content@),
    {
        let mut dict = dict;
        let n: i64 = length_as_integer(content.len());
        dict.set(length_key_bytes(), ObjectValue::Integer(n));
        Stream { dict, content, allows_compression: true, start_position: None }
    }
}

/// The dictionary of a stream whose payload is replaced by `n` plain bytes:
/// what was said of filters is gone, and the new length is recorded.
pub open spec fn plain_dict(dict: Entries, n: nat) -> Entries {
    with_entry(
        without_key(without_key(dict, decode_parms_key()), filter_key()),
        length_key(),
        Value::Integer(length_value(n)),
    )
}

impl Stream {
    /// Replaces the payload by plain bytes: removes what the dictionary says
    /// of filters and records the new length.
    pub fn set_plain_content(&mut self, content: Vec<u8>)
        ensures
            final(self).dict@ == plain_dict(old(self).dict@, content@.len()),
            final(self).content@ == content@,
            final(self).allows_compression == old(self).allows_compression,
            final(self).start_position == old(self).start_position,
    {
        let _ = self.dict.remove(decode_parms_key_bytes().as_slice());
        let _ = self.dict.remove(filter_key_bytes().as_slice());
        self.dict.set(length_key_bytes(), ObjectValue::Integer(length_as_integer(content.len())));
        self.content = content;
    }
}

/// A length as the integer that a dictionary stores for it.
pub fn length_as_integer(n: usize) -> (r: i64)
    ensures
        r == length_value(n as nat),
{
    if n as u64 <= 0x7fff_ffff_ffff_ffffu64 {
        n as i64
    } else {
        i64::MAX
    }
}

} // verus!
