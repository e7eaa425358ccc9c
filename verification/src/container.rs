use crate::names::{encrypt_key, encrypt_key_bytes, object_stream_tag, type_key};
use crate::object::{lookup, Dict, Entries, ObjectId, ObjectValue, Value};
use std::collections::BTreeMap;
use vstd::prelude::*;
use vstd::std_specs::iter::IteratorSpec;

verus! {

/// How many references `get_object` follows before it gives up.
pub const DEREF_LIMIT: usize = 128;

/// The object table of a container, as a map from identifier to content.
pub type Table = Map<ObjectId, Value>;

/// A container held in memory: an object table, a trailer, and the largest
/// object number handed out so far.
#[derive(Debug, PartialEq)]
pub struct Container {
    pub version: String,
    pub trailer: Dict,
    pub objects: BTreeMap<ObjectId, ObjectValue>,
    pub max_id: u32,
}

/// What a container holds, as mathematical values: its version, its
/// trailer, its object table and the largest object number handed out.
pub struct Content {
    pub version: Seq<char>,
    pub trailer: Entries,
    pub table: Table,
    pub max_id: u32,
}

/// The value reached from `v` by following references through `table`, at
/// most `hops` of them; `None` where a reference leads nowhere or the chain is
/// longer than that.
pub open spec fn resolved(table: Table, v: Value, hops: nat) -> Option<Value>
    decreases hops,
{
    match v {
        Value::Reference(r) => if hops == 0 || !table.contains_key(r) {
            None
        } else {
            resolved(table, table[r], (hops - 1) as nat)
        },
        _ => Some(v),
    }
}

/// What a lookup of `id` finds: the object stored under `id`, with references
/// followed.
pub open spec fn found(table: Table, id: ObjectId) -> Option<Value> {
    if table.contains_key(id) {
        resolved(table, table[id], DEREF_LIMIT as nat)
    } else {
        None
    }
}

/// Whether a container says that it is encrypted: the trailer's `Encrypt`
/// is a reference, and a lookup of it finds a dictionary.
pub open spec fn says_encrypted(held: Content) -> bool {
    match lookup(held.trailer, encrypt_key()) {
        Some(Value::Reference(id)) => found(held.table, id) matches Some(Value::Dictionary(_)),
        _ => false,
    }
}

/// Whether a value is a stream whose dictionary types it as one that packs
/// other objects.
pub open spec fn is_object_stream(v: Value) -> bool {
    v matches Value::Stream { dict, .. } && lookup(dict, type_key()) == Some(
        Value::Name(object_stream_tag()),
    )
}

/// Whether a container stores a stream that packs other objects.
pub open spec fn holds_object_stream(held: Content) -> bool {
    exists|id: ObjectId| held.table.contains_key(id) && is_object_stream(#[trigger] held.table[id])
}

/// The table holds something under exactly the identifiers under which
/// the container stores an object.
pub proof fn lemma_table_dom(doc: Container)
    ensures
        doc.table().dom() == doc.objects@.dom(),
{
    assert(doc.table().dom() =~= doc.objects@.dom());
}

impl Container {
    /// The object table as a map of contents.
    pub open spec fn table(&self) -> Table {
        self.objects@.map_values(|o: ObjectValue| o@)
    }

    /// All that the container holds.
    pub open spec fn content(&self) -> Content {
        Content {
            version: self.version@,
            trailer: self.trailer@,
            table: self.table(),
            max_id: self.max_id,
        }
    }

    /// No object number in the table is above `max_id`, so that the next
    /// identifier handed out is unused.
    pub open spec fn ids_bounded(&self) -> bool {
        forall|id: ObjectId| self.objects@.contains_key(id) ==> id.0 <= self.max_id
    }

    /// An empty container of version 1.4.
    pub fn new() -> (doc: Container)
        ensures
            doc.version@ == "1.4"@,
            doc.trailer@.len() == 0,
            doc.objects@ == Map::<ObjectId, ObjectValue>::empty(),
            doc.max_id == 0,
    {
        Container {
            version: "1.4".to_string(),
            trailer: Dict::new(),
            objects: BTreeMap::new(),
            max_id: 0,
        }
    }

    /// An empty container of the given version.
    pub fn with_version(version: &str) -> (doc: Container)
        ensures
            doc.version@ == version@,
            doc.trailer@.len() == 0,
            doc.objects@ == Map::<ObjectId, ObjectValue>::empty(),
            doc.max_id == 0,
    {
        Container {
            version: version.to_string(),
            trailer: Dict::new(),
            objects: BTreeMap::new(),
            max_id: 0,
        }
    }

    /// Hands out the next unused identifier.
    pub fn new_object_id(&mut self) -> (id: ObjectId)
        requires
            old(self).max_id < u32::MAX,
        ensures
            id == ((old(self).max_id + 1) as u32, 0u16),
            final(self).max_id == old(self).max_id + 1,
            final(self).objects == old(self).objects,
            final(self).trailer == old(self).trailer,
            final(self).version == old(self).version,
    {
        self.max_id = self.max_id + 1;
        (self.max_id, 0)
    }

    /// Stores `object` under a new identifier and returns that identifier.
    pub fn add_object(&mut self, object: ObjectValue) -> (id: ObjectId)
        requires
            old(self).max_id < u32::MAX,
        ensures
            id == ((old(self).max_id + 1) as u32, 0u16),
            final(self).max_id == old(self).max_id + 1,
            final(self).objects@ == old(self).objects@.insert(id, object),
            final(self).trailer == old(self).trailer,
            final(self).version == old(self).version,
    {
        self.max_id = self.max_id + 1;
        let id = (self.max_id, 0);
        self.objects.insert(id, object);
        id
    }

    /// Whether the table holds an object under `id`.
    pub fn has_object(&self, id: ObjectId) -> (b: bool)
        ensures
            b == self.objects@.contains_key(id),
    {
        self.objects.contains_key(&id)
    }

    /// The object stored under `id`, with references followed.
    pub fn get_object(&self, id: ObjectId) -> (r: Option<&ObjectValue>)
        ensures
            match r {
                Some(o) => found(self.table(), id) == Some(o@),
                None => found(self.table(), id) is None,
            },
    {
        let mut object: &ObjectValue = match self.objects.get(&id) {
            Some(o) => o,
            None => { return None; },
        };
        let mut hops: usize = 0;
        loop
            invariant
                hops <= DEREF_LIMIT,
                found(self.table(), id) == resolved(self.table(), object@, (DEREF_LIMIT - hops) as nat),
            decreases DEREF_LIMIT - hops,
        {
            match object {
                ObjectValue::Reference(r) => {
                    if hops >= DEREF_LIMIT {
                        return None;
                    }
                    match self.objects.get(r) {
                        Some(o) => {
                            object = o;
                        },
                        None => { return None; },
                    }
                    hops = hops + 1;
                },
                _ => { return Some(object); },
            }
        }
    }

    /// Whether the container says that it is encrypted.
    pub fn is_encrypted(&self) -> (b: bool)
        ensures
            b == says_encrypted(self.content()),
    {
        match self.trailer.get(encrypt_key_bytes().as_slice()) {
            Some(ObjectValue::Reference(id)) => match self.get_object(*id) {
                Some(ObjectValue::Dictionary(_)) => true,
                _ => false,
            },
            _ => false,
        }
    }

    /// The identifiers of all stored objects, each once.
    pub fn object_ids(&self) -> (ids: Vec<ObjectId>)
        ensures
            ids@.to_set() == self.objects@.dom(),
            ids@.no_duplicates(),
    {
        let mut ids: Vec<ObjectId> = Vec::new();
        for id in it: self.objects.keys()
            invariant
                it.seq() == self.objects.keys().remaining(),
                ids@.len() == it.index(),
                forall|k: int| 0 <= k < ids@.len() ==> ids@[k] == *it.seq()[k],
        {
            ids.push(*id);
        }
        proof {
            let all = self.objects.keys().remaining();
            assert(ids@ =~= all.unref());
            assert forall|a: int, b: int| 0 <= a < b < ids@.len() implies ids@[a] != ids@[b] by {
                assert(all[a] != all[b]);
            }
        }
        ids
    }
}

} // verus!
