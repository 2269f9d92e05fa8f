//! One worker's map from key to summary, over hashbrown's `HashMap`.

use vstd::prelude::*;
use crate::array::Array;
use crate::record::Record;

verus! {

/// A worker's private map from key to the summary of that key's readings.
#[verifier::external_body]
pub struct ShardMap {
    inner: hashbrown::HashMap<Array, Record>,
}

/// What a shard map holds, keyed by the keys' bytes. `Array`'s `==` compares
/// bytes and it hashes as its bytes do, so the map holds one entry per byte
/// string and can be searched with the bytes themselves.
pub uninterp spec fn shard_contents(m: ShardMap) -> Map<Seq<u8>, Record>;

impl ShardMap {
    /// Relies on `hashbrown::HashMap::with_capacity`: a new map is empty.
    #[verifier::external_body]
    pub fn new() -> (r: ShardMap)
        ensures
            shard_contents(r) == no_entries(),
    {
        ShardMap { inner: hashbrown::HashMap::with_capacity(1000) }
    }

    /// Relies on `hashbrown::HashMap::get`: the value stored under the key
    /// with these bytes, if any.
    #[verifier::external_body]
    pub fn get(&self, key: &[u8]) -> (r: Option<Record>)
        ensures
            shard_contents(*self).contains_key(key@) ==> r == Some(shard_contents(*self)[key@]),
            !shard_contents(*self).contains_key(key@) ==> r is None,
    {
        self.inner.get(key).copied()
    }

    /// Relies on `hashbrown::HashMap::insert`: afterwards the key maps to
    /// `value`, and every other entry stays.
    #[verifier::external_body]
    pub fn insert(&mut self, key: Array, value: Record)
        ensures
            shard_contents(*final(self)) == shard_contents(*old(self)).insert(key@, value),
    {
        self.inner.insert(key, value);
    }

    /// Relies on `hashbrown::HashMap::get_mut`: where a key with these bytes
    /// is present, its value becomes `value`; nothing else changes.
    #[verifier::external_body]
    pub fn replace(&mut self, key: &[u8], value: Record) -> (r: bool)
        ensures
            r == shard_contents(*old(self)).contains_key(key@),
            r ==> shard_contents(*final(self)) == shard_contents(*old(self)).insert(key@, value),
            !r ==> shard_contents(*final(self)) == shard_contents(*old(self)),
    {
        match self.inner.get_mut(key) {
            Some(slot) => {
                *slot = value;
                true
            },
            None => false,
        }
    }

    /// Relies on `hashbrown::HashMap::into_iter`: every entry once, in an
    /// order that is not specified.
    #[verifier::external_body]
    pub fn into_entries(self) -> (r: Vec<(Array, Record)>)
        ensures
            entries_are(r@, shard_contents(self)),
    {
        self.inner.into_iter().collect()
    }
}

/// The contents of a map with no entry.
pub open spec fn no_entries() -> Map<Seq<u8>, Record> {
    Map::empty()
}

/// `e` lists the entries of `m`, each once.
pub open spec fn entries_are(e: Seq<(Array, Record)>, m: Map<Seq<u8>, Record>) -> bool {
    &&& forall|i: int, j: int| 0 <= i < j < e.len() ==> e[i].0@ != e[j].0@
    &&& forall|i: int| 0 <= i < e.len() ==> m.contains_key(#[trigger] e[i].0@) && m[e[i].0@] == e[i].1
    &&& forall|k: Seq<u8>| m.contains_key(k) ==> exists|i: int| 0 <= i < e.len() && #[trigger] e[i].0@ == k
}

} // verus!
