//! The backend-facing contract and the reference in-memory backend.
//!
//! Any storage engine that can enumerate its raw key/value pairs and
//! accept raw writes can sit under the adapter.  [`PebbleDb`] is the
//! reference implementation, an insertion-ordered in-memory map used
//! for interchangeability testing.

use vstd::prelude::*;

verus! {

/// The minimal capability contract a pluggable storage engine must
/// satisfy.  `contents` is the engine's abstract state, a map from raw
/// key bytes to raw value bytes; the methods promise exactly how they
/// read and change it.  No ordering of `iter`'s output is promised;
/// callers needing order must sort.
pub trait DiskIter: Sized + Send + Sync + Clone + Default + core::fmt::Debug {
    /// The raw key/value pairs currently stored.
    spec fn contents(&self) -> Map<Seq<u8>, Seq<u8>>;

    /// Every stored pair, each exactly once, in no promised order.
    fn iter(&self) -> (r: Vec<(Vec<u8>, Vec<u8>)>)
        ensures
            forall|i: int, j: int| 0 <= i < j < r@.len() ==> r@[i].0@ != r@[j].0@,
            forall|i: int|
                0 <= i < r@.len() ==> self.contents().contains_key(#[trigger] r@[i].0@)
                    && self.contents()[r@[i].0@] == r@[i].1@,
            forall|k: Seq<u8>|
                self.contents().contains_key(k) ==> exists|i: int|
                    0 <= i < r@.len() && #[trigger] r@[i].0@ == k,
    ;

    /// Stores `value` under `key`, replacing any previous value.
    fn put(&mut self, key: Vec<u8>, value: Vec<u8>)
        ensures
            final(self).contents() == old(self).contents().insert(key@, value@),
    ;

    /// Removes the pair stored under `key`, if any.
    fn delete(&mut self, key: &Vec<u8>)
        ensures
            final(self).contents() == old(self).contents().remove(key@),
    ;
}

#[verifier::external_type_specification]
#[verifier::external_body]
#[verifier::reject_recursive_types(K)]
#[verifier::reject_recursive_types(V)]
#[verifier::reject_recursive_types(S)]
pub struct ExIndexMap<K, V, S>(indexmap::IndexMap<K, V, S>);

/// A raw store holding nothing.
pub open spec fn empty_contents() -> Map<Seq<u8>, Seq<u8>> {
    Map::empty()
}

/// The raw pairs an [`indexmap::IndexMap`] holds, one value per key.
pub uninterp spec fn index_map_contents(m: indexmap::IndexMap<Vec<u8>, Vec<u8>>) -> Map<
    Seq<u8>,
    Seq<u8>,
>;

/// Relies on indexmap::IndexMap::new: creates an empty map.
#[verifier::external_body]
fn imap_new() -> (r: indexmap::IndexMap<Vec<u8>, Vec<u8>>)
    ensures
        index_map_contents(r) == empty_contents(),
{
    indexmap::IndexMap::new()
}

/// Relies on indexmap::IndexMap::insert: stores the value under the
/// key, updating in place if an equal key is already present.
#[verifier::external_body]
fn imap_insert(m: &mut indexmap::IndexMap<Vec<u8>, Vec<u8>>, key: Vec<u8>, value: Vec<u8>)
    ensures
        index_map_contents(*final(m)) == index_map_contents(*old(m)).insert(key@, value@),
{
    m.insert(key, value);
}

/// Relies on indexmap::IndexMap::shift_remove: removes the pair whose
/// key equals `key`, if any.
#[verifier::external_body]
fn imap_remove(m: &mut indexmap::IndexMap<Vec<u8>, Vec<u8>>, key: &Vec<u8>)
    ensures
        index_map_contents(*final(m)) == index_map_contents(*old(m)).remove(key@),
{
    m.shift_remove(key);
}

/// Relies on indexmap::IndexMap::iter: yields each stored pair exactly
/// once.
#[verifier::external_body]
fn imap_pairs(m: &indexmap::IndexMap<Vec<u8>, Vec<u8>>) -> (r: Vec<(Vec<u8>, Vec<u8>)>)
    ensures
        forall|i: int, j: int| 0 <= i < j < r@.len() ==> r@[i].0@ != r@[j].0@,
        forall|i: int|
            0 <= i < r@.len() ==> index_map_contents(*m).contains_key(#[trigger] r@[i].0@)
                && index_map_contents(*m)[r@[i].0@] == r@[i].1@,
        forall|k: Seq<u8>|
            index_map_contents(*m).contains_key(k) ==> exists|i: int|
                0 <= i < r@.len() && #[trigger] r@[i].0@ == k,
{
    m.iter().map(|(k, v)| (k.clone(), v.clone())).collect()
}

/// Relies on indexmap::IndexMap::clone: copies every stored pair.
#[verifier::external_body]
fn imap_clone(m: &indexmap::IndexMap<Vec<u8>, Vec<u8>>) -> (r: indexmap::IndexMap<Vec<u8>, Vec<u8>>)
    ensures
        index_map_contents(r) == index_map_contents(*m),
{
    m.clone()
}

/// The reference in-memory backend: raw bytes in an insertion-ordered
/// map, no durability.
#[derive(Debug, PartialEq, Eq)]
pub struct PebbleDb {
    map: indexmap::IndexMap<Vec<u8>, Vec<u8>>,
}

impl PebbleDb {
    /// An empty backend.
    pub fn new() -> (r: Self)
        ensures
            r.contents() == empty_contents(),
    {
        PebbleDb { map: imap_new() }
    }
}

impl DiskIter for PebbleDb {
    closed spec fn contents(&self) -> Map<Seq<u8>, Seq<u8>> {
        index_map_contents(self.map)
    }

    fn iter(&self) -> (r: Vec<(Vec<u8>, Vec<u8>)>) {
        imap_pairs(&self.map)
    }

    fn put(&mut self, key: Vec<u8>, value: Vec<u8>) {
        imap_insert(&mut self.map, key, value);
    }

    fn delete(&mut self, key: &Vec<u8>) {
        imap_remove(&mut self.map, key);
    }
}

impl Clone for PebbleDb {
    /// A duplicate holding the same raw pairs.
    fn clone(&self) -> (r: Self)
        ensures
            r.contents() == self.contents(),
    {
        PebbleDb { map: imap_clone(&self.map) }
    }
}

impl Default for PebbleDb {
    /// An empty backend.
    fn default() -> (r: Self)
        ensures
            r.contents() == empty_contents(),
    {
        PebbleDb::new()
    }
}

} // verus!
