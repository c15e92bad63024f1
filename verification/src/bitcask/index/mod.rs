//! The in-memory index: where the latest record of each key is stored.
use vstd::prelude::*;
use crate::bitcask::data::RecordPos;

pub mod order;
pub mod btree;

verus! {

/// A map from keys to the position of their latest record.
pub trait Indexer {
    /// The map the index holds.
    spec fn index_view(&self) -> Map<Seq<u8>, RecordPos>;

    /// Maps `key` to `pos`; true when `key` was not in the index before.
    #[allow(non_snake_case)]
    fn Put(&mut self, key: Vec<u8>, pos: RecordPos) -> (r: bool)
        ensures
            final(self).index_view() == old(self).index_view().insert(key@, pos),
            r == !old(self).index_view().contains_key(key@),
    ;

    /// The position `key` maps to, if any.
    #[allow(non_snake_case)]
    fn Get(&self, key: Vec<u8>) -> (r: Option<RecordPos>)
        ensures
            r == (if self.index_view().contains_key(key@) {
                Some(self.index_view()[key@])
            } else {
                None
            }),
    ;

    /// Removes `key`; true when it was in the index.
    #[allow(non_snake_case)]
    fn Delete(&mut self, key: Vec<u8>) -> (r: bool)
        ensures
            final(self).index_view() == old(self).index_view().remove(key@),
            r == old(self).index_view().contains_key(key@),
    ;
}

/// After `Put(key, pos)` the index maps `key` to `pos` and every other key
/// as before.
pub proof fn lemma_put_then_get<I: Indexer>(before: &I, after: &I, key: Seq<u8>, pos: RecordPos, other: Seq<u8>)
    requires
        after.index_view() == before.index_view().insert(key, pos),
    ensures
        after.index_view().contains_key(key),
        after.index_view()[key] == pos,
        other != key ==> (after.index_view().contains_key(other) == before.index_view().contains_key(other)),
        other != key && before.index_view().contains_key(other) ==> after.index_view()[other] == before.index_view()[other],
{
}

/// After `Delete(key)` the index no longer has `key` and keeps every other key.
pub proof fn lemma_delete_then_get<I: Indexer>(before: &I, after: &I, key: Seq<u8>, other: Seq<u8>)
    requires
        after.index_view() == before.index_view().remove(key),
    ensures
        !after.index_view().contains_key(key),
        other != key ==> (after.index_view().contains_key(other) == before.index_view().contains_key(other)),
        other != key && before.index_view().contains_key(other) ==> after.index_view()[other] == before.index_view()[other],
{
}

/// A new, empty index.
#[allow(non_snake_case)]
pub fn NewIndexer() -> (idx: btree::Btree)
    ensures
        idx.index_view() == Map::<Seq<u8>, RecordPos>::empty(),
{
    btree::Btree::new()
}

} // verus!
