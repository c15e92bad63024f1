//! The index as a vector of entries kept sorted by key.
use vstd::prelude::*;
use crate::bitcask::data::RecordPos;
use crate::bitcask::index::Indexer;
use crate::bitcask::index::order::{lex_lt, compare_keys, lemma_lex_transitive, lemma_lex_irreflexive};

verus! {

/// An index whose entries are sorted by key, each key at most once.
pub struct Btree {
    tree: Vec<(Vec<u8>, RecordPos)>,
}

/// Key of entry `i` of `t`.
pub open spec fn key_of(t: Seq<(Vec<u8>, RecordPos)>, i: int) -> Seq<u8> {
    t[i].0@
}

/// Keys strictly increase along `t`.
pub open spec fn sorted_keys(t: Seq<(Vec<u8>, RecordPos)>) -> bool {
    forall|i: int, j: int| 0 <= i < j < t.len() ==> lex_lt(#[trigger] key_of(t, i), #[trigger] key_of(t, j))
}

/// Whether some entry of `t` has key `k`.
pub open spec fn has_key(t: Seq<(Vec<u8>, RecordPos)>, k: Seq<u8>) -> bool {
    exists|i: int| 0 <= i < t.len() && #[trigger] key_of(t, i) == k
}

/// The map from each key of `t` to its position.
pub open spec fn entries_map(t: Seq<(Vec<u8>, RecordPos)>) -> Map<Seq<u8>, RecordPos> {
    Map::new(
        |k: Seq<u8>| has_key(t, k),
        |k: Seq<u8>| t[choose|i: int| 0 <= i < t.len() && #[trigger] key_of(t, i) == k].1,
    )
}

/// In a sorted vector, entry `i` is what its key maps to.
proof fn lemma_entry(t: Seq<(Vec<u8>, RecordPos)>, i: int)
    requires
        sorted_keys(t),
        0 <= i < t.len(),
    ensures
        entries_map(t).contains_key(key_of(t, i)),
        entries_map(t)[key_of(t, i)] == t[i].1,
{
    let k = key_of(t, i);
    assert(has_key(t, k));
    let j = choose|j: int| 0 <= j < t.len() && #[trigger] key_of(t, j) == k;
    if j < i {
        assert(lex_lt(key_of(t, j), key_of(t, i)));
        lemma_lex_irreflexive(k);
    } else if j > i {
        assert(lex_lt(key_of(t, i), key_of(t, j)));
        lemma_lex_irreflexive(k);
    }
}

/// A key that sorts strictly between the entries before `p` and those from
/// `p` on is not in the map.
proof fn lemma_absent(t: Seq<(Vec<u8>, RecordPos)>, k: Seq<u8>, p: int)
    requires
        0 <= p <= t.len(),
        forall|j: int| 0 <= j < p ==> lex_lt(#[trigger] key_of(t, j), k),
        forall|j: int| p <= j < t.len() ==> lex_lt(k, #[trigger] key_of(t, j)),
    ensures
        !entries_map(t).contains_key(k),
{
    if has_key(t, k) {
        let j = choose|j: int| 0 <= j < t.len() && #[trigger] key_of(t, j) == k;
        lemma_lex_irreflexive(k);
        assert(lex_lt(key_of(t, j), k) || lex_lt(k, key_of(t, j)));
    }
}

impl Btree {
    #[verifier::type_invariant]
    spec fn wf(&self) -> bool {
        sorted_keys(self.tree@)
    }

    /// The map from each key to its position.
    pub closed spec fn as_map(&self) -> Map<Seq<u8>, RecordPos> {
        entries_map(self.tree@)
    }

    /// An empty index.
    pub fn new() -> (b: Btree)
        ensures
            b.as_map() == Map::<Seq<u8>, RecordPos>::empty(),
    {
        let b = Btree { tree: Vec::new() };
        assert(entries_map(b.tree@) =~= Map::<Seq<u8>, RecordPos>::empty());
        b
    }

    /// The keys of the index, in increasing order.
    pub closed spec fn key_seq(&self) -> Seq<Seq<u8>> {
        Seq::new(self.tree@.len(), |i: int| key_of(self.tree@, i))
    }

    /// The keys of the index, in increasing order.
    pub fn keys(&self) -> (r: Vec<Vec<u8>>)
        ensures
            r@.len() == self.key_seq().len(),
            forall|i: int| 0 <= i < r@.len() ==> (#[trigger] r@[i])@ == self.key_seq()[i],
            forall|i: int, j: int| 0 <= i < j < self.key_seq().len() ==> lex_lt(
                #[trigger] self.key_seq()[i],
                #[trigger] self.key_seq()[j],
            ),
            forall|k: Seq<u8>| #[trigger] self.as_map().contains_key(k) <==> self.key_seq().contains(k),
    {
        proof {
            use_type_invariant(self);
            let t = self.tree@;
            assert forall|k: Seq<u8>| #[trigger] self.as_map().contains_key(k) <==> self.key_seq().contains(k) by {
                if self.as_map().contains_key(k) {
                    let j = choose|j: int| 0 <= j < t.len() && #[trigger] key_of(t, j) == k;
                    assert(self.key_seq()[j] == k);
                }
                if self.key_seq().contains(k) {
                    let j = choose|j: int| 0 <= j < self.key_seq().len() && self.key_seq()[j] == k;
                    assert(key_of(t, j) == k);
                    assert(has_key(t, k));
                }
            }
        }
        let mut r: Vec<Vec<u8>> = Vec::new();
        let mut i: usize = 0;
        while i < self.tree.len()
            invariant
                i <= self.tree@.len(),
                r@.len() == i,
                forall|j: int| 0 <= j < i ==> (#[trigger] r@[j])@ == key_of(self.tree@, j),
            decreases self.tree@.len() - i,
        {
            let k = &self.tree[i].0;
            r.push(crate::bitcask::data::copy_range(k.as_slice(), 0, k.len()));
            i = i + 1;
        }
        r
    }

    /// Finds `key`: `(true, i)` when entry `i` has it, else `(false, i)`
    /// with `i` the place where it would go.
    fn search(&self, key: &[u8]) -> (r: (bool, usize))
        ensures
            r.1 <= self.tree@.len(),
            r.0 ==> r.1 < self.tree@.len() && key_of(self.tree@, r.1 as int) == key@,
            !r.0 ==> forall|j: int| 0 <= j < r.1 ==> lex_lt(#[trigger] key_of(self.tree@, j), key@),
            !r.0 ==> forall|j: int| r.1 <= j < self.tree@.len() ==> lex_lt(key@, #[trigger] key_of(self.tree@, j)),
    {
        proof {
            use_type_invariant(self);
        }
        let mut lo: usize = 0;
        let mut hi: usize = self.tree.len();
        while lo < hi
            invariant
                sorted_keys(self.tree@),
                lo <= hi <= self.tree@.len(),
                forall|j: int| 0 <= j < lo ==> lex_lt(#[trigger] key_of(self.tree@, j), key@),
                forall|j: int| hi <= j < self.tree@.len() ==> lex_lt(key@, #[trigger] key_of(self.tree@, j)),
            decreases hi - lo,
        {
            let mid = lo + (hi - lo) / 2;
            let c = compare_keys(self.tree[mid].0.as_slice(), key);
            if c == 0 {
                return (true, mid);
            } else if c < 0 {
                proof {
                    assert forall|j: int| 0 <= j < mid + 1 implies lex_lt(#[trigger] key_of(self.tree@, j), key@) by {
                        if j < mid {
                            assert(lex_lt(key_of(self.tree@, j), key_of(self.tree@, mid as int)));
                            lemma_lex_transitive(key_of(self.tree@, j), key_of(self.tree@, mid as int), key@);
                        }
                    }
                }
                lo = mid + 1;
            } else {
                proof {
                    assert forall|j: int| mid <= j < self.tree@.len() implies lex_lt(key@, #[trigger] key_of(self.tree@, j)) by {
                        if j > mid {
                            assert(lex_lt(key_of(self.tree@, mid as int), key_of(self.tree@, j)));
                            lemma_lex_transitive(key@, key_of(self.tree@, mid as int), key_of(self.tree@, j));
                        }
                    }
                }
                hi = mid;
            }
        }
        (false, lo)
    }
}

impl View for Btree {
    type V = Map<Seq<u8>, RecordPos>;

    open spec fn view(&self) -> Map<Seq<u8>, RecordPos> {
        self.as_map()
    }
}

impl Indexer for Btree {
    open spec fn index_view(&self) -> Map<Seq<u8>, RecordPos> {
        self.as_map()
    }

    fn Put(&mut self, key: Vec<u8>, pos: RecordPos) -> (r: bool) {
        proof {
            use_type_invariant(&*self);
        }
        let ghost t = self.tree@;
        let ghost k = key@;
        let (found, idx) = self.search(key.as_slice());
        if found {
            proof {
                lemma_entry(t, idx as int);
            }
            let mut t_exec: Vec<(Vec<u8>, RecordPos)> = Vec::new();
            std::mem::swap(&mut t_exec, &mut self.tree);
            t_exec.set(idx, (key, pos));
            proof {
                let t2 = t_exec@;
                assert forall|i: int| 0 <= i < t2.len() implies #[trigger] key_of(t2, i) == key_of(t, i) by {}
                assert(sorted_keys(t2));
                assert forall|q: Seq<u8>| #[trigger] entries_map(t2).contains_key(q) == entries_map(t).insert(k, pos).contains_key(q) by {
                    if has_key(t, q) {
                        let j = choose|j: int| 0 <= j < t.len() && #[trigger] key_of(t, j) == q;
                        assert(key_of(t2, j) == q);
                    }
                    if has_key(t2, q) {
                        let j = choose|j: int| 0 <= j < t2.len() && #[trigger] key_of(t2, j) == q;
                        assert(key_of(t, j) == q);
                    }
                }
                assert forall|q: Seq<u8>| #[trigger] entries_map(t2).contains_key(q) implies entries_map(t2)[q] == entries_map(t).insert(k, pos)[q] by {
                    let j = choose|j: int| 0 <= j < t2.len() && #[trigger] key_of(t2, j) == q;
                    lemma_entry(t2, j);
                    assert(t2[j] == (if j == idx { (key, pos) } else { t[j] }));
                    if j != idx {
                        lemma_entry(t, j);
                        if j < idx {
                            assert(lex_lt(key_of(t, j), key_of(t, idx as int)));
                        } else {
                            assert(lex_lt(key_of(t, idx as int), key_of(t, j)));
                        }
                        lemma_lex_irreflexive(q);
                        assert(q != k);
                    }
                }
                assert(entries_map(t2) =~= entries_map(t).insert(k, pos));
            }
            self.tree = t_exec;
            false
        } else {
            proof {
                lemma_absent(t, k, idx as int);
            }
            let mut t_exec: Vec<(Vec<u8>, RecordPos)> = Vec::new();
            std::mem::swap(&mut t_exec, &mut self.tree);
            t_exec.insert(idx, (key, pos));
            proof {
                let t2 = t_exec@;
                assert forall|i: int| 0 <= i < t2.len() implies #[trigger] key_of(t2, i) == (if i < idx {
                    key_of(t, i)
                } else if i == idx {
                    k
                } else {
                    key_of(t, i - 1)
                }) by {}
                assert forall|i: int, j: int| 0 <= i < j < t2.len() implies lex_lt(#[trigger] key_of(t2, i), #[trigger] key_of(t2, j)) by {
                    if i < idx && j == idx {
                    } else if i < idx && j > idx {
                        lemma_lex_transitive(key_of(t, i), k, key_of(t, j - 1));
                    } else if i == idx {
                    } else if j < idx {
                        assert(lex_lt(key_of(t, i), key_of(t, j)));
                    } else {
                        assert(lex_lt(key_of(t, i - 1), key_of(t, j - 1)));
                    }
                }
                assert(sorted_keys(t2));
                assert forall|q: Seq<u8>| #[trigger] entries_map(t2).contains_key(q) == entries_map(t).insert(k, pos).contains_key(q) by {
                    if has_key(t, q) {
                        let j = choose|j: int| 0 <= j < t.len() && #[trigger] key_of(t, j) == q;
                        if j < idx {
                            assert(key_of(t2, j) == q);
                        } else {
                            assert(key_of(t2, j + 1) == q);
                        }
                    }
                    if q == k {
                        assert(key_of(t2, idx as int) == q);
                    }
                    if has_key(t2, q) {
                        let j = choose|j: int| 0 <= j < t2.len() && #[trigger] key_of(t2, j) == q;
                        if j < idx {
                            assert(key_of(t, j) == q);
                        } else if j > idx {
                            assert(key_of(t, j - 1) == q);
                        }
                    }
                }
                assert forall|q: Seq<u8>| #[trigger] entries_map(t2).contains_key(q) implies entries_map(t2)[q] == entries_map(t).insert(k, pos)[q] by {
                    let j = choose|j: int| 0 <= j < t2.len() && #[trigger] key_of(t2, j) == q;
                    lemma_entry(t2, j);
                    if j < idx {
                        lemma_entry(t, j);
                    } else if j > idx {
                        lemma_entry(t, j - 1);
                    }
                }
                assert(entries_map(t2) =~= entries_map(t).insert(k, pos));
            }
            self.tree = t_exec;
            true
        }
    }

    fn Get(&self, key: Vec<u8>) -> (r: Option<RecordPos>) {
        proof {
            use_type_invariant(self);
        }
        let (found, idx) = self.search(key.as_slice());
        if found {
            proof {
                lemma_entry(self.tree@, idx as int);
            }
            Some(self.tree[idx].1)
        } else {
            proof {
                lemma_absent(self.tree@, key@, idx as int);
            }
            None
        }
    }

    fn Delete(&mut self, key: Vec<u8>) -> (r: bool) {
        proof {
            use_type_invariant(&*self);
        }
        let ghost t = self.tree@;
        let ghost k = key@;
        let (found, idx) = self.search(key.as_slice());
        if found {
            proof {
                lemma_entry(t, idx as int);
            }
            let mut t_exec: Vec<(Vec<u8>, RecordPos)> = Vec::new();
            std::mem::swap(&mut t_exec, &mut self.tree);
            t_exec.remove(idx);
            proof {
                let t2 = t_exec@;
                assert forall|i: int| 0 <= i < t2.len() implies #[trigger] key_of(t2, i) == (if i < idx {
                    key_of(t, i)
                } else {
                    key_of(t, i + 1)
                }) by {}
                assert forall|i: int, j: int| 0 <= i < j < t2.len() implies lex_lt(#[trigger] key_of(t2, i), #[trigger] key_of(t2, j)) by {
                    if j < idx {
                        assert(lex_lt(key_of(t, i), key_of(t, j)));
                    } else if i < idx {
                        assert(lex_lt(key_of(t, i), key_of(t, j + 1)));
                    } else {
                        assert(lex_lt(key_of(t, i + 1), key_of(t, j + 1)));
                    }
                }
                assert(sorted_keys(t2));
                assert forall|q: Seq<u8>| #[trigger] entries_map(t2).contains_key(q) == entries_map(t).remove(k).contains_key(q) by {
                    if has_key(t, q) && q != k {
                        let j = choose|j: int| 0 <= j < t.len() && #[trigger] key_of(t, j) == q;
                        if j < idx {
                            assert(key_of(t2, j) == q);
                        } else {
                            assert(j != idx);
                            assert(key_of(t2, j - 1) == q);
                        }
                    }
                    if has_key(t2, q) {
                        let j = choose|j: int| 0 <= j < t2.len() && #[trigger] key_of(t2, j) == q;
                        if j < idx {
                            assert(key_of(t, j) == q);
                            assert(lex_lt(key_of(t, j), key_of(t, idx as int)));
                            lemma_lex_irreflexive(q);
                        } else {
                            assert(key_of(t, j + 1) == q);
                            assert(lex_lt(key_of(t, idx as int), key_of(t, j + 1)));
                            lemma_lex_irreflexive(q);
                        }
                    }
                }
                assert forall|q: Seq<u8>| #[trigger] entries_map(t2).contains_key(q) implies entries_map(t2)[q] == entries_map(t).remove(k)[q] by {
                    let j = choose|j: int| 0 <= j < t2.len() && #[trigger] key_of(t2, j) == q;
                    lemma_entry(t2, j);
                    if j < idx {
                        lemma_entry(t, j);
                    } else {
                        lemma_entry(t, j + 1);
                    }
                }
                assert(entries_map(t2) =~= entries_map(t).remove(k));
            }
            self.tree = t_exec;
            true
        } else {
            proof {
                lemma_absent(t, k, idx as int);
                assert(entries_map(t).remove(k) =~= entries_map(t));
            }
            false
        }
    }
}

} // verus!
