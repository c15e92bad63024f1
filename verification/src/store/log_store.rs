//! The log of entries, keyed by log index.
use std::collections::BTreeMap;
use vstd::prelude::*;
use vstd::std_specs::iter::IteratorSpec;
use vstd::std_specs::cmp::OrdSpec;
use crate::store::types::{Entry, LogId, Vote, IndexBound, in_range, in_range_exec, opt_log_id_le};

verus! {

/// The log entries by index, with the id of the last purged entry.
pub struct LogStore<M> {
    pub last_purged_log_id: Option<LogId>,
    pub log: BTreeMap<u64, Entry<M>>,
    pub vote: Option<Vote>,
}

/// The largest key of `m`.
pub open spec fn max_key<V>(m: Map<u64, V>) -> u64
    recommends
        m.dom().len() > 0,
{
    choose|k: u64| m.contains_key(k) && forall|k2: u64| m.contains_key(k2) ==> k2 <= k
}

/// `m` after each entry of `es`, in order, was put under its index.
pub open spec fn with_entries<M>(m: Map<u64, Entry<M>>, es: Seq<Entry<M>>) -> Map<u64, Entry<M>>
    decreases es.len(),
{
    if es.len() == 0 {
        m
    } else {
        with_entries(m, es.drop_last()).insert(es.last().log_id.index, es.last())
    }
}

/// After putting the entries `es` in order, an index holds the last entry of
/// `es` with that index, and indexes no entry of `es` has keep their entry.
pub proof fn lemma_with_entries_last<M>(m: Map<u64, Entry<M>>, es: Seq<Entry<M>>, i: int, k: u64)
    requires
        0 <= i < es.len(),
        forall|j: int| i < j < es.len() ==> (#[trigger] es[j]).log_id.index != es[i].log_id.index,
    ensures
        with_entries(m, es).contains_key(es[i].log_id.index),
        with_entries(m, es)[es[i].log_id.index] == es[i],
        (forall|j: int| 0 <= j < es.len() ==> (#[trigger] es[j]).log_id.index != k) ==> with_entries(m, es).contains_key(k)
            == m.contains_key(k) && (m.contains_key(k) ==> with_entries(m, es)[k] == m[k]),
    decreases es.len(),
{
    if i < es.len() - 1 {
        let pre = es.drop_last();
        assert forall|j: int| i < j < pre.len() implies (#[trigger] pre[j]).log_id.index != pre[i].log_id.index by {
            assert(pre[j] == es[j]);
        }
        lemma_with_entries_last(m, pre, i, k);
        assert(es[es.len() - 1].log_id.index != es[i].log_id.index);
    }
    if forall|j: int| 0 <= j < es.len() ==> (#[trigger] es[j]).log_id.index != k {
        lemma_with_entries_absent(m, es, k);
    }
}

proof fn lemma_with_entries_absent<M>(m: Map<u64, Entry<M>>, es: Seq<Entry<M>>, k: u64)
    requires
        forall|j: int| 0 <= j < es.len() ==> (#[trigger] es[j]).log_id.index != k,
    ensures
        with_entries(m, es).contains_key(k) == m.contains_key(k),
        m.contains_key(k) ==> with_entries(m, es)[k] == m[k],
    decreases es.len(),
{
    if es.len() > 0 {
        let pre = es.drop_last();
        assert forall|j: int| 0 <= j < pre.len() implies (#[trigger] pre[j]).log_id.index != k by {
            assert(pre[j] == es[j]);
        }
        lemma_with_entries_absent(m, pre, k);
        assert(es[es.len() - 1].log_id.index != k);
    }
}

/// The entries of `m` whose index is below `idx`.
pub open spec fn entries_below<M>(m: Map<u64, Entry<M>>, idx: u64) -> Map<u64, Entry<M>> {
    m.restrict(m.dom().filter(|k: u64| k < idx))
}

/// The entries of `m` whose index is above `idx`.
pub open spec fn entries_above<M>(m: Map<u64, Entry<M>>, idx: u64) -> Map<u64, Entry<M>> {
    m.restrict(m.dom().filter(|k: u64| k > idx))
}

/// After the entries from index `idx` on are deleted, the log holds exactly
/// the entries it held below `idx`: none at or after `idx` can be read again.
pub proof fn lemma_conflicts_deleted<M>(m: Map<u64, Entry<M>>, idx: u64)
    ensures
        forall|k: u64| #[trigger] entries_below(m, idx).contains_key(k) <==> (m.contains_key(k) && k < idx),
        forall|k: u64| #[trigger] entries_below(m, idx).contains_key(k) ==> entries_below(m, idx)[k] == m[k],
{
}

/// After the log is purged up to index `idx`, it holds exactly the entries
/// it held above `idx`.
pub proof fn lemma_purged_upto<M>(m: Map<u64, Entry<M>>, idx: u64)
    ensures
        forall|k: u64| #[trigger] entries_above(m, idx).contains_key(k) <==> (m.contains_key(k) && k > idx),
        forall|k: u64| #[trigger] entries_above(m, idx).contains_key(k) ==> entries_above(m, idx)[k] == m[k],
{
}

/// `v` reversed.
pub fn reversed<T>(v: Vec<T>) -> (r: Vec<T>)
    ensures
        r@ == v@.reverse(),
{
    let mut v = v;
    let ghost orig = v@;
    let mut r: Vec<T> = Vec::new();
    while v.len() > 0
        invariant
            v@.len() <= orig.len(),
            v@ == orig.subrange(0, v@.len() as int),
            r@ == orig.subrange(v@.len() as int, orig.len() as int).reverse(),
        decreases v@.len(),
    {
        let ghost r0 = r@;
        let ghost n0 = v@.len();
        let x = v.pop().unwrap();
        r.push(x);
        proof {
            assert(x == orig[n0 - 1]);
            let a = orig.subrange(n0 - 1, orig.len() as int);
            let b = orig.subrange(n0 as int, orig.len() as int);
            assert(a.reverse() =~= b.reverse().push(x));
            assert(r@ =~= orig.subrange(v@.len() as int, orig.len() as int).reverse());
            assert(v@ =~= orig.subrange(0, v@.len() as int));
        }
    }
    assert(orig.subrange(0, orig.len() as int) =~= orig);
    r
}

impl<M> LogStore<M> {
    /// Every entry is kept under its own index.
    pub open spec fn wf(&self) -> bool {
        forall|i: u64| #[trigger] self.log@.contains_key(i) ==> self.log@[i].log_id.index == i
    }

    /// The id of the last entry in the log, or of the last purged entry when
    /// the log is empty.
    pub open spec fn last_log_id(&self) -> Option<LogId> {
        if self.log@.dom().len() == 0 {
            self.last_purged_log_id
        } else {
            Some(self.log@[max_key(self.log@)].log_id)
        }
    }

    /// An empty log.
    pub fn new() -> (s: Self)
        ensures
            s.wf(),
            s.log@ == Map::<u64, Entry<M>>::empty(),
            s.last_purged_log_id is None,
            s.vote is None,
    {
        LogStore { last_purged_log_id: None, log: BTreeMap::new(), vote: None }
    }

    /// The indexes of the log, in increasing order.
    pub fn log_keys(&self) -> (v: Vec<u64>)
        ensures
            v@.to_set() == self.log@.dom(),
            v@.len() == self.log@.dom().len(),
            forall|i: int, j: int| 0 <= i < j < v@.len() ==> v@[i] < v@[j],
    {
        let mut v: Vec<u64> = Vec::new();
        let ghost ks = vstd::std_specs::btree::spec_keys_iter(&self.log).remaining();
        proof {
            vstd::std_specs::btree::axiom_spec_keys_iter(&self.log);
        }
        for k in it: self.log.keys()
            invariant
                it.seq() == ks,
                v@.len() == it.index(),
                forall|j: int| 0 <= j < v@.len() ==> v@[j] == *ks[j],
        {
            v.push(*k);
        }
        assert(v@.len() == ks.len());
        assert(v@ =~= ks.unref());
        proof {
            broadcast use vstd::laws_cmp::group_laws_cmp;
            assert(vstd::laws_cmp::obeys_cmp::<&u64>());
            vstd::std_specs::btree::axiom_spec_keys_iter(&self.log);
            assert(vstd::std_specs::btree::increasing_seq(ks));
            vstd::std_specs::btree::axiom_increasing_seq_meaning(ks);
            assert forall|i: int, j: int| 0 <= i < j < v@.len() implies v@[i] < v@[j] by {
                assert(OrdSpec::cmp_spec(&ks[i], &ks[j]) is Less);
                assert((*ks[i]).cmp_spec(&*ks[j]) is Less);
            }
        }
        v
    }

    /// The id of the last purged entry and the id of the last entry.
    #[verifier::rlimit(40)]
    pub fn get_log_state(&self) -> (r: (Option<LogId>, Option<LogId>))
        ensures
            r.0 == self.last_purged_log_id,
            r.1 == self.last_log_id(),
    {
        let keys = self.log_keys();
        let n = keys.len();
        if n == 0 {
            proof {
                assert(self.log@.dom().len() == 0);
            }
            return (self.last_purged_log_id, self.last_purged_log_id);
        }
        let l = keys[n - 1];
        proof {
            assert(keys@.to_set().contains(l)) by {
                assert(keys@.contains(l));
            }
            assert forall|k2: u64| self.log@.contains_key(k2) implies k2 <= l by {
                assert(keys@.to_set().contains(k2));
                assert(keys@.contains(k2));
                let j2 = choose|j2: int| 0 <= j2 < keys@.len() && keys@[j2] == k2;
                if j2 < n - 1 {
                    assert(keys@[j2] < keys@[n - 1]);
                }
            }
            let mk = max_key(self.log@);
            assert(self.log@.contains_key(mk) && forall|k2: u64| self.log@.contains_key(k2) ==> k2 <= mk);
            assert(mk == l);
        }
        let e = self.log.get(&l).unwrap();
        (self.last_purged_log_id, Some(e.log_id))
    }

    /// Records the vote this node granted.
    pub fn save_vote(&mut self, vote: &Vote)
        ensures
            final(self).vote == Some(*vote),
            final(self).log@ == old(self).log@,
            final(self).last_purged_log_id == old(self).last_purged_log_id,
    {
        self.vote = Some(*vote);
    }

    /// The vote this node granted, if any.
    pub fn read_vote(&self) -> (r: Option<Vote>)
        ensures
            r == self.vote,
    {
        self.vote
    }

    /// Puts each entry under its index, in order, replacing what was there.
    pub fn append_to_log(&mut self, entries: Vec<Entry<M>>)
        requires
            old(self).wf(),
        ensures
            final(self).wf(),
            final(self).log@ == with_entries(old(self).log@, entries@),
            final(self).last_purged_log_id == old(self).last_purged_log_id,
            final(self).vote == old(self).vote,
    {
        let ghost es = entries@;
        let mut rest = reversed(entries);
        while rest.len() > 0
            invariant
                self.wf(),
                rest@.len() <= es.len(),
                rest@ == es.subrange(es.len() - rest@.len(), es.len() as int).reverse(),
                self.log@ == with_entries(old(self).log@, es.subrange(0, es.len() - rest@.len())),
                self.last_purged_log_id == old(self).last_purged_log_id,
                self.vote == old(self).vote,
            decreases rest@.len(),
        {
            let ghost done = es.subrange(0, es.len() - rest@.len());
            let ghost r0 = rest@;
            let entry = rest.pop().unwrap();
            proof {
                let sfx = es.subrange(es.len() - r0.len(), es.len() as int);
                assert(entry == r0[r0.len() - 1]);
                assert(r0[r0.len() - 1] == sfx[0]);
                assert(entry == es[es.len() - r0.len()]);
                let d2 = es.subrange(0, es.len() - rest@.len());
                assert(d2.drop_last() =~= done);
                assert(d2.last() == entry);
                assert(rest@ =~= es.subrange(es.len() - rest@.len(), es.len() as int).reverse());
            }
            self.log.insert(entry.log_id.index, entry);
        }
        assert(es.subrange(0, es.len() as int) =~= es);
    }

    /// Removes every entry at or after `log_id.index`.
    pub fn delete_conflict_logs_since(&mut self, log_id: LogId)
        requires
            old(self).wf(),
        ensures
            final(self).wf(),
            final(self).log@ == entries_below(old(self).log@, log_id.index),
            final(self).last_purged_log_id == old(self).last_purged_log_id,
            final(self).vote == old(self).vote,
    {
        let keys = self.log_keys();
        let mut i: usize = 0;
        while i < keys.len()
            invariant
                i <= keys@.len(),
                keys@.to_set() == old(self).log@.dom(),
                self.wf(),
                self.log@ == old(self).log@.restrict(old(self).log@.dom().filter(
                    |k: u64| k < log_id.index || !keys@.subrange(0, i as int).contains(k),
                )),
                self.last_purged_log_id == old(self).last_purged_log_id,
                self.vote == old(self).vote,
            decreases keys@.len() - i,
        {
            let key = keys[i];
            if key >= log_id.index {
                self.log.remove(&key);
            }
            proof {
                let pre = keys@.subrange(0, i as int);
                let pre2 = keys@.subrange(0, i + 1);
                assert(pre2 =~= pre.push(key));
                assert forall|k: u64| pre2.contains(k) <==> pre.contains(k) || k == key by {
                    if pre2.contains(k) {
                        let j = choose|j: int| 0 <= j < pre2.len() && pre2[j] == k;
                        if j < i {
                            assert(pre[j] == k);
                        }
                    }
                    if pre.contains(k) {
                        let j = choose|j: int| 0 <= j < pre.len() && pre[j] == k;
                        assert(pre2[j] == k);
                    }
                    if k == key {
                        assert(pre2[i as int] == k);
                    }
                }
                assert(self.log@ =~= old(self).log@.restrict(old(self).log@.dom().filter(
                    |k: u64| k < log_id.index || !pre2.contains(k),
                )));
            }
            i = i + 1;
        }
        proof {
            assert(keys@.subrange(0, keys@.len() as int) =~= keys@);
            assert forall|k: u64| old(self).log@.contains_key(k) implies keys@.contains(k) by {
                assert(keys@.to_set().contains(k));
            }
            assert(self.log@ =~= entries_below(old(self).log@, log_id.index));
        }
    }

    /// Records `log_id` as the last purged entry and removes every entry up
    /// to and including its index.
    pub fn purge_logs_upto(&mut self, log_id: LogId)
        requires
            old(self).wf(),
            opt_log_id_le(old(self).last_purged_log_id, Some(log_id)),
        ensures
            final(self).wf(),
            final(self).last_purged_log_id == Some(log_id),
            final(self).log@ == entries_above(old(self).log@, log_id.index),
            final(self).vote == old(self).vote,
    {
        self.last_purged_log_id = Some(log_id);
        let keys = self.log_keys();
        let mut i: usize = 0;
        while i < keys.len()
            invariant
                i <= keys@.len(),
                keys@.to_set() == old(self).log@.dom(),
                self.wf(),
                self.log@ == old(self).log@.restrict(old(self).log@.dom().filter(
                    |k: u64| k > log_id.index || !keys@.subrange(0, i as int).contains(k),
                )),
                self.last_purged_log_id == Some(log_id),
                self.vote == old(self).vote,
            decreases keys@.len() - i,
        {
            let key = keys[i];
            if key <= log_id.index {
                self.log.remove(&key);
            }
            proof {
                let pre = keys@.subrange(0, i as int);
                let pre2 = keys@.subrange(0, i + 1);
                assert(pre2 =~= pre.push(key));
                assert forall|k: u64| pre2.contains(k) <==> pre.contains(k) || k == key by {
                    if pre2.contains(k) {
                        let j = choose|j: int| 0 <= j < pre2.len() && pre2[j] == k;
                        if j < i {
                            assert(pre[j] == k);
                        }
                    }
                    if pre.contains(k) {
                        let j = choose|j: int| 0 <= j < pre.len() && pre[j] == k;
                        assert(pre2[j] == k);
                    }
                    if k == key {
                        assert(pre2[i as int] == k);
                    }
                }
                assert(self.log@ =~= old(self).log@.restrict(old(self).log@.dom().filter(
                    |k: u64| k > log_id.index || !pre2.contains(k),
                )));
            }
            i = i + 1;
        }
        proof {
            assert(keys@.subrange(0, keys@.len() as int) =~= keys@);
            assert forall|k: u64| old(self).log@.contains_key(k) implies keys@.contains(k) by {
                assert(keys@.to_set().contains(k));
            }
            assert(self.log@ =~= entries_above(old(self).log@, log_id.index));
        }
    }

    /// The entries whose index lies within `start` and `end`, by increasing index.
    #[verifier::rlimit(40)]
    pub fn try_get_log_entries(&self, start: IndexBound, end: IndexBound) -> (r: Vec<&Entry<M>>)
        requires
            self.wf(),
        ensures
            forall|i: int| 0 <= i < r@.len() ==> {
                &&& in_range(r@[i].log_id.index, start, end)
                &&& self.log@.contains_key(r@[i].log_id.index)
                &&& self.log@[r@[i].log_id.index] == *r@[i]
            },
            forall|i: int, j: int| 0 <= i < j < r@.len() ==> r@[i].log_id.index < r@[j].log_id.index,
            forall|k: u64| #[trigger] self.log@.contains_key(k) && in_range(k, start, end) ==> exists|i: int|
                0 <= i < r@.len() && r@[i].log_id.index == k,
    {
        let keys = self.log_keys();
        let mut sel: Vec<u64> = Vec::new();
        let ghost mut last_b: int = 0;
        let mut i: usize = 0;
        while i < keys.len()
            invariant
                i <= keys@.len(),
                keys@.to_set() == self.log@.dom(),
                forall|a: int, b: int| 0 <= a < b < keys@.len() ==> keys@[a] < keys@[b],
                forall|a: int| 0 <= a < sel@.len() ==> in_range(#[trigger] sel@[a], start, end) && self.log@.contains_key(sel@[a]),
                forall|a: int, b: int| 0 <= a < b < sel@.len() ==> sel@[a] < sel@[b],
                forall|b: int| 0 <= b < i && in_range(#[trigger] keys@[b], start, end) ==> sel@.contains(keys@[b]),
                sel@.len() > 0 ==> 0 <= last_b < i && sel@.last() == keys@[last_b],
            decreases keys@.len() - i,
        {
            let key = keys[i];
            proof {
                assert(keys@.to_set().contains(key)) by {
                    assert(keys@.contains(key));
                }
            }
            if in_range_exec(key, start, end) {
                proof {
                    if sel@.len() > 0 {
                        assert(keys@[last_b] < keys@[i as int]);
                    }
                }
                let ghost s0 = sel@;
                sel.push(key);
                proof {
                    last_b = i as int;
                    assert forall|b: int| 0 <= b < i + 1 && in_range(#[trigger] keys@[b], start, end) implies sel@.contains(keys@[b]) by {
                        if b < i {
                            let a = choose|a: int| 0 <= a < s0.len() && s0[a] == keys@[b];
                            assert(sel@[a] == keys@[b]);
                        } else {
                            assert(sel@[s0.len() as int] == keys@[b]);
                        }
                    }
                }
            }
            i = i + 1;
        }
        let mut out: Vec<&Entry<M>> = Vec::new();
        let mut j: usize = 0;
        while j < sel.len()
            invariant
                j <= sel@.len(),
                self.wf(),
                forall|a: int| 0 <= a < sel@.len() ==> in_range(#[trigger] sel@[a], start, end) && self.log@.contains_key(sel@[a]),
                out@.len() == j,
                forall|a: int| 0 <= a < j ==> (#[trigger] out@[a]).log_id.index == sel@[a] && self.log@[sel@[a]] == *out@[a],
            decreases sel@.len() - j,
        {
            let key = sel[j];
            assert(self.log@.contains_key(key));
            out.push(self.log.get(&key).unwrap());
            j = j + 1;
        }
        proof {
            assert forall|k: u64| #[trigger] self.log@.contains_key(k) && in_range(k, start, end) implies exists|i: int|
                0 <= i < out@.len() && out@[i].log_id.index == k by {
                assert(keys@.to_set().contains(k));
                assert(keys@.contains(k));
                let b = choose|b: int| 0 <= b < keys@.len() && keys@[b] == k;
                assert(in_range(keys@[b], start, end));
                assert(sel@.contains(k));
                let a = choose|a: int| 0 <= a < sel@.len() && sel@[a] == k;
                assert(out@[a].log_id.index == k);
            }
        }
        out
    }
}

} // verus!
