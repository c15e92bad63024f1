//! The state machine the log is applied to: the key/value engine, with the
//! last applied log id and the last membership.
use vstd::prelude::*;
use vstd::utf8::encode_utf8;
use crate::bitcask::data::encode_record;
use crate::bitcask::db::Engine;
use crate::bitcask::fio::Store;
use crate::store::log_store::reversed;
use crate::store::types::{Entry, EntryPayload, ExampleRequest, ExampleResponse, LogId, StoredMembership};

verus! {

/// The replicated state: the key/value engine with the id of the last
/// applied entry and the last membership.
pub struct ExampleStateMachine<S, M> {
    pub last_applied_log: Option<LogId>,
    pub last_membership: StoredMembership<M>,
    pub data: Engine<S>,
}

/// The value an applied entry answers with: the value a write stored.
pub open spec fn response_of<M>(e: Entry<M>) -> Option<Seq<char>> {
    match e.payload {
        EntryPayload::Normal(ExampleRequest::SetValue { key, value }) => Some(value@),
        _ => None,
    }
}

/// `kv` after the writes among `es`, in order.
pub open spec fn sets_applied<M>(kv: Map<Seq<u8>, Seq<u8>>, es: Seq<Entry<M>>) -> Map<Seq<u8>, Seq<u8>>
    decreases es.len(),
{
    if es.len() == 0 {
        kv
    } else {
        let prev = sets_applied(kv, es.drop_last());
        match es.last().payload {
            EntryPayload::Normal(ExampleRequest::SetValue { key, value }) => prev.insert(
                encode_utf8(key@),
                encode_utf8(value@),
            ),
            _ => prev,
        }
    }
}

/// The stored length of the record a write entry produces (zero for other entries).
pub open spec fn write_len<M>(e: Entry<M>) -> int {
    match e.payload {
        EntryPayload::Normal(ExampleRequest::SetValue { key, value }) => encode_record(
            encode_utf8(key@),
            encode_utf8(value@),
        ).len() as int,
        _ => 0,
    }
}

/// The total stored length of the writes among `es`.
pub open spec fn writes_len<M>(es: Seq<Entry<M>>) -> int
    decreases es.len(),
{
    if es.len() == 0 {
        0
    } else {
        writes_len(es.drop_last()) + write_len(es.last())
    }
}

/// The number of writes among `es`.
pub open spec fn writes_count<M>(es: Seq<Entry<M>>) -> int
    decreases es.len(),
{
    if es.len() == 0 {
        0
    } else {
        writes_count(es.drop_last()) + (if es.last().payload is Normal { 1int } else { 0int })
    }
}

/// The id of the last applied entry after `es` were applied.
pub open spec fn applied_after<M>(prev: Option<LogId>, es: Seq<Entry<M>>) -> Option<LogId> {
    if es.len() == 0 {
        prev
    } else {
        Some(es.last().log_id)
    }
}

/// The stored membership after `es` were applied: that of the last
/// membership entry among them, if any.
pub open spec fn membership_after<M>(prev: StoredMembership<M>, es: Seq<Entry<M>>) -> StoredMembership<M>
    decreases es.len(),
{
    if es.len() == 0 {
        prev
    } else {
        match es.last().payload {
            EntryPayload::Membership(m) => StoredMembership { log_id: Some(es.last().log_id), membership: m },
            _ => membership_after(prev, es.drop_last()),
        }
    }
}

/// The view of an optional string.
pub open spec fn opt_view(s: Option<String>) -> Option<Seq<char>> {
    match s {
        Some(v) => Some(v@),
        None => None,
    }
}

impl<S: Store, M: Default> ExampleStateMachine<S, M> {
    /// A state machine over `data` that has applied nothing.
    pub fn new(data: Engine<S>) -> (sm: Self)
        ensures
            sm.last_applied_log is None,
            sm.last_membership.log_id is None,
            sm.data == data,
    {
        ExampleStateMachine {
            last_applied_log: None,
            last_membership: StoredMembership { log_id: None, membership: M::default() },
            data: data,
        }
    }
}

impl<S: Store, M: Default> Default for ExampleStateMachine<S, M> {
    /// A state machine that has applied nothing, over a default engine
    /// that holds no keys.
    fn default() -> (sm: Self)
        ensures
            sm.last_applied_log is None,
            sm.last_membership.log_id is None,
            sm.data.index@ == Map::<Seq<u8>, crate::bitcask::data::RecordPos>::empty(),
            sm.data.kv() == Map::<Seq<u8>, Seq<u8>>::empty(),
    {
        ExampleStateMachine {
            last_applied_log: None,
            last_membership: StoredMembership { log_id: None, membership: M::default() },
            data: Engine::default(),
        }
    }
}

impl<S: Store, M> ExampleStateMachine<S, M> {
    /// Applies `entries` in order: a write stores its value in the engine
    /// (an error of the engine is not reported) and answers with the value;
    /// a membership entry becomes the stored membership; every entry
    /// becomes the last applied one.
    pub fn apply(&mut self, entries: Vec<Entry<M>>) -> (res: Vec<ExampleResponse>)
        requires
            old(self).data.active_segment.write_offset + writes_len(entries@) <= u64::MAX,
            old(self).data.active_segment.fileid + writes_count(entries@) <= u32::MAX,
        ensures
            res@.len() == entries@.len(),
            forall|i: int| 0 <= i < res@.len() ==> opt_view(#[trigger] res@[i].value) == response_of(entries@[i]),
            final(self).last_applied_log == applied_after(old(self).last_applied_log, entries@),
            final(self).last_membership == membership_after(old(self).last_membership, entries@),
            S::infallible() && S::opens_empty() && old(self).data.wf() ==> {
                &&& final(self).data.wf()
                &&& final(self).data.kv() == sets_applied(old(self).data.kv(), entries@)
            },
    {
        let ghost es = entries@;
        let mut res: Vec<ExampleResponse> = Vec::new();
        let mut rest = reversed(entries);
        while rest.len() > 0
            invariant
                rest@.len() <= es.len(),
                rest@ == es.subrange(es.len() - rest@.len(), es.len() as int).reverse(),
                res@.len() == es.len() - rest@.len(),
                forall|i: int| 0 <= i < res@.len() ==> opt_view(#[trigger] res@[i].value) == response_of(es[i]),
                self.last_applied_log == applied_after(old(self).last_applied_log, es.subrange(0, es.len() - rest@.len())),
                self.last_membership == membership_after(old(self).last_membership, es.subrange(0, es.len() - rest@.len())),
                self.data.active_segment.write_offset <= old(self).data.active_segment.write_offset
                    + writes_len(es.subrange(0, es.len() - rest@.len())),
                self.data.active_segment.fileid <= old(self).data.active_segment.fileid
                    + writes_count(es.subrange(0, es.len() - rest@.len())),
                old(self).data.active_segment.write_offset + writes_len(es) <= u64::MAX,
                old(self).data.active_segment.fileid + writes_count(es) <= u32::MAX,
                S::infallible() && S::opens_empty() && old(self).data.wf() ==> {
                    &&& self.data.wf()
                    &&& self.data.kv() == sets_applied(old(self).data.kv(), es.subrange(0, es.len() - rest@.len()))
                },
            decreases rest@.len(),
        {
            let ghost done = es.subrange(0, es.len() - rest@.len());
            let ghost r0 = rest@;
            let entry = rest.pop().unwrap();
            let ghost d2 = es.subrange(0, es.len() - rest@.len());
            proof {
                let sfx = es.subrange(es.len() - r0.len(), es.len() as int);
                assert(entry == r0[r0.len() - 1]);
                assert(r0[r0.len() - 1] == sfx[0]);
                assert(entry == es[es.len() - r0.len()]);
                assert(d2.drop_last() =~= done);
                assert(d2.last() == entry);
                assert(rest@ =~= es.subrange(es.len() - rest@.len(), es.len() as int).reverse());
                assert(writes_len(d2) <= writes_len(es)) by {
                    lemma_writes_len_prefix(es, d2.len() as int);
                }
                assert(writes_count(d2) <= writes_count(es)) by {
                    lemma_writes_count_prefix(es, d2.len() as int);
                }
            }
            self.last_applied_log = Some(entry.log_id);
            let log_id = entry.log_id;
            match entry.payload {
                EntryPayload::Blank => {
                    res.push(ExampleResponse { value: None });
                },
                EntryPayload::Normal(req) => match req {
                    ExampleRequest::SetValue { key, value } => {
                        let v2 = value.clone();
                        let _ = self.data.append(key, value);
                        res.push(ExampleResponse { value: Some(v2) });
                    },
                },
                EntryPayload::Membership(mem) => {
                    self.last_membership = StoredMembership { log_id: Some(log_id), membership: mem };
                    res.push(ExampleResponse { value: None });
                },
            }
        }
        assert(es.subrange(0, es.len() as int) =~= es);
        res
    }
}

impl<S: Store, M> ExampleStateMachine<S, M> {
    /// Whether applying `entries` keeps the active segment's write offset
    /// within a `u64` and its id within a `u32`, as `apply` needs.
    pub fn can_apply(&self, entries: &Vec<Entry<M>>) -> (r: bool)
        ensures
            r == (self.data.active_segment.write_offset + writes_len(entries@) <= u64::MAX
                && self.data.active_segment.fileid + writes_count(entries@) <= u32::MAX),
    {
        let ghost es = entries@;
        let ghost wo = self.data.active_segment.write_offset;
        let ghost fid = self.data.active_segment.fileid;
        let mut len: u64 = self.data.active_segment.write_offset;
        let mut count: u64 = self.data.active_segment.fileid as u64;
        let mut i: usize = 0;
        while i < entries.len()
            invariant
                0 <= i <= entries.len(),
                es == entries@,
                wo == self.data.active_segment.write_offset,
                fid == self.data.active_segment.fileid,
                len == wo + writes_len(es.subrange(0, i as int)),
                count == fid + writes_count(es.subrange(0, i as int)),
                count <= u32::MAX,
            decreases entries.len() - i,
        {
            let ghost pre = es.subrange(0, i as int);
            let ghost next = es.subrange(0, i + 1);
            proof {
                assert(next.drop_last() =~= pre);
                assert(next.last() == es[i as int]);
            }
            match &entries[i].payload {
                EntryPayload::Normal(ExampleRequest::SetValue { key, value }) => {
                    let kl = key.as_str().as_bytes().len();
                    let vl = value.as_str().as_bytes().len();
                    let w: u128 = 16u128 + kl as u128 + vl as u128;
                    proof {
                        let kb = encode_utf8(key@);
                        let vb = encode_utf8(value@);
                        assert(kl == kb.len() && vl == vb.len());
                        assert(encode_record(kb, vb).len() == 16 + kb.len() + vb.len());
                        assert(write_len(es[i as int]) == w);
                    }
                    if len as u128 + w > 18446744073709551615u128 || count == 4294967295u64 {
                        proof {
                            lemma_writes_len_prefix(es, i + 1);
                            lemma_writes_count_prefix(es, i + 1);
                        }
                        return false;
                    }
                    len = (len as u128 + w) as u64;
                    count = count + 1;
                },
                _ => {},
            }
            i = i + 1;
        }
        proof {
            assert(es.subrange(0, es.len() as int) =~= es);
        }
        true
    }
}

/// Whether `e` is a write to the key whose bytes are `k`.
pub open spec fn writes_key<M>(e: Entry<M>, k: Seq<u8>) -> bool {
    e.payload matches EntryPayload::Normal(ExampleRequest::SetValue { key, value }) && encode_utf8(key@) == k
}

/// The bytes of the value `e` writes, if it is a write.
pub open spec fn written_value<M>(e: Entry<M>) -> Seq<u8> {
    match e.payload {
        EntryPayload::Normal(ExampleRequest::SetValue { key, value }) => encode_utf8(value@),
        _ => Seq::empty(),
    }
}

/// After a batch, a key holds the value of the batch's last write to it,
/// whatever it held before; a key the batch does not write keeps what it
/// held (or stays absent).
pub proof fn lemma_last_write_wins<M>(kv: Map<Seq<u8>, Seq<u8>>, es: Seq<Entry<M>>, k: Seq<u8>)
    ensures
        forall|j: int|
            0 <= j < es.len() && #[trigger] writes_key(es[j], k) && (forall|j2: int| j < j2 < es.len() ==> !writes_key(
                #[trigger] es[j2],
                k,
            )) ==> sets_applied(kv, es).contains_key(k) && sets_applied(kv, es)[k] == written_value(es[j]),
        (forall|j: int| 0 <= j < es.len() ==> !writes_key(#[trigger] es[j], k)) ==> {
            &&& sets_applied(kv, es).contains_key(k) == kv.contains_key(k)
            &&& kv.contains_key(k) ==> sets_applied(kv, es)[k] == kv[k]
        },
    decreases es.len(),
{
    if es.len() > 0 {
        let pre = es.drop_last();
        let n = es.len() - 1;
        lemma_last_write_wins(kv, pre, k);
        assert forall|j: int|
            0 <= j < es.len() && #[trigger] writes_key(es[j], k) && (forall|j2: int| j < j2 < es.len() ==> !writes_key(
                #[trigger] es[j2],
                k,
            )) implies sets_applied(kv, es).contains_key(k) && sets_applied(kv, es)[k] == written_value(es[j]) by {
            if j < n {
                assert(!writes_key(es[n], k));
                assert(pre[j] == es[j]);
                assert forall|j2: int| j < j2 < pre.len() implies !writes_key(#[trigger] pre[j2], k) by {
                    assert(pre[j2] == es[j2]);
                }
            }
        }
        if forall|j: int| 0 <= j < es.len() ==> !writes_key(#[trigger] es[j], k) {
            assert forall|j: int| 0 <= j < pre.len() implies !writes_key(#[trigger] pre[j], k) by {
                assert(pre[j] == es[j]);
            }
            assert(!writes_key(es[n], k));
        }
    }
}

/// After a non-empty batch the last applied entry is the batch's last
/// entry, whatever its payload; an empty batch changes nothing.
pub proof fn lemma_last_applied<M>(prev: Option<LogId>, es: Seq<Entry<M>>)
    ensures
        es.len() > 0 ==> applied_after(prev, es) == Some(es[es.len() - 1].log_id),
        es.len() == 0 ==> applied_after(prev, es) == prev,
{
}

/// After a batch, the stored membership is that of the batch's last
/// membership entry, with its log id, whatever was stored before; a batch
/// without membership entries keeps the stored one.
pub proof fn lemma_last_membership_wins<M>(prev: StoredMembership<M>, es: Seq<Entry<M>>)
    ensures
        forall|j: int|
            0 <= j < es.len() && (#[trigger] es[j]).payload is Membership && (forall|j2: int| j < j2 < es.len() ==> !((
                #[trigger] es[j2]).payload is Membership)) ==> (es[j].payload matches EntryPayload::Membership(m)
                && membership_after(prev, es) == StoredMembership { log_id: Some(es[j].log_id), membership: m }),
        (forall|j: int| 0 <= j < es.len() ==> !((#[trigger] es[j]).payload is Membership)) ==> membership_after(
            prev,
            es,
        ) == prev,
    decreases es.len(),
{
    if es.len() > 0 {
        let pre = es.drop_last();
        let n = es.len() - 1;
        lemma_last_membership_wins(prev, pre);
        assert forall|j: int|
            0 <= j < es.len() && (#[trigger] es[j]).payload is Membership && (forall|j2: int| j < j2 < es.len() ==> !((
                #[trigger] es[j2]).payload is Membership)) implies (es[j].payload matches EntryPayload::Membership(m)
                && membership_after(prev, es) == StoredMembership { log_id: Some(es[j].log_id), membership: m }) by {
            if j < n {
                assert(!(es[n].payload is Membership));
                assert(pre[j] == es[j]);
                assert forall|j2: int| j < j2 < pre.len() implies !((#[trigger] pre[j2]).payload is Membership) by {
                    assert(pre[j2] == es[j2]);
                }
            }
        }
        if forall|j: int| 0 <= j < es.len() ==> !((#[trigger] es[j]).payload is Membership) {
            assert forall|j: int| 0 <= j < pre.len() implies !((#[trigger] pre[j]).payload is Membership) by {
                assert(pre[j] == es[j]);
            }
            assert(!(es[n].payload is Membership));
        }
    }
}

/// The writes of a prefix take no more room than those of the whole.
proof fn lemma_writes_len_prefix<M>(es: Seq<Entry<M>>, n: int)
    requires
        0 <= n <= es.len(),
    ensures
        writes_len(es.subrange(0, n)) <= writes_len(es),
        0 <= writes_len(es.subrange(0, n)),
    decreases es.len() - n,
{
    if n < es.len() {
        lemma_writes_len_prefix(es, n + 1);
        assert(es.subrange(0, n + 1).drop_last() =~= es.subrange(0, n));
        lemma_writes_len_nonneg(es.subrange(0, n));
    } else {
        assert(es.subrange(0, n) =~= es);
        lemma_writes_len_nonneg(es);
    }
}

proof fn lemma_writes_len_nonneg<M>(es: Seq<Entry<M>>)
    ensures
        0 <= writes_len(es),
    decreases es.len(),
{
    if es.len() > 0 {
        lemma_writes_len_nonneg(es.drop_last());
        assert(write_len(es.last()) >= 0);
    }
}

/// A prefix holds no more writes than the whole.
proof fn lemma_writes_count_prefix<M>(es: Seq<Entry<M>>, n: int)
    requires
        0 <= n <= es.len(),
    ensures
        writes_count(es.subrange(0, n)) <= writes_count(es),
        0 <= writes_count(es.subrange(0, n)),
    decreases es.len() - n,
{
    if n < es.len() {
        lemma_writes_count_prefix(es, n + 1);
        assert(es.subrange(0, n + 1).drop_last() =~= es.subrange(0, n));
        lemma_writes_count_nonneg(es.subrange(0, n));
    } else {
        assert(es.subrange(0, n) =~= es);
        lemma_writes_count_nonneg(es);
    }
}

proof fn lemma_writes_count_nonneg<M>(es: Seq<Entry<M>>)
    ensures
        0 <= writes_count(es),
    decreases es.len(),
{
    if es.len() > 0 {
        lemma_writes_count_nonneg(es.drop_last());
    }
}

} // verus!
