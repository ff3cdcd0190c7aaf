//! The replay index: for every key the outcomes that were recorded for it,
//! handed out first in, first out.

use crate::outcome::{CapabilityOutcome, EntryView, OutcomeView, SessionEntry};
use crate::error::ProxyError;
use crate::order::same_bytes;
use crate::session::{entries_view, parse_session, session_entries};
use std::collections::VecDeque;
use vstd::prelude::*;

verus! {

/// The outcomes of a list, in specifications.
pub open spec fn outcomes_view(q: Seq<CapabilityOutcome>) -> Seq<OutcomeView> {
    Seq::new(q.len(), |i: int| q[i]@)
}

/// The outcomes that `es` holds for `key`, in the order of `es`.
pub open spec fn recorded_for(es: Seq<EntryView>, key: Seq<u8>) -> Seq<OutcomeView>
    decreases es.len(),
{
    if es.len() == 0 {
        Seq::empty()
    } else if es[0].key == key {
        seq![es[0].outcome] + recorded_for(es.drop_first(), key)
    } else {
        recorded_for(es.drop_first(), key)
    }
}

/// The outcomes of one key that are still to be handed out.
pub struct Bucket {
    key: Vec<u8>,
    queue: VecDeque<CapabilityOutcome>,
}

/// The outcomes of a session, by key.
pub struct Index {
    buckets: Vec<Bucket>,
}

/// The queue of the last bucket for `key`, empty where there is none.
pub closed spec fn queue_for(b: Seq<Bucket>, key: Seq<u8>) -> Seq<OutcomeView>
    decreases b.len(),
{
    if b.len() == 0 {
        Seq::empty()
    } else if b.last().key@ == key {
        outcomes_view(b.last().queue@)
    } else {
        queue_for(b.drop_last(), key)
    }
}

proof fn lemma_queue_for_absent(b: Seq<Bucket>, key: Seq<u8>)
    requires
        forall|j: int| 0 <= j < b.len() ==> (#[trigger] b[j]).key@ != key,
    ensures
        queue_for(b, key) == Seq::<OutcomeView>::empty(),
    decreases b.len(),
{
    if b.len() > 0 {
        assert(b.last() == b[b.len() - 1]);
        assert forall|j: int| 0 <= j < b.drop_last().len() implies (#[trigger] b.drop_last()[j]).key@
            != key by {
            assert(b.drop_last()[j] == b[j]);
        }
        lemma_queue_for_absent(b.drop_last(), key);
    }
}

/// Replacing the last bucket of a key by one with the same key changes the
/// queue of that key and of no other.
proof fn lemma_queue_for_update(b: Seq<Bucket>, i: int, nb: Bucket, key: Seq<u8>)
    requires
        0 <= i < b.len(),
        b[i].key@ == nb.key@,
        forall|j: int| i < j < b.len() ==> (#[trigger] b[j]).key@ != nb.key@,
    ensures
        queue_for(b.update(i, nb), key) == if key == nb.key@ {
            outcomes_view(nb.queue@)
        } else {
            queue_for(b, key)
        },
    decreases b.len(),
{
    let c = b.update(i, nb);
    if i == b.len() - 1 {
        assert(c.last() == nb);
        assert(c.drop_last() =~= b.drop_last());
    } else {
        assert(c.last() == b.last());
        assert(b.last() == b[b.len() - 1]);
        assert(c.drop_last() =~= b.drop_last().update(i, nb));
        assert forall|j: int| i < j < b.drop_last().len() implies (#[trigger] b.drop_last()[j]).key@
            != nb.key@ by {
            assert(b.drop_last()[j] == b[j]);
        }
        lemma_queue_for_update(b.drop_last(), i, nb, key);
    }
}

impl Index {
    /// The outcomes that are still to be handed out for `key`, next one
    /// first; empty for a key that was never recorded.
    pub closed spec fn pending(&self, key: Seq<u8>) -> Seq<OutcomeView> {
        queue_for(self.buckets@, key)
    }

    /// An index that holds nothing.
    pub fn new() -> (res: Self)
        ensures
            forall|key: Seq<u8>| #[trigger] res.pending(key) == Seq::<OutcomeView>::empty(),
    {
        Index { buckets: Vec::new() }
    }

    /// The position of the last bucket for `key`.
    fn locate(&self, key: &[u8]) -> (res: Option<usize>)
        ensures
            match res {
                Some(i) => {
                    &&& i < self.buckets@.len()
                    &&& self.buckets@[i as int].key@ == key@
                    &&& forall|j: int|
                        i < j < self.buckets@.len() ==> (#[trigger] self.buckets@[j]).key@ != key@
                },
                None => forall|j: int|
                    0 <= j < self.buckets@.len() ==> (#[trigger] self.buckets@[j]).key@ != key@,
            },
    {
        let mut i: usize = self.buckets.len();
        while i > 0
            invariant
                i <= self.buckets@.len(),
                forall|j: int|
                    i <= j < self.buckets@.len() ==> (#[trigger] self.buckets@[j]).key@ != key@,
            decreases i,
        {
            i = i - 1;
            if same_bytes(self.buckets[i].key.as_slice(), key) {
                return Some(i);
            }
        }
        None
    }

    /// Puts `outcome` in front of what is pending for `key`.
    fn put_front(&mut self, key: Vec<u8>, outcome: CapabilityOutcome)
        ensures
            forall|k: Seq<u8>| #[trigger]
                final(self).pending(k) == if k == key@ {
                    seq![outcome@] + old(self).pending(k)
                } else {
                    old(self).pending(k)
                },
    {
        match self.locate(key.as_slice()) {
            Some(i) => {
                let mut bucket = self.buckets.remove(i);
                let ghost before = bucket;
                bucket.queue.push_front(outcome);
                proof {
                    assert(outcomes_view(bucket.queue@) =~= seq![outcome@] + outcomes_view(
                        before.queue@,
                    ));
                    assert(old(self).buckets@.remove(i as int).insert(i as int, bucket)
                        =~= old(self).buckets@.update(i as int, bucket));
                    assert forall|k: Seq<u8>| true implies queue_for(
                        old(self).buckets@.update(i as int, bucket),
                        k,
                    ) == if k == key@ {
                        seq![outcome@] + queue_for(old(self).buckets@, k)
                    } else {
                        queue_for(old(self).buckets@, k)
                    } by {
                        lemma_queue_for_update(old(self).buckets@, i as int, bucket, k);
                        lemma_queue_for_update(old(self).buckets@, i as int, before, k);
                        assert(old(self).buckets@.update(i as int, before) =~= old(self).buckets@);
                    }
                }
                self.buckets.insert(i, bucket);
            },
            None => {
                let mut queue: VecDeque<CapabilityOutcome> = VecDeque::new();
                queue.push_front(outcome);
                let bucket = Bucket { key, queue };
                proof {
                    assert(outcomes_view(bucket.queue@) =~= seq![outcome@]);
                    lemma_queue_for_absent(old(self).buckets@, key@);
                    assert(seq![outcome@] + Seq::<OutcomeView>::empty() =~= seq![outcome@]);
                    assert forall|k: Seq<u8>| true implies queue_for(
                        old(self).buckets@.push(bucket),
                        k,
                    ) == if k == key@ {
                        seq![outcome@] + queue_for(old(self).buckets@, k)
                    } else {
                        queue_for(old(self).buckets@, k)
                    } by {
                        assert(old(self).buckets@.push(bucket).last() == bucket);
                        assert(old(self).buckets@.push(bucket).drop_last() =~= old(self).buckets@);
                    }
                }
                self.buckets.push(bucket);
            },
        }
    }

    /// Builds the index of a session: every key gets the outcomes of its
    /// entries, in the order in which they were recorded.
    pub fn from_entries(entries: Vec<SessionEntry>) -> (res: Self)
        ensures
            forall|key: Seq<u8>| #[trigger]
                res.pending(key) == recorded_for(entries_view(entries@), key),
    {
        let ghost all = entries_view(entries@);
        let mut entries = entries;
        let mut index = Index::new();
        assert(all.skip(all.len() as int) =~= Seq::<EntryView>::empty());
        while entries.len() > 0
            invariant
                entries@.len() <= all.len(),
                entries_view(entries@) == all.take(entries@.len() as int),
                forall|key: Seq<u8>| #[trigger]
                    index.pending(key) == recorded_for(all.skip(entries@.len() as int), key),
            decreases entries@.len(),
        {
            let ghost n = entries@.len() as int;
            let ghost before = entries_view(entries@);
            let entry = entries.pop().unwrap();
            let SessionEntry { key, sequence: _, outcome } = entry;
            proof {
                assert(before[n - 1] == entry@);
                assert(all[n - 1] == all.take(n)[n - 1]);
                assert(entries_view(entries@) =~= all.take(n - 1));
                assert(all.skip(n - 1).drop_first() =~= all.skip(n));
                assert(all.skip(n - 1)[0] == entry@);
            }
            index.put_front(key, outcome);
        }
        assert(all.skip(0) =~= all);
        index
    }

    /// Builds the index of the session file with content `bytes`. Fails with
    /// `CorruptSession` exactly when a record of the session is corrupt.
    pub fn load(bytes: &[u8]) -> (res: Result<Index, ProxyError>)
        ensures
            match session_entries(bytes@) {
                Some(es) => res matches Ok(index) && forall|key: Seq<u8>| #[trigger]
                    index.pending(key) == recorded_for(es, key),
                None => res matches Err(e) && e is CorruptSession,
            },
    {
        match parse_session(bytes) {
            Ok(entries) => Ok(Index::from_entries(entries)),
            Err(_) => Err(ProxyError::CorruptSession),
        }
    }

    /// Hands out the next outcome that is pending for `key`, or `None`
    /// where the key was never recorded or all its outcomes are gone. No
    /// other key is touched.
    pub fn take(&mut self, key: &[u8]) -> (res: Option<CapabilityOutcome>)
        ensures
            match res {
                Some(o) => {
                    &&& old(self).pending(key@).len() > 0
                    &&& o@ == old(self).pending(key@)[0]
                    &&& final(self).pending(key@) == old(self).pending(key@).drop_first()
                },
                None => {
                    &&& old(self).pending(key@).len() == 0
                    &&& final(self).pending(key@) == old(self).pending(key@)
                },
            },
            forall|k: Seq<u8>| k != key@ ==> #[trigger] final(self).pending(k) == old(self).pending(k),
    {
        match self.locate(key) {
            Some(i) => {
                let mut bucket = self.buckets.remove(i);
                let ghost before = bucket;
                let res = bucket.queue.pop_front();
                proof {
                    assert(old(self).buckets@.remove(i as int).insert(i as int, bucket)
                        =~= old(self).buckets@.update(i as int, bucket));
                    assert(old(self).buckets@.update(i as int, before) =~= old(self).buckets@);
                    assert forall|k: Seq<u8>| true implies queue_for(
                        old(self).buckets@.update(i as int, bucket),
                        k,
                    ) == if k == key@ {
                        outcomes_view(bucket.queue@)
                    } else {
                        queue_for(old(self).buckets@, k)
                    } by {
                        lemma_queue_for_update(old(self).buckets@, i as int, bucket, k);
                    }
                    lemma_queue_for_update(old(self).buckets@, i as int, before, key@);
                    assert(queue_for(old(self).buckets@, key@) == outcomes_view(before.queue@));
                    if res is Some {
                        assert(outcomes_view(bucket.queue@) =~= outcomes_view(
                            before.queue@,
                        ).drop_first());
                    }
                }
                self.buckets.insert(i, bucket);
                res
            },
            None => {
                proof {
                    lemma_queue_for_absent(self.buckets@, key@);
                }
                None
            },
        }
    }
}

} // verus!
