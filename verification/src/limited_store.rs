use vstd::prelude::*;

use crate::errors::RecordStoreError;
use crate::record_heap::{farther, keys_set_of, lemma_keys_set_size, RecordBinaryHeap};
use crate::records::{Record, RecordStorage, RecordView};
use crate::util::clone_bytes;

verus! {

/// The set of keys of a list of records.
pub open spec fn record_keys(v: Seq<Record>) -> Set<Seq<u8>> {
    Set::new(|k: Seq<u8>| exists|i: int| 0 <= i < v.len() && (#[trigger] v[i])@.key == k)
}

/// A size-limiting decorator over a record store: every live key also
/// sits in a heap ordered by XOR distance from the local peer identity,
/// and a put that would grow the store past its bound evicts the farthest
/// key, from the heap and from the wrapped store both.
pub struct LimitedSizeRecordStorageWrapper<RC: RecordStorage> {
    pub inner: RC,
    pub heap: RecordBinaryHeap,
}

impl<RC: RecordStorage> LimitedSizeRecordStorageWrapper<RC> {
    /// Wraps a store, loading its current keys into the heap. Should the
    /// store already hold more keys than the bound, the farthest ones are
    /// evicted right away, so that the size invariant holds from the
    /// start.
    pub fn new(record_store: RC, max_items: usize, peer: Vec<u8>) -> (r:
        LimitedSizeRecordStorageWrapper<RC>)
        requires
            record_store.inv(),
            max_items >= 1,
        ensures
            r.inv(),
            r.heap.limit == max_items,
            r.heap.peer == peer,
            RC::obeys_contents() ==> forall|k: Seq<u8>|
                r.inner.contents().contains_key(k) ==> record_store.contents().contains_key(k)
                    && r.inner.contents()[k] == record_store.contents()[k],
    {
        let recs = record_store.records();
        let mut inner = record_store;
        let mut heap = RecordBinaryHeap::new(peer, max_items);
        let ghost orig = inner.contents();
        let mut i: usize = 0;
        while i < recs.len()
            invariant
                inner.inv(),
                heap.wf(),
                heap.limit == max_items,
                heap.peer == peer,
                i <= recs@.len(),
                RC::obeys_contents() ==> {
                    &&& forall|a: int, b: int|
                        0 <= a < b < recs@.len() ==> (#[trigger] recs@[a])@.key != (
                        #[trigger] recs@[b])@.key
                    &&& record_keys(recs@) =~= orig.dom()
                    &&& heap.key_set().subset_of(record_keys(recs@.take(i as int)))
                    &&& inner.contents().dom() =~= orig.dom().difference(
                        record_keys(recs@.take(i as int)).difference(heap.key_set()),
                    )
                    &&& forall|k: Seq<u8>|
                        inner.contents().contains_key(k) ==> orig.contains_key(k)
                            && inner.contents()[k] == orig[k]
                },
            decreases recs@.len() - i,
        {
            let key = clone_bytes(&recs[i].key);
            let ghost taken = record_keys(recs@.take(i as int));
            let ghost heap0 = heap.key_set();
            proof {
                if RC::obeys_contents() {
                    assert(record_keys(recs@.take(i + 1)) =~= taken.insert(key@)) by {
                        lemma_record_keys_take_step(recs@, i as int);
                    }
                    assert(!taken.contains(key@)) by {
                        if taken.contains(key@) {
                            let j = choose|j: int|
                                0 <= j < recs@.take(i as int).len() && (#[trigger] recs@.take(
                                    i as int,
                                )[j])@.key == key@;
                            assert(recs@[j]@.key == recs@[i as int]@.key);
                        }
                    }
                    assert(!heap.key_set().contains(key@));
                }
            }
            let evicted = heap.insert(key);
            match evicted {
                Some(ev) => {
                    inner.remove(&ev);
                    proof {
                        if RC::obeys_contents() {
                            assert(heap.key_set() =~= heap0.insert(
                                recs@[i as int]@.key,
                            ).remove(ev@));
                            assert(inner.contents().dom() =~= orig.dom().difference(
                                record_keys(recs@.take(i + 1)).difference(heap.key_set()),
                            ));
                        }
                    }
                },
                None => {
                    proof {
                        if RC::obeys_contents() {
                            assert(inner.contents().dom() =~= orig.dom().difference(
                                record_keys(recs@.take(i + 1)).difference(heap.key_set()),
                            ));
                        }
                    }
                },
            }
            i += 1;
        }
        proof {
            if RC::obeys_contents() {
                assert(recs@.take(recs@.len() as int) =~= recs@);
                assert(heap.key_set() =~= inner.contents().dom());
            }
        }
        LimitedSizeRecordStorageWrapper { inner, heap }
    }

    /// The number of keys the cache currently holds.
    pub fn size(&self) -> (r: usize)
        ensures
            r == self.heap.keys@.len(),
    {
        self.heap.size()
    }
}

/// The keys of one more record of the list extend the processed key set
/// by exactly that record's key.
proof fn lemma_record_keys_take_step(v: Seq<Record>, i: int)
    requires
        0 <= i < v.len(),
    ensures
        record_keys(v.take(i + 1)) =~= record_keys(v.take(i)).insert(v[i]@.key),
{
    assert forall|k: Seq<u8>| record_keys(v.take(i + 1)).contains(k) implies record_keys(
        v.take(i),
    ).insert(v[i]@.key).contains(k) by {
        let j = choose|j: int| 0 <= j < v.take(i + 1).len() && (#[trigger] v.take(i + 1)[j])@.key == k;
        if j < i {
            assert(v.take(i)[j]@.key == k);
        } else {
            assert(v[i]@.key == k);
        }
    }
    assert forall|k: Seq<u8>|
        record_keys(v.take(i)).insert(v[i]@.key).contains(k) implies record_keys(
        v.take(i + 1),
    ).contains(k) by {
        if k == v[i]@.key {
            assert(v.take(i + 1)[i]@.key == k);
        } else {
            let j = choose|j: int| 0 <= j < v.take(i).len() && (#[trigger] v.take(i)[j])@.key == k;
            assert(v.take(i + 1)[j]@.key == k);
        }
    }
}

impl<RC: RecordStorage> RecordStorage for LimitedSizeRecordStorageWrapper<RC> {
    /// The cache invariant: the heap holds exactly the live keys of the
    /// wrapped store, and never more than the bound.
    open spec fn inv(&self) -> bool {
        &&& self.inner.inv()
        &&& self.heap.wf()
        &&& RC::obeys_contents() ==> self.heap.key_set() == self.inner.contents().dom()
    }

    open spec fn contents(&self) -> Map<Seq<u8>, RecordView> {
        self.inner.contents()
    }

    /// The wrapper may evict on put, so a put is not always a plain map
    /// insert; its own `put` states the exact outcome.
    open spec fn obeys_contents() -> bool {
        false
    }

    open spec fn stored_record(prior: Map<Seq<u8>, RecordView>, r: RecordView) -> RecordView {
        RC::stored_record(prior, r)
    }

    fn get(&self, key: &Vec<u8>) -> (r: Option<Record>)
        ensures
            RC::obeys_contents() ==> (match r {
                Some(rec) => self.contents().contains_key(key@) && rec@ == self.contents()[key@],
                None => !self.contents().contains_key(key@),
            }),
    {
        self.inner.get(key)
    }

    /// Stores the record, then caches its key; when the cache overflows,
    /// the key farthest from the peer is evicted and its record removed
    /// from the wrapped store.
    fn put(&mut self, r: Record) -> (res: Result<(), RecordStoreError>)
        ensures
            final(self).heap.limit == old(self).heap.limit,
            final(self).heap.peer == old(self).heap.peer,
            RC::obeys_contents() ==> {
                let mid = old(self).contents().insert(
                    r@.key,
                    RC::stored_record(old(self).contents(), r@),
                );
                &&& res == Result::<(), RecordStoreError>::Ok(())
                &&& (old(self).contents().contains_key(r@.key) || old(self).heap.keys@.len() < old(
                    self,
                ).heap.limit) ==> final(self).contents() == mid
                &&& !(old(self).contents().contains_key(r@.key) || old(self).heap.keys@.len()
                    < old(self).heap.limit) ==> exists|ev: Seq<u8>|
                    {
                        &&& #[trigger] mid.contains_key(ev)
                        &&& final(self).contents() == mid.remove(ev)
                        &&& forall|k: Seq<u8>|
                            mid.contains_key(k) && k != ev ==> farther(
                                ev,
                                k,
                                old(self).heap.peer@,
                            )
                    }
            },
    {
        let key = clone_bytes(&r.key);
        match self.inner.put(r) {
            Ok(()) => {},
            Err(e) => {
                return Err(e);
            },
        }
        proof {
            if RC::obeys_contents() {
                assert(self.heap.key_set().insert(key@) =~= self.inner.contents().dom());
            }
        }
        match self.heap.insert(key) {
            Some(ev) => {
                self.inner.remove(&ev);
                proof {
                    if RC::obeys_contents() {
                        assert(self.heap.key_set() =~= self.inner.contents().dom());
                    }
                }
            },
            None => {
                proof {
                    if RC::obeys_contents() {
                        assert(self.heap.key_set() =~= self.inner.contents().dom());
                    }
                }
            },
        }
        Ok(())
    }

    fn remove(&mut self, key: &Vec<u8>)
        ensures
            final(self).heap.limit == old(self).heap.limit,
            final(self).heap.peer == old(self).heap.peer,
            RC::obeys_contents() ==> final(self).contents() == old(self).contents().remove(key@),
    {
        self.inner.remove(key);
        self.heap.remove(key);
        proof {
            if RC::obeys_contents() {
                assert(self.heap.key_set() =~= self.inner.contents().dom());
            }
        }
    }

    fn records(&self) -> (v: Vec<Record>)
        ensures
            RC::obeys_contents() ==> {
                &&& forall|i: int|
                    0 <= i < v@.len() ==> self.contents().contains_pair(
                        (#[trigger] v@[i])@.key,
                        v@[i]@,
                    )
                &&& forall|k: Seq<u8>|
                    self.contents().contains_key(k) ==> exists|i: int|
                        0 <= i < v@.len() && (#[trigger] v@[i])@.key == k
                &&& forall|i: int, j: int| 0 <= i < j < v@.len() ==> v@[i]@.key != v@[j]@.key
            },
    {
        self.inner.records()
    }
}

/// The cache invariant in numbers: a wrapper over a faithful store holds
/// exactly as many heap keys as the store has records, and never more
/// than the bound. With `put`'s eviction clause this is the size law of
/// the cache: after any run of puts the heap size equals the record
/// count and stays within the limit, and what leaves is always a key
/// farthest from the local peer.
pub proof fn lemma_cache_size_invariant<RC: RecordStorage>(w: LimitedSizeRecordStorageWrapper<RC>)
    requires
        w.inv(),
        RC::obeys_contents(),
    ensures
        w.inner.contents().dom().finite(),
        w.heap.keys@.len() == w.inner.contents().dom().len(),
        w.inner.contents().dom().len() <= w.heap.limit,
{
    lemma_keys_set_size(w.heap.keys@);
    assert(keys_set_of(w.heap.keys@) =~= w.heap.key_set());
}

} // verus!
