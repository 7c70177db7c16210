use vstd::prelude::*;

use crate::errors::RecordStoreError;
use crate::util::{bytes_equal, clone_bytes};
use crate::wire::is_multihash;

verus! {

/// A DHT record: a keyed value with its original publisher. The key is a
/// multihash; the publisher is a peer identity carried as bytes. The
/// expiry instant is carried but never persisted.
pub struct Record {
    pub key: Vec<u8>,
    pub value: Vec<u8>,
    pub publisher: Option<Vec<u8>>,
    pub expires: Option<u64>,
}

pub ghost struct RecordView {
    pub key: Seq<u8>,
    pub value: Seq<u8>,
    pub publisher: Option<Seq<u8>>,
    pub expires: Option<u64>,
}

impl View for Record {
    type V = RecordView;

    open spec fn view(&self) -> RecordView {
        RecordView {
            key: self.key@,
            value: self.value@,
            publisher: match self.publisher {
                Some(ref p) => Some(p@),
                None => None,
            },
            expires: self.expires,
        }
    }
}

pub fn clone_record(r: &Record) -> (c: Record)
    ensures
        c@ == r@,
{
    Record {
        key: clone_bytes(&r.key),
        value: clone_bytes(&r.value),
        publisher: match &r.publisher {
            Some(p) => Some(clone_bytes(p)),
            None => None,
        },
        expires: match r.expires {
            Some(e) => Some(e),
            None => None,
        },
    }
}

/// A provider record: who provides the content behind a key.
pub struct ProviderRecord {
    pub key: Vec<u8>,
    pub provider: Vec<u8>,
}

pub ghost struct ProviderRecordView {
    pub key: Seq<u8>,
    pub provider: Seq<u8>,
}

impl View for ProviderRecord {
    type V = ProviderRecordView;

    open spec fn view(&self) -> ProviderRecordView {
        ProviderRecordView { key: self.key@, provider: self.provider@ }
    }
}

pub fn clone_provider_record(r: &ProviderRecord) -> (c: ProviderRecord)
    ensures
        c@ == r@,
{
    ProviderRecord { key: clone_bytes(&r.key), provider: clone_bytes(&r.provider) }
}

/// Capability set of a record store. `contents` is the store seen as a
/// map from key to record. A backend whose `obeys_contents` holds tracks
/// that map exactly; a backend that may lose or refuse data (a stub, a
/// read-only proxy, a disk that can fail) leaves it `false` and documents
/// its own behaviour.
pub trait RecordStorage: Sized {
    spec fn inv(&self) -> bool;

    spec fn contents(&self) -> Map<Seq<u8>, RecordView>;

    spec fn obeys_contents() -> bool;

    /// The record the store keeps when `r` is put over `prior`: `r`
    /// itself for a plain store, a merged record for a merging one.
    spec fn stored_record(prior: Map<Seq<u8>, RecordView>, r: RecordView) -> RecordView;

    /// Gets a record from the store, given its key.
    fn get(&self, key: &Vec<u8>) -> (r: Option<Record>)
        requires
            self.inv(),
        ensures
            Self::obeys_contents() ==> (match r {
                Some(rec) => self.contents().contains_key(key@) && rec@ == self.contents()[key@],
                None => !self.contents().contains_key(key@),
            }),
    ;

    /// Puts a record into the store.
    fn put(&mut self, r: Record) -> (res: Result<(), RecordStoreError>)
        requires
            old(self).inv(),
        ensures
            final(self).inv(),
            Self::obeys_contents() ==> res == Result::<(), RecordStoreError>::Ok(())
                && final(self).contents() == old(self).contents().insert(
                r@.key,
                Self::stored_record(old(self).contents(), r@),
            ),
    ;

    /// Removes the record with the given key from the store.
    fn remove(&mut self, key: &Vec<u8>)
        requires
            old(self).inv(),
        ensures
            final(self).inv(),
            Self::obeys_contents() ==> final(self).contents() == old(self).contents().remove(key@),
    ;

    /// All records currently stored, one per key.
    fn records(&self) -> (v: Vec<Record>)
        requires
            self.inv(),
        ensures
            Self::obeys_contents() ==> {
                &&& forall|i: int|
                    0 <= i < v@.len() ==> self.contents().contains_pair(
                        (#[trigger] v@[i])@.key,
                        v@[i]@,
                    )
                &&& forall|k: Seq<u8>|
                    self.contents().contains_key(k) ==> exists|i: int|
                        0 <= i < v@.len() && (#[trigger] v@[i])@.key == k
                &&& forall|i: int, j: int| 0 <= i < j < v@.len() ==> v@[i]@.key != v@[j]@.key
            },
    ;
}

/// Capability set of a provider store, keyed by content key; one key may
/// carry any number of provider records, duplicates included.
pub trait ProviderStorage: Sized {
    spec fn inv(&self) -> bool;

    spec fn providers_of(&self) -> Map<Seq<u8>, Seq<ProviderRecordView>>;

    /// Adds a provider record; the caller upstream deduplicates.
    fn add_provider(&mut self, r: ProviderRecord) -> (res: Result<(), RecordStoreError>)
        requires
            old(self).inv(),
        ensures
            final(self).inv(),
            res == Result::<(), RecordStoreError>::Ok(()),
            final(self).providers_of() == old(self).providers_of().insert(
                r@.key,
                (if old(self).providers_of().contains_key(r@.key) {
                    old(self).providers_of()[r@.key]
                } else {
                    Seq::<ProviderRecordView>::empty()
                }).push(r@),
            ),
    ;

    /// The stored provider records for the given key.
    fn providers(&self, key: &Vec<u8>) -> (r: Vec<ProviderRecord>)
        requires
            self.inv(),
        ensures
            r@.map_values(|p: ProviderRecord| p@) == (if self.providers_of().contains_key(key@) {
                self.providers_of()[key@]
            } else {
                Seq::<ProviderRecordView>::empty()
            }),
    ;

    /// Every stored provider record, keys concatenated in store order.
    fn provided(&self) -> (r: Vec<ProviderRecord>)
        requires
            self.inv(),
        ensures
            forall|i: int|
                0 <= i < r@.len() ==> self.providers_of().contains_key((#[trigger] r@[i])@.key)
                    && self.providers_of()[r@[i]@.key].contains(r@[i]@),
    ;

    /// Drops the key's records whose provider matches.
    fn remove_provider(&mut self, key: &Vec<u8>, provider: &Vec<u8>)
        requires
            old(self).inv(),
        ensures
            final(self).inv(),
            old(self).providers_of().contains_key(key@) ==> final(self).providers_of() == old(self).providers_of().insert(
                key@,
                old(self).providers_of()[key@].filter(
                    |p: ProviderRecordView| p.provider != provider@,
                ),
            ),
            !old(self).providers_of().contains_key(key@) ==> final(self).providers_of() == old(self).providers_of(),
    ;
}

/// A record store stub: accepts puts without storing, returns nothing.
/// Used where this node serves no records; `obeys_contents` is off
/// because a put does not land in the (always empty) contents.
pub struct NoRecordStorage {
}

impl NoRecordStorage {
    pub fn new() -> (r: NoRecordStorage)
        ensures
            r.inv(),
    {
        NoRecordStorage {  }
    }
}

impl RecordStorage for NoRecordStorage {
    open spec fn inv(&self) -> bool {
        true
    }

    open spec fn contents(&self) -> Map<Seq<u8>, RecordView> {
        Map::empty()
    }

    open spec fn obeys_contents() -> bool {
        false
    }

    open spec fn stored_record(prior: Map<Seq<u8>, RecordView>, r: RecordView) -> RecordView {
        r
    }

    fn get(&self, key: &Vec<u8>) -> (r: Option<Record>)
        ensures
            r is None,
    {
        None
    }

    fn put(&mut self, r: Record) -> (res: Result<(), RecordStoreError>)
        ensures
            res == Result::<(), RecordStoreError>::Ok(()),
            *final(self) == *old(self),
    {
        Ok(())
    }

    fn remove(&mut self, key: &Vec<u8>)
        ensures
            *final(self) == *old(self),
    {
    }

    fn records(&self) -> (v: Vec<Record>)
        ensures
            v@.len() == 0,
    {
        Vec::new()
    }
}

pub open spec fn rec_has_key(s: Seq<Record>, k: Seq<u8>) -> bool {
    exists|i: int| 0 <= i < s.len() && (#[trigger] s[i])@.key == k
}

pub open spec fn rec_lookup(s: Seq<Record>, k: Seq<u8>) -> RecordView {
    s[choose|i: int| 0 <= i < s.len() && (#[trigger] s[i])@.key == k]@
}

/// With one record per key, the record at position `i` is what lookup
/// finds for its key.
proof fn lemma_rec_at(s: Seq<Record>, i: int)
    requires
        forall|a: int, b: int|
            0 <= a < b < s.len() ==> (#[trigger] s[a])@.key != (#[trigger] s[b])@.key,
        0 <= i < s.len(),
    ensures
        rec_has_key(s, s[i]@.key),
        rec_lookup(s, s[i]@.key) == s[i]@,
{
    assert(rec_has_key(s, s[i]@.key));
    let j = choose|j: int| 0 <= j < s.len() && (#[trigger] s[j])@.key == s[i]@.key;
    if j < i {
        assert(s[j]@.key != s[i]@.key);
    } else if i < j {
        assert(s[i]@.key != s[j]@.key);
    }
}

/// In-memory record store: one record per key, replacement on put.
pub struct MemoryRecordStorage {
    pub entries: Vec<Record>,
}

impl MemoryRecordStorage {
    pub fn new() -> (r: MemoryRecordStorage)
        ensures
            r.inv(),
            r.contents() == Map::<Seq<u8>, RecordView>::empty(),
    {
        let r = MemoryRecordStorage { entries: Vec::new() };
        proof {
            assert(r.contents() =~= Map::<Seq<u8>, RecordView>::empty());
        }
        r
    }

    /// Position of the record carrying `key`, if any.
    fn find_pos(&self, key: &Vec<u8>) -> (r: Option<usize>)
        requires
            self.inv(),
        ensures
            match r {
                Some(p) => p < self.entries@.len() && self.entries@[p as int]@.key == key@
                    && self.contents().contains_key(key@),
                None => !self.contents().contains_key(key@),
            },
    {
        let mut i: usize = 0;
        while i < self.entries.len()
            invariant
                i <= self.entries@.len(),
                forall|j: int| 0 <= j < i ==> (#[trigger] self.entries@[j])@.key != key@,
            decreases self.entries@.len() - i,
        {
            if bytes_equal(&self.entries[i].key, key) {
                return Some(i);
            }
            i += 1;
        }
        None
    }
}

impl RecordStorage for MemoryRecordStorage {
    open spec fn inv(&self) -> bool {
        forall|a: int, b: int|
            0 <= a < b < self.entries@.len() ==> (#[trigger] self.entries@[a])@.key != (
            #[trigger] self.entries@[b])@.key
    }

    open spec fn contents(&self) -> Map<Seq<u8>, RecordView> {
        Map::new(|k: Seq<u8>| rec_has_key(self.entries@, k), |k: Seq<u8>| rec_lookup(self.entries@, k))
    }

    open spec fn obeys_contents() -> bool {
        true
    }

    open spec fn stored_record(prior: Map<Seq<u8>, RecordView>, r: RecordView) -> RecordView {
        r
    }

    fn get(&self, key: &Vec<u8>) -> (r: Option<Record>) {
        match self.find_pos(key) {
            Some(p) => {
                proof {
                    lemma_rec_at(self.entries@, p as int);
                }
                Some(clone_record(&self.entries[p]))
            },
            None => None,
        }
    }

    fn put(&mut self, r: Record) -> (res: Result<(), RecordStoreError>) {
        let ghost s0 = self.entries@;
        let key = clone_bytes(&r.key);
        match self.find_pos(&key) {
            Some(p) => {
                self.entries[p] = r;
                proof {
                    let s1 = self.entries@;
                    assert(self.inv()) by {
                        assert forall|a: int, b: int|
                            0 <= a < b < s1.len() implies (#[trigger] s1[a])@.key != (
                        #[trigger] s1[b])@.key by {
                            assert(s0[a]@.key != s0[b]@.key);
                        }
                    }
                    lemma_rec_map_replace(s0, s1, p as int);
                }
            },
            None => {
                self.entries.push(r);
                proof {
                    let s1 = self.entries@;
                    let n = s0.len() as int;
                    assert(self.inv()) by {
                        assert forall|a: int, b: int|
                            0 <= a < b < s1.len() implies (#[trigger] s1[a])@.key != (
                        #[trigger] s1[b])@.key by {
                            if b < n {
                                assert(s0[a]@.key != s0[b]@.key);
                            } else {
                                assert(s1[a] == s0[a]);
                                if s0[a]@.key == s1[n]@.key {
                                    assert(rec_has_key(s0, s1[n]@.key));
                                }
                            }
                        }
                    }
                    lemma_rec_map_push(s0, s1);
                }
            },
        }
        Ok(())
    }

    fn remove(&mut self, key: &Vec<u8>) {
        let ghost s0 = self.entries@;
        match self.find_pos(key) {
            Some(p) => {
                let _ = self.entries.swap_remove(p);
                proof {
                    lemma_rec_map_swap_remove(s0, self.entries@, p as int);
                }
            },
            None => {
                proof {
                    assert(final(self).contents() =~= old(self).contents().remove(key@));
                }
            },
        }
    }

    fn records(&self) -> (v: Vec<Record>) {
        let mut v: Vec<Record> = Vec::new();
        let mut i: usize = 0;
        while i < self.entries.len()
            invariant
                self.inv(),
                i <= self.entries@.len(),
                v@.len() == i,
                forall|j: int| 0 <= j < i ==> (#[trigger] v@[j])@ == self.entries@[j]@,
            decreases self.entries@.len() - i,
        {
            v.push(clone_record(&self.entries[i]));
            i += 1;
        }
        proof {
            assert forall|j: int|
                0 <= j < v@.len() implies self.contents().contains_pair(
                (#[trigger] v@[j])@.key,
                v@[j]@,
            ) by {
                lemma_rec_at(self.entries@, j);
            }
            assert forall|k: Seq<u8>| self.contents().contains_key(k) implies exists|j: int|
                0 <= j < v@.len() && (#[trigger] v@[j])@.key == k by {
                let j = choose|j: int| 0 <= j < self.entries@.len() && (#[trigger] self.entries@[j])@.key == k;
                assert(v@[j]@.key == k);
            }
            assert forall|a: int, b: int| 0 <= a < b < v@.len() implies v@[a]@.key
                != v@[b]@.key by {
                assert(self.entries@[a]@.key != self.entries@[b]@.key);
            }
        }
        v
    }
}

/// The record store handed to the DHT behaviour: a record backend and a
/// provider backend glued together, every call delegated.
pub struct CustomRecordStore<Rs: RecordStorage, Ps: ProviderStorage> {
    pub record_storage: Rs,
    pub provider_storage: Ps,
}

impl<Rs: RecordStorage, Ps: ProviderStorage> CustomRecordStore<Rs, Ps> {
    pub open spec fn inv(&self) -> bool {
        self.record_storage.inv() && self.provider_storage.inv()
    }

    pub open spec fn contents(&self) -> Map<Seq<u8>, RecordView> {
        self.record_storage.contents()
    }

    pub open spec fn providers_of(&self) -> Map<Seq<u8>, Seq<ProviderRecordView>> {
        self.provider_storage.providers_of()
    }

    pub fn new(record_storage: Rs, provider_storage: Ps) -> (r: CustomRecordStore<Rs, Ps>)
        ensures
            r.record_storage == record_storage,
            r.provider_storage == provider_storage,
    {
        CustomRecordStore { record_storage, provider_storage }
    }

    pub fn get(&self, key: &Vec<u8>) -> (r: Option<Record>)
        requires
            self.inv(),
        ensures
            Rs::obeys_contents() ==> (match r {
                Some(rec) => self.contents().contains_key(key@) && rec@ == self.contents()[key@],
                None => !self.contents().contains_key(key@),
            }),
    {
        self.record_storage.get(key)
    }

    pub fn put(&mut self, r: Record) -> (res: Result<(), RecordStoreError>)
        requires
            old(self).inv(),
        ensures
            final(self).inv(),
            final(self).provider_storage == old(self).provider_storage,
            Rs::obeys_contents() ==> res == Result::<(), RecordStoreError>::Ok(())
                && final(self).contents() == old(self).contents().insert(
                r@.key,
                Rs::stored_record(old(self).contents(), r@),
            ),
    {
        self.record_storage.put(r)
    }

    pub fn remove(&mut self, key: &Vec<u8>)
        requires
            old(self).inv(),
        ensures
            final(self).inv(),
            final(self).provider_storage == old(self).provider_storage,
            Rs::obeys_contents() ==> final(self).contents() == old(self).contents().remove(key@),
    {
        self.record_storage.remove(key)
    }

    pub fn records(&self) -> (v: Vec<Record>)
        requires
            self.inv(),
        ensures
            Rs::obeys_contents() ==> {
                &&& forall|i: int|
                    0 <= i < v@.len() ==> self.contents().contains_pair(
                        (#[trigger] v@[i])@.key,
                        v@[i]@,
                    )
                &&& forall|k: Seq<u8>|
                    self.contents().contains_key(k) ==> exists|i: int|
                        0 <= i < v@.len() && (#[trigger] v@[i])@.key == k
                &&& forall|i: int, j: int| 0 <= i < j < v@.len() ==> v@[i]@.key != v@[j]@.key
            },
    {
        self.record_storage.records()
    }

    pub fn add_provider(&mut self, r: ProviderRecord) -> (res: Result<(), RecordStoreError>)
        requires
            old(self).inv(),
        ensures
            final(self).inv(),
            final(self).record_storage == old(self).record_storage,
            res == Result::<(), RecordStoreError>::Ok(()),
            final(self).providers_of() == old(self).providers_of().insert(
                r@.key,
                (if old(self).providers_of().contains_key(r@.key) {
                    old(self).providers_of()[r@.key]
                } else {
                    Seq::<ProviderRecordView>::empty()
                }).push(r@),
            ),
    {
        self.provider_storage.add_provider(r)
    }

    pub fn providers(&self, key: &Vec<u8>) -> (r: Vec<ProviderRecord>)
        requires
            self.inv(),
        ensures
            r@.map_values(|p: ProviderRecord| p@) == (if self.providers_of().contains_key(key@) {
                self.providers_of()[key@]
            } else {
                Seq::<ProviderRecordView>::empty()
            }),
    {
        self.provider_storage.providers(key)
    }

    pub fn provided(&self) -> (r: Vec<ProviderRecord>)
        requires
            self.inv(),
        ensures
            forall|i: int|
                0 <= i < r@.len() ==> self.providers_of().contains_key((#[trigger] r@[i])@.key)
                    && self.providers_of()[r@[i]@.key].contains(r@[i]@),
    {
        self.provider_storage.provided()
    }

    pub fn remove_provider(&mut self, key: &Vec<u8>, provider: &Vec<u8>)
        requires
            old(self).inv(),
        ensures
            final(self).inv(),
            final(self).record_storage == old(self).record_storage,
            old(self).providers_of().contains_key(key@) ==> final(self).providers_of() == old(self).providers_of().insert(
                key@,
                old(self).providers_of()[key@].filter(
                    |p: ProviderRecordView| p.provider != provider@,
                ),
            ),
            !old(self).providers_of().contains_key(key@) ==> final(self).providers_of() == old(self).providers_of(),
    {
        self.provider_storage.remove_provider(key, provider)
    }
}

/// Replacing the record at the position that carries its key updates the
/// map view like a map insert.
proof fn lemma_rec_map_replace(s0: Seq<Record>, s1: Seq<Record>, p: int)
    requires
        forall|a: int, b: int|
            0 <= a < b < s0.len() ==> (#[trigger] s0[a])@.key != (#[trigger] s0[b])@.key,
        forall|a: int, b: int|
            0 <= a < b < s1.len() ==> (#[trigger] s1[a])@.key != (#[trigger] s1[b])@.key,
        0 <= p < s0.len(),
        s1.len() == s0.len(),
        s1[p]@.key == s0[p]@.key,
        forall|i: int| 0 <= i < s0.len() && i != p ==> s1[i] == s0[i],
    ensures
        Map::new(|k: Seq<u8>| rec_has_key(s1, k), |k: Seq<u8>| rec_lookup(s1, k)) =~= Map::new(
            |k: Seq<u8>| rec_has_key(s0, k),
            |k: Seq<u8>| rec_lookup(s0, k),
        ).insert(s1[p]@.key, s1[p]@),
{
    let key = s1[p]@.key;
    assert forall|k: Seq<u8>| rec_has_key(s1, k) implies k == key || rec_has_key(s0, k) by {
        let i = choose|i: int| 0 <= i < s1.len() && (#[trigger] s1[i])@.key == k;
        if i != p {
            assert(s0[i]@.key == k);
        }
    }
    assert forall|k: Seq<u8>| k != key && rec_has_key(s0, k) implies rec_has_key(s1, k) by {
        let i = choose|i: int| 0 <= i < s0.len() && (#[trigger] s0[i])@.key == k;
        assert(s1[i]@.key == k);
    }
    assert(rec_has_key(s1, key)) by {
        assert(s1[p]@.key == key);
    }
    assert(rec_lookup(s1, key) == s1[p]@) by {
        lemma_rec_at(s1, p);
    }
    assert forall|k: Seq<u8>| k != key && rec_has_key(s1, k) implies rec_lookup(s1, k)
        == rec_lookup(s0, k) by {
        let i = choose|i: int| 0 <= i < s1.len() && (#[trigger] s1[i])@.key == k;
        lemma_rec_at(s1, i);
        assert(s0[i]@.key == k && s0[i]@ == s1[i]@);
        lemma_rec_at(s0, i);
    }
}

/// Appending a record with a fresh key updates the map view like a map
/// insert.
proof fn lemma_rec_map_push(s0: Seq<Record>, s1: Seq<Record>)
    requires
        forall|a: int, b: int|
            0 <= a < b < s0.len() ==> (#[trigger] s0[a])@.key != (#[trigger] s0[b])@.key,
        forall|a: int, b: int|
            0 <= a < b < s1.len() ==> (#[trigger] s1[a])@.key != (#[trigger] s1[b])@.key,
        s1.len() == s0.len() + 1,
        forall|i: int| 0 <= i < s0.len() ==> s1[i] == s0[i],
        !rec_has_key(s0, s1.last()@.key),
    ensures
        Map::new(|k: Seq<u8>| rec_has_key(s1, k), |k: Seq<u8>| rec_lookup(s1, k)) =~= Map::new(
            |k: Seq<u8>| rec_has_key(s0, k),
            |k: Seq<u8>| rec_lookup(s0, k),
        ).insert(s1.last()@.key, s1.last()@),
{
    let n = s0.len() as int;
    let key = s1[n]@.key;
    assert forall|k: Seq<u8>| rec_has_key(s1, k) implies k == key || rec_has_key(s0, k) by {
        let i = choose|i: int| 0 <= i < s1.len() && (#[trigger] s1[i])@.key == k;
        if i < n {
            assert(s0[i]@.key == k);
        }
    }
    assert forall|k: Seq<u8>| k != key && rec_has_key(s0, k) implies rec_has_key(s1, k) by {
        let i = choose|i: int| 0 <= i < s0.len() && (#[trigger] s0[i])@.key == k;
        assert(s1[i]@.key == k);
    }
    assert(rec_has_key(s1, key)) by {
        assert(s1[n]@.key == key);
    }
    assert(rec_lookup(s1, key) == s1[n]@) by {
        lemma_rec_at(s1, n);
    }
    assert forall|k: Seq<u8>| k != key && rec_has_key(s1, k) implies rec_lookup(s1, k)
        == rec_lookup(s0, k) by {
        let i = choose|i: int| 0 <= i < s1.len() && (#[trigger] s1[i])@.key == k;
        lemma_rec_at(s1, i);
        assert(i < n);
        assert(s0[i]@.key == k && s0[i]@ == s1[i]@);
        lemma_rec_at(s0, i);
    }
}

/// The externally supplied lookup behind `GetOnlyRecordStorage`: a
/// function from a multihash key to the locally computed value for it.
pub trait ValueGetter: Sized {
    spec fn spec_get(&self, key: Seq<u8>) -> Option<Seq<u8>>;

    fn get_value(&self, key: &Vec<u8>) -> (r: Option<Vec<u8>>)
        ensures
            match r {
                Some(v) => self.spec_get(key@) matches Some(sv) && v@ == sv,
                None => self.spec_get(key@) is None,
            },
    ;
}

/// First entry of the table matching the key.
pub open spec fn value_table_lookup(rows: Seq<(Vec<u8>, Vec<u8>)>, key: Seq<u8>) -> Option<Seq<u8>>
    decreases rows.len(),
{
    if rows.len() == 0 {
        None
    } else if rows[0].0@ == key {
        Some(rows[0].1@)
    } else {
        value_table_lookup(rows.drop_first(), key)
    }
}

proof fn lemma_value_table_prefix(rows: Seq<(Vec<u8>, Vec<u8>)>, key: Seq<u8>, i: int)
    requires
        0 <= i <= rows.len(),
        forall|j: int| 0 <= j < i ==> (#[trigger] rows[j]).0@ != key,
    ensures
        value_table_lookup(rows, key) == value_table_lookup(rows.skip(i), key),
    decreases i,
{
    if i > 0 {
        assert(rows[0].0@ != key);
        assert forall|j: int| 0 <= j < i - 1 implies (#[trigger] rows.drop_first()[j]).0@
            != key by {
            assert(rows.drop_first()[j] == rows[j + 1]);
        }
        lemma_value_table_prefix(rows.drop_first(), key, i - 1);
        assert(rows.drop_first().skip(i - 1) =~= rows.skip(i));
    } else {
        assert(rows.skip(0) =~= rows);
    }
}

/// A value lookup given by a finite table of `(key, value)` rows: a
/// stand-in for the locally computed content set exposed through the
/// get-only store.
pub struct TableValueGetter {
    pub rows: Vec<(Vec<u8>, Vec<u8>)>,
}

impl TableValueGetter {
    pub fn new() -> (r: TableValueGetter)
        ensures
            r.rows@.len() == 0,
    {
        TableValueGetter { rows: Vec::new() }
    }

    pub fn add_row(&mut self, key: Vec<u8>, value: Vec<u8>)
        ensures
            final(self).rows@ == old(self).rows@.push((key, value)),
    {
        self.rows.push((key, value));
    }
}

impl ValueGetter for TableValueGetter {
    open spec fn spec_get(&self, key: Seq<u8>) -> Option<Seq<u8>> {
        value_table_lookup(self.rows@, key)
    }

    fn get_value(&self, key: &Vec<u8>) -> (r: Option<Vec<u8>>) {
        let mut i: usize = 0;
        while i < self.rows.len()
            invariant
                i <= self.rows@.len(),
                forall|j: int| 0 <= j < i ==> (#[trigger] self.rows@[j]).0@ != key@,
            decreases self.rows@.len() - i,
        {
            if bytes_equal(&self.rows[i].0, key) {
                proof {
                    lemma_value_table_prefix(self.rows@, key@, i as int);
                    assert(self.rows@.skip(i as int)[0] == self.rows@[i as int]);
                }
                return Some(clone_bytes(&self.rows[i].1));
            }
            i += 1;
        }
        proof {
            lemma_value_table_prefix(self.rows@, key@, i as int);
            assert(self.rows@.skip(i as int).len() == 0);
        }
        None
    }
}

/// A record store that holds nothing itself and answers `get` from an
/// externally supplied value lookup: a locally computed content set
/// exposed as if it were a DHT record store. Writes are refused, so
/// `obeys_contents` is off; `get` carries the exact contract below.
pub struct GetOnlyRecordStorage<G: ValueGetter> {
    pub value_getter: G,
}

impl<G: ValueGetter> GetOnlyRecordStorage<G> {
    pub fn new(value_getter: G) -> (r: GetOnlyRecordStorage<G>)
        ensures
            r.inv(),
            r.value_getter == value_getter,
    {
        GetOnlyRecordStorage { value_getter }
    }
}

impl<G: ValueGetter> RecordStorage for GetOnlyRecordStorage<G> {
    open spec fn inv(&self) -> bool {
        true
    }

    open spec fn contents(&self) -> Map<Seq<u8>, RecordView> {
        Map::new(
            |k: Seq<u8>| is_multihash(k) && self.value_getter.spec_get(k) is Some,
            |k: Seq<u8>|
                RecordView {
                    key: k,
                    value: self.value_getter.spec_get(k)->Some_0,
                    publisher: None,
                    expires: None,
                },
        )
    }

    open spec fn obeys_contents() -> bool {
        false
    }

    open spec fn stored_record(prior: Map<Seq<u8>, RecordView>, r: RecordView) -> RecordView {
        r
    }

    /// Keys that are no well-formed multihash are misses, as the parse of
    /// the key fails before the lookup is consulted.
    fn get(&self, key: &Vec<u8>) -> (r: Option<Record>)
        ensures
            match r {
                Some(rec) => self.contents().contains_key(key@) && rec@ == self.contents()[key@],
                None => !self.contents().contains_key(key@),
            },
    {
        match crate::wire::multihash_code(key) {
            Some(_) => {},
            None => {
                return None;
            },
        }
        match self.value_getter.get_value(key) {
            Some(value) => Some(
                Record { key: clone_bytes(key), value, publisher: None, expires: None },
            ),
            None => None,
        }
    }

    /// A get-only store refuses every write.
    fn put(&mut self, r: Record) -> (res: Result<(), RecordStoreError>)
        ensures
            res == Result::<(), RecordStoreError>::Err(RecordStoreError::MaxRecords),
            *final(self) == *old(self),
    {
        Err(RecordStoreError::MaxRecords)
    }

    fn remove(&mut self, key: &Vec<u8>)
        ensures
            *final(self) == *old(self),
    {
    }

    fn records(&self) -> (v: Vec<Record>)
        ensures
            v@.len() == 0,
    {
        Vec::new()
    }
}

/// Removing the record at `p` by a swap with the last one updates the
/// map view like a map remove.
proof fn lemma_rec_map_swap_remove(s0: Seq<Record>, s1: Seq<Record>, p: int)
    requires
        forall|a: int, b: int|
            0 <= a < b < s0.len() ==> (#[trigger] s0[a])@.key != (#[trigger] s0[b])@.key,
        0 <= p < s0.len(),
        s1 == s0.update(p, s0.last()).drop_last(),
    ensures
        forall|a: int, b: int|
            0 <= a < b < s1.len() ==> (#[trigger] s1[a])@.key != (#[trigger] s1[b])@.key,
        Map::new(|k: Seq<u8>| rec_has_key(s1, k), |k: Seq<u8>| rec_lookup(s1, k)) =~= Map::new(
            |k: Seq<u8>| rec_has_key(s0, k),
            |k: Seq<u8>| rec_lookup(s0, k),
        ).remove(s0[p]@.key),
{
    let n = s0.len() as int;
    let key = s0[p]@.key;
    assert forall|i: int| 0 <= i < n - 1 implies #[trigger] s1[i] == (if i == p {
        s0[n - 1]
    } else {
        s0[i]
    }) by {}
    assert forall|a: int, b: int| 0 <= a < b < s1.len() implies (#[trigger] s1[a])@.key != (
    #[trigger] s1[b])@.key by {
        let x: int = if a == p { n - 1 } else { a };
        let y: int = if b == p { n - 1 } else { b };
        assert(s1[a] == s0[x] && s1[b] == s0[y]);
        if x < y {
            assert(s0[x]@.key != s0[y]@.key);
        } else {
            assert(s0[y]@.key != s0[x]@.key);
        }
    }
    assert forall|k: Seq<u8>| k != key && rec_has_key(s0, k) implies rec_has_key(s1, k)
        && rec_lookup(s1, k) == rec_lookup(s0, k) by {
        let i = choose|i: int| 0 <= i < s0.len() && (#[trigger] s0[i])@.key == k;
        assert(i != p);
        let w: int = if i == n - 1 { p } else { i };
        assert(w < n - 1) by {
            if i == n - 1 && p == n - 1 {
                assert(false);
            }
        }
        assert(s1[w] == s0[i]);
        lemma_rec_at(s0, i);
        lemma_rec_at(s1, w);
    }
    assert forall|k: Seq<u8>| rec_has_key(s1, k) implies k != key && rec_has_key(s0, k) by {
        let i = choose|i: int| 0 <= i < s1.len() && (#[trigger] s1[i])@.key == k;
        let x: int = if i == p { n - 1 } else { i };
        assert(s1[i] == s0[x]);
        assert(s0[x]@.key == k);
        if s0[x]@.key == key {
            if x != p {
                if x < p {
                    assert(s0[x]@.key != s0[p]@.key);
                } else {
                    assert(s0[p]@.key != s0[x]@.key);
                }
            } else {
                assert(i == p && p == n - 1);
                assert(i < n - 1);
            }
        }
    }
    assert forall|k: Seq<u8>| rec_has_key(s1, k) implies rec_lookup(s1, k) == rec_lookup(
        s0,
        k,
    ) by {
        let i = choose|i: int| 0 <= i < s1.len() && (#[trigger] s1[i])@.key == k;
        let x: int = if i == p { n - 1 } else { i };
        assert(s1[i] == s0[x]);
        lemma_rec_at(s1, i);
        lemma_rec_at(s0, x);
    }
}

} // verus!
