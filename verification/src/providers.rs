use vstd::prelude::*;

use crate::errors::RecordStoreError;
use crate::records::{clone_provider_record, ProviderRecord, ProviderRecordView, ProviderStorage};
use crate::util::bytes_equal;

verus! {

pub open spec fn prov_views(l: Seq<ProviderRecord>) -> Seq<ProviderRecordView> {
    l.map_values(|p: ProviderRecord| p@)
}

pub open spec fn prov_has_key(s: Seq<(Vec<u8>, Vec<ProviderRecord>)>, k: Seq<u8>) -> bool {
    exists|i: int| 0 <= i < s.len() && (#[trigger] s[i]).0@ == k
}

pub open spec fn prov_lookup(s: Seq<(Vec<u8>, Vec<ProviderRecord>)>, k: Seq<u8>) -> Seq<
    ProviderRecordView,
> {
    prov_views(s[choose|i: int| 0 <= i < s.len() && (#[trigger] s[i]).0@ == k].1@)
}

/// With one entry per key, the list at position `i` is what lookup finds
/// for its key.
proof fn lemma_prov_at(s: Seq<(Vec<u8>, Vec<ProviderRecord>)>, i: int)
    requires
        forall|a: int, b: int|
            0 <= a < b < s.len() ==> (#[trigger] s[a]).0@ != (#[trigger] s[b]).0@,
        0 <= i < s.len(),
    ensures
        prov_has_key(s, s[i].0@),
        prov_lookup(s, s[i].0@) == prov_views(s[i].1@),
{
    assert(prov_has_key(s, s[i].0@));
    let j = choose|j: int| 0 <= j < s.len() && (#[trigger] s[j]).0@ == s[i].0@;
    if j < i {
        assert(s[j].0@ != s[i].0@);
    } else if i < j {
        assert(s[i].0@ != s[j].0@);
    }
}

/// In-memory provider store: a list of provider records per key,
/// appended without deduplication.
pub struct MemoryProviderStorage {
    pub entries: Vec<(Vec<u8>, Vec<ProviderRecord>)>,
}

impl MemoryProviderStorage {
    pub fn new() -> (r: MemoryProviderStorage)
        ensures
            r.inv(),
            r.providers_of() == Map::<Seq<u8>, Seq<ProviderRecordView>>::empty(),
    {
        let r = MemoryProviderStorage { entries: Vec::new() };
        proof {
            assert(r.providers_of() =~= Map::<Seq<u8>, Seq<ProviderRecordView>>::empty());
        }
        r
    }

    fn find_pos(&self, key: &Vec<u8>) -> (r: Option<usize>)
        requires
            self.inv(),
        ensures
            match r {
                Some(p) => p < self.entries@.len() && self.entries@[p as int].0@ == key@
                    && self.providers_of().contains_key(key@),
                None => !self.providers_of().contains_key(key@),
            },
    {
        let mut i: usize = 0;
        while i < self.entries.len()
            invariant
                i <= self.entries@.len(),
                forall|j: int| 0 <= j < i ==> (#[trigger] self.entries@[j]).0@ != key@,
            decreases self.entries@.len() - i,
        {
            if bytes_equal(&self.entries[i].0, key) {
                return Some(i);
            }
            i += 1;
        }
        None
    }

    /// Removes and returns the key's entry, leaving the rest alone.
    fn take_entry(&mut self, key: &Vec<u8>) -> (r: Option<(Vec<u8>, Vec<ProviderRecord>)>)
        requires
            old(self).inv(),
        ensures
            final(self).inv(),
            !final(self).providers_of().contains_key(key@),
            match r {
                Some(e) => old(self).providers_of().contains_key(key@) && e.0@ == key@
                    && prov_views(e.1@) == old(self).providers_of()[key@] && (forall|j: int|
                    0 <= j < e.1@.len() ==> (#[trigger] e.1@[j])@.key == key@),
                None => !old(self).providers_of().contains_key(key@) && *final(self) == *old(self),
            },
            forall|k: Seq<u8>|
                k != key@ ==> #[trigger] final(self).providers_of().contains_key(k) == old(
                    self,
                ).providers_of().contains_key(k) && (old(self).providers_of().contains_key(k)
                    ==> final(self).providers_of()[k] == old(self).providers_of()[k]),
    {
        let ghost s0 = self.entries@;
        match self.find_pos(key) {
            Some(p) => {
                let e = self.entries.swap_remove(p);
                proof {
                    lemma_prov_swap_remove(s0, self.entries@, p as int);
                    lemma_prov_at(s0, p as int);
                }
                Some(e)
            },
            None => None,
        }
    }

    /// Puts an entry for a key that has none.
    fn put_entry(&mut self, entry: (Vec<u8>, Vec<ProviderRecord>))
        requires
            old(self).inv(),
            !old(self).providers_of().contains_key(entry.0@),
            forall|j: int| 0 <= j < entry.1@.len() ==> (#[trigger] entry.1@[j])@.key == entry.0@,
        ensures
            final(self).inv(),
            final(self).providers_of().contains_key(entry.0@),
            final(self).providers_of()[entry.0@] == prov_views(entry.1@),
            forall|k: Seq<u8>|
                k != entry.0@ ==> #[trigger] final(self).providers_of().contains_key(k) == old(
                    self,
                ).providers_of().contains_key(k) && (old(self).providers_of().contains_key(k)
                    ==> final(self).providers_of()[k] == old(self).providers_of()[k]),
    {
        let ghost s0 = self.entries@;
        self.entries.push(entry);
        proof {
            lemma_prov_push(s0, self.entries@);
        }
    }
}

impl ProviderStorage for MemoryProviderStorage {
    open spec fn inv(&self) -> bool {
        &&& forall|a: int, b: int|
            0 <= a < b < self.entries@.len() ==> (#[trigger] self.entries@[a]).0@ != (
            #[trigger] self.entries@[b]).0@
        &&& forall|i: int, j: int|
            0 <= i < self.entries@.len() && 0 <= j < (#[trigger] self.entries@[i]).1@.len()
                ==> (#[trigger] self.entries@[i].1@[j])@.key == self.entries@[i].0@
    }

    open spec fn providers_of(&self) -> Map<Seq<u8>, Seq<ProviderRecordView>> {
        Map::new(
            |k: Seq<u8>| prov_has_key(self.entries@, k),
            |k: Seq<u8>| prov_lookup(self.entries@, k),
        )
    }

    fn add_provider(&mut self, r: ProviderRecord) -> (res: Result<(), RecordStoreError>) {
        let key = crate::util::clone_bytes(&r.key);
        let ghost rv = r@;
        let mut list = match self.take_entry(&key) {
            Some(e) => e.1,
            None => Vec::new(),
        };
        let ghost mid = *self;
        let ghost views_before = prov_views(list@);
        proof {
            if !old(self).providers_of().contains_key(rv.key) {
                assert(views_before =~= Seq::<ProviderRecordView>::empty());
            }
        }
        list.push(r);
        proof {
            assert(prov_views(list@) =~= views_before.push(rv));
            assert forall|j: int| 0 <= j < list@.len() implies (#[trigger] list@[j])@.key
                == key@ by {
                if j < list@.len() - 1 {
                    assert(list@[j]@.key == key@);
                }
            }
        }
        self.put_entry((key, list));
        proof {
            assert forall|k: Seq<u8>|
                k != rv.key implies #[trigger] self.providers_of().contains_key(k)
                == old(self).providers_of().contains_key(k) && (old(
                self,
            ).providers_of().contains_key(k) ==> self.providers_of()[k] == old(
                self,
            ).providers_of()[k]) by {
                assert(mid.providers_of().contains_key(k) == old(
                    self,
                ).providers_of().contains_key(k));
            }
            assert(self.providers_of() =~= old(self).providers_of().insert(
                rv.key,
                (if old(self).providers_of().contains_key(rv.key) {
                    old(self).providers_of()[rv.key]
                } else {
                    Seq::<ProviderRecordView>::empty()
                }).push(rv),
            ));
        }
        Ok(())
    }

    fn providers(&self, key: &Vec<u8>) -> (r: Vec<ProviderRecord>) {
        match self.find_pos(key) {
            Some(p) => {
                proof {
                    lemma_prov_at(self.entries@, p as int);
                }
                let list = &self.entries[p].1;
                let mut out: Vec<ProviderRecord> = Vec::new();
                let mut j: usize = 0;
                while j < list.len()
                    invariant
                        j <= list@.len(),
                        out@.len() == j,
                        forall|a: int| 0 <= a < j ==> (#[trigger] out@[a])@ == list@[a]@,
                    decreases list@.len() - j,
                {
                    out.push(clone_provider_record(&list[j]));
                    j += 1;
                }
                proof {
                    assert(out@.map_values(|p: ProviderRecord| p@) =~= prov_views(list@));
                }
                out
            },
            None => {
                let out: Vec<ProviderRecord> = Vec::new();
                proof {
                    assert(out@.map_values(|p: ProviderRecord| p@) =~= Seq::<
                        ProviderRecordView,
                    >::empty());
                }
                out
            },
        }
    }

    fn provided(&self) -> (r: Vec<ProviderRecord>) {
        let mut out: Vec<ProviderRecord> = Vec::new();
        let mut i: usize = 0;
        while i < self.entries.len()
            invariant
                self.inv(),
                i <= self.entries@.len(),
                forall|a: int|
                    0 <= a < out@.len() ==> self.providers_of().contains_key(
                        (#[trigger] out@[a])@.key,
                    ) && self.providers_of()[out@[a]@.key].contains(out@[a]@),
            decreases self.entries@.len() - i,
        {
            let list = &self.entries[i].1;
            let mut j: usize = 0;
            while j < list.len()
                invariant
                    self.inv(),
                    i < self.entries@.len(),
                    list@ == self.entries@[i as int].1@,
                    j <= list@.len(),
                    forall|a: int|
                        0 <= a < out@.len() ==> self.providers_of().contains_key(
                            (#[trigger] out@[a])@.key,
                        ) && self.providers_of()[out@[a]@.key].contains(out@[a]@),
                decreases list@.len() - j,
            {
                let rec = clone_provider_record(&list[j]);
                proof {
                    lemma_prov_at(self.entries@, i as int);
                    assert(self.entries@[i as int].1@[j as int]@.key == self.entries@[i as int].0@);
                    assert(rec@.key == self.entries@[i as int].0@);
                    assert(self.providers_of()[rec@.key].contains(rec@)) by {
                        assert(prov_views(list@)[j as int] == rec@);
                    }
                }
                out.push(rec);
                j += 1;
            }
            i += 1;
        }
        out
    }

    fn remove_provider(&mut self, key: &Vec<u8>, provider: &Vec<u8>) {
        let entry = match self.take_entry(key) {
            Some(e) => e,
            None => {
                return ;
            },
        };
        let (owned_key, list) = entry;
        let ghost pred = |p: ProviderRecordView| p.provider != provider@;
        let mut kept: Vec<ProviderRecord> = Vec::new();
        proof {
            reveal(Seq::filter);
            assert(prov_views(list@).take(0) =~= Seq::<ProviderRecordView>::empty());
            assert(prov_views(kept@) =~= Seq::<ProviderRecordView>::empty());
        }
        let mut j: usize = 0;
        while j < list.len()
            invariant
                j <= list@.len(),
                prov_views(kept@) == prov_views(list@).take(j as int).filter(pred),
                pred == (|p: ProviderRecordView| p.provider != provider@),
                owned_key@ == key@,
                forall|a: int| 0 <= a < list@.len() ==> (#[trigger] list@[a])@.key == key@,
                forall|a: int| 0 <= a < kept@.len() ==> (#[trigger] kept@[a])@.key == key@,
            decreases list@.len() - j,
        {
            let ghost before = prov_views(kept@);
            let keep_it = !bytes_equal(&list[j].provider, provider);
            if keep_it {
                kept.push(clone_provider_record(&list[j]));
            }
            proof {
                reveal(Seq::filter);
                let tv = prov_views(list@).take(j as int);
                let tv1 = prov_views(list@).take(j + 1);
                assert(tv1.drop_last() =~= tv);
                assert(tv1.last() == list@[j as int]@);
                if keep_it {
                    assert(prov_views(kept@) =~= before.push(list@[j as int]@));
                } else {
                    assert(prov_views(kept@) =~= before);
                }
            }
            j += 1;
        }
        proof {
            reveal(Seq::filter);
            assert(prov_views(list@).take(list@.len() as int) =~= prov_views(list@));
        }
        self.put_entry((owned_key, kept));
        proof {
            assert(self.providers_of() =~= old(self).providers_of().insert(
                key@,
                old(self).providers_of()[key@].filter(
                    |p: ProviderRecordView| p.provider != provider@,
                ),
            ));
        }
    }
}

proof fn lemma_prov_push(s0: Seq<(Vec<u8>, Vec<ProviderRecord>)>, s1: Seq<(Vec<u8>, Vec<ProviderRecord>)>)
    requires
        forall|a: int, b: int|
            0 <= a < b < s0.len() ==> (#[trigger] s0[a]).0@ != (#[trigger] s0[b]).0@,
        s1.len() == s0.len() + 1,
        forall|i: int| 0 <= i < s0.len() ==> s1[i] == s0[i],
        !prov_has_key(s0, s1.last().0@),
    ensures
        forall|a: int, b: int|
            0 <= a < b < s1.len() ==> (#[trigger] s1[a]).0@ != (#[trigger] s1[b]).0@,
        Map::new(|k: Seq<u8>| prov_has_key(s1, k), |k: Seq<u8>| prov_lookup(s1, k)) =~= Map::new(
            |k: Seq<u8>| prov_has_key(s0, k),
            |k: Seq<u8>| prov_lookup(s0, k),
        ).insert(s1.last().0@, prov_views(s1.last().1@)),
{
    let n = s0.len() as int;
    assert forall|a: int, b: int| 0 <= a < b < s1.len() implies (#[trigger] s1[a]).0@ != (
    #[trigger] s1[b]).0@ by {
        if b < n {
            assert(s0[a].0@ != s0[b].0@);
        } else {
            assert(s1[a] == s0[a]);
            if s0[a].0@ == s1[n].0@ {
                assert(prov_has_key(s0, s1[n].0@));
            }
        }
    }
    lemma_prov_at(s1, n);
    assert forall|k: Seq<u8>|
        k != s1.last().0@ implies #[trigger] prov_has_key(s1, k) == prov_has_key(s0, k)
        && (prov_has_key(s0, k) ==> prov_lookup(s1, k) == prov_lookup(s0, k)) by {
        if prov_has_key(s0, k) {
            let i = choose|i: int| 0 <= i < s0.len() && (#[trigger] s0[i]).0@ == k;
            assert(s1[i].0@ == k);
            lemma_prov_at(s0, i);
            lemma_prov_at(s1, i);
        } else {
            if prov_has_key(s1, k) {
                let i = choose|i: int| 0 <= i < s1.len() && (#[trigger] s1[i]).0@ == k;
                assert(i < n ==> s0[i].0@ == k);
            }
        }
    }
}

proof fn lemma_prov_swap_remove(
    s0: Seq<(Vec<u8>, Vec<ProviderRecord>)>,
    s1: Seq<(Vec<u8>, Vec<ProviderRecord>)>,
    p: int,
)
    requires
        forall|a: int, b: int|
            0 <= a < b < s0.len() ==> (#[trigger] s0[a]).0@ != (#[trigger] s0[b]).0@,
        0 <= p < s0.len(),
        s1 == s0.update(p, s0.last()).drop_last(),
    ensures
        forall|a: int, b: int|
            0 <= a < b < s1.len() ==> (#[trigger] s1[a]).0@ != (#[trigger] s1[b]).0@,
        !prov_has_key(s1, s0[p].0@),
        Map::new(|k: Seq<u8>| prov_has_key(s1, k), |k: Seq<u8>| prov_lookup(s1, k)) =~= Map::new(
            |k: Seq<u8>| prov_has_key(s0, k),
            |k: Seq<u8>| prov_lookup(s0, k),
        ).remove(s0[p].0@),
{
    let n = s0.len() as int;
    let key = s0[p].0@;
    assert forall|i: int| 0 <= i < n - 1 implies #[trigger] s1[i] == (if i == p {
        s0[n - 1]
    } else {
        s0[i]
    }) by {}
    assert forall|a: int, b: int| 0 <= a < b < s1.len() implies (#[trigger] s1[a]).0@ != (
    #[trigger] s1[b]).0@ by {
        let x: int = if a == p { n - 1 } else { a };
        let y: int = if b == p { n - 1 } else { b };
        assert(s1[a] == s0[x] && s1[b] == s0[y]);
        if x < y {
            assert(s0[x].0@ != s0[y].0@);
        } else {
            assert(s0[y].0@ != s0[x].0@);
        }
    }
    assert(!prov_has_key(s1, key)) by {
        if prov_has_key(s1, key) {
            let i = choose|i: int| 0 <= i < s1.len() && (#[trigger] s1[i]).0@ == key;
            let x: int = if i == p { n - 1 } else { i };
            assert(s0[x].0@ == key);
            if x != p {
                if x < p {
                    assert(s0[x].0@ != s0[p].0@);
                } else {
                    assert(s0[p].0@ != s0[x].0@);
                }
            } else {
                assert(i == p && p == n - 1);
                assert(i < n - 1);
            }
        }
    }
    assert forall|k: Seq<u8>|
        k != key implies #[trigger] prov_has_key(s1, k) == prov_has_key(s0, k) && (prov_has_key(
        s0,
        k,
    ) ==> prov_lookup(s1, k) == prov_lookup(s0, k)) by {
        if prov_has_key(s0, k) {
            let i = choose|i: int| 0 <= i < s0.len() && (#[trigger] s0[i]).0@ == k;
            assert(i != p);
            let w: int = if i == n - 1 { p } else { i };
            assert(w < n - 1) by {
                if i == n - 1 && p == n - 1 {
                    assert(false);
                }
            }
            assert(s1[w] == s0[i]);
            lemma_prov_at(s0, i);
            lemma_prov_at(s1, w);
        } else {
            if prov_has_key(s1, k) {
                let i = choose|i: int| 0 <= i < s1.len() && (#[trigger] s1[i]).0@ == k;
                let x: int = if i == p { n - 1 } else { i };
                assert(s0[x].0@ == k);
                assert(prov_has_key(s0, k));
            }
        }
    }
}

} // verus!
