use vstd::prelude::*;

verus! {

/// Lifecycle of one salt's commitment, held in the process-wide status
/// map. `Aborted` is the rendezvous between a removal request and the
/// driver that is still building the index.
#[derive(Clone, Copy, Debug, PartialEq, Eq, Structural)]
pub enum CommitmentStatus {
    /// The driver is building this salt's index.
    InProgress,
    /// The index covers the whole plot and is durable.
    Created,
    /// Removal was requested while the build ran; the driver cleans up.
    Aborted,
}

pub open spec fn status_has_key(s: Seq<(u64, CommitmentStatus)>, salt: u64) -> bool {
    exists|i: int| 0 <= i < s.len() && (#[trigger] s[i]).0 == salt
}

pub open spec fn status_lookup(s: Seq<(u64, CommitmentStatus)>, salt: u64) -> CommitmentStatus {
    s[choose|i: int| 0 <= i < s.len() && (#[trigger] s[i]).0 == salt].1
}

/// The mutex-guarded map from salt to commitment status.
pub struct StatusMap {
    pub entries: Vec<(u64, CommitmentStatus)>,
}

impl StatusMap {
    /// Structural invariant: one entry per salt.
    pub open spec fn wf(&self) -> bool {
        forall|i: int, j: int|
            0 <= i < j < self.entries@.len() ==> (#[trigger] self.entries@[i]).0 != (
            #[trigger] self.entries@[j]).0
    }

    pub open spec fn as_map(&self) -> Map<u64, CommitmentStatus> {
        Map::new(
            |s: u64| status_has_key(self.entries@, s),
            |s: u64| status_lookup(self.entries@, s),
        )
    }

    pub fn new() -> (r: StatusMap)
        ensures
            r.wf(),
            r.as_map() == Map::<u64, CommitmentStatus>::empty(),
    {
        let r = StatusMap { entries: Vec::new() };
        proof {
            assert(r.as_map() =~= Map::<u64, CommitmentStatus>::empty());
        }
        r
    }

    /// Position of the salt's entry, if present.
    fn find_pos(&self, salt: u64) -> (r: Option<usize>)
        requires
            self.wf(),
        ensures
            match r {
                Some(p) => p < self.entries@.len() && self.entries@[p as int].0 == salt
                    && self.as_map().contains_key(salt),
                None => !self.as_map().contains_key(salt),
            },
    {
        let mut i: usize = 0;
        while i < self.entries.len()
            invariant
                i <= self.entries@.len(),
                forall|j: int| 0 <= j < i ==> (#[trigger] self.entries@[j]).0 != salt,
            decreases self.entries@.len() - i,
        {
            if self.entries[i].0 == salt {
                return Some(i);
            }
            i += 1;
        }
        None
    }

    /// The status of a salt, `None` when the salt has no entry.
    pub fn get(&self, salt: u64) -> (r: Option<CommitmentStatus>)
        requires
            self.wf(),
        ensures
            r == (if self.as_map().contains_key(salt) {
                Some(self.as_map()[salt])
            } else {
                Option::<CommitmentStatus>::None
            }),
    {
        match self.find_pos(salt) {
            Some(p) => {
                proof {
                    lemma_status_at(self.entries@, p as int);
                }
                Some(self.entries[p].1)
            },
            None => None,
        }
    }

    /// Inserts or overwrites the salt's status.
    pub fn set(&mut self, salt: u64, status: CommitmentStatus)
        requires
            old(self).wf(),
        ensures
            final(self).wf(),
            final(self).as_map() == old(self).as_map().insert(salt, status),
    {
        let ghost s0 = self.entries@;
        match self.find_pos(salt) {
            Some(p) => {
                self.entries[p] = (salt, status);
                proof {
                    let s1 = self.entries@;
                    assert(final(self).wf()) by {
                        assert forall|i: int, j: int| 0 <= i < j < s1.len() implies (
                        #[trigger] s1[i]).0 != (#[trigger] s1[j]).0 by {
                            assert(s0[i].0 != s0[j].0);
                        }
                    }
                    lemma_status_map_update(s0, s1, p as int, salt, status);
                }
            },
            None => {
                self.entries.push((salt, status));
                proof {
                    let s1 = self.entries@;
                    let n = s0.len() as int;
                    assert(final(self).wf()) by {
                        assert forall|i: int, j: int| 0 <= i < j < s1.len() implies (
                        #[trigger] s1[i]).0 != (#[trigger] s1[j]).0 by {
                            if j < n {
                                assert(s0[i].0 != s0[j].0);
                            } else {
                                assert(s1[i] == s0[i]);
                                if s0[i].0 == salt {
                                    assert(status_has_key(s0, salt));
                                }
                            }
                        }
                    }
                    lemma_status_map_push(s0, s1, salt, status);
                }
            },
        }
    }

    /// Drops the salt's entry, if present.
    pub fn remove(&mut self, salt: u64)
        requires
            old(self).wf(),
        ensures
            final(self).wf(),
            final(self).as_map() == old(self).as_map().remove(salt),
    {
        let ghost s0 = self.entries@;
        match self.find_pos(salt) {
            Some(p) => {
                let _ = self.entries.swap_remove(p);
                proof {
                    lemma_status_map_swap_remove(s0, self.entries@, p as int, salt);
                }
            },
            None => {
                proof {
                    assert(final(self).as_map() =~= old(self).as_map().remove(salt));
                }
            },
        }
    }

    /// The salts that have an entry, one each.
    pub fn salts(&self) -> (r: Vec<u64>)
        requires
            self.wf(),
        ensures
            r@.len() == self.entries@.len(),
            forall|i: int| 0 <= i < r@.len() ==> r@[i] == (#[trigger] self.entries@[i]).0,
            forall|i: int| 0 <= i < r@.len() ==> self.as_map().contains_key(#[trigger] r@[i]),
            forall|s: u64| self.as_map().contains_key(s) ==> r@.contains(s),
            forall|i: int, j: int| 0 <= i < j < r@.len() ==> r@[i] != r@[j],
    {
        let mut r: Vec<u64> = Vec::new();
        let mut i: usize = 0;
        while i < self.entries.len()
            invariant
                self.wf(),
                i <= self.entries@.len(),
                r@.len() == i,
                forall|j: int| 0 <= j < i ==> r@[j] == (#[trigger] self.entries@[j]).0,
            decreases self.entries@.len() - i,
        {
            r.push(self.entries[i].0);
            i += 1;
        }
        proof {
            assert forall|k: int|
                0 <= k < r@.len() implies self.as_map().contains_key(#[trigger] r@[k]) by {
                assert(self.entries@[k].0 == r@[k]);
            }
            assert forall|s: u64| self.as_map().contains_key(s) implies r@.contains(s) by {
                let k = choose|k: int| 0 <= k < self.entries@.len() && (#[trigger] self.entries@[k]).0 == s;
                assert(r@[k] == s);
            }
            assert forall|a: int, b: int| 0 <= a < b < r@.len() implies r@[a] != r@[b] by {
                assert(self.entries@[a].0 != self.entries@[b].0);
            }
        }
        r
    }
}

/// In a map with unique keys, the entry at position `i` is what lookup
/// finds for its key.
proof fn lemma_status_at(s: Seq<(u64, CommitmentStatus)>, i: int)
    requires
        forall|a: int, b: int| 0 <= a < b < s.len() ==> (#[trigger] s[a]).0 != (#[trigger] s[b]).0,
        0 <= i < s.len(),
    ensures
        status_has_key(s, s[i].0),
        status_lookup(s, s[i].0) == s[i].1,
{
    assert(status_has_key(s, s[i].0));
    let j = choose|j: int| 0 <= j < s.len() && (#[trigger] s[j]).0 == s[i].0;
    if j < i {
        assert(s[j].0 != s[i].0);
    } else if i < j {
        assert(s[i].0 != s[j].0);
    }
}

proof fn lemma_status_map_update(
    s0: Seq<(u64, CommitmentStatus)>,
    s1: Seq<(u64, CommitmentStatus)>,
    p: int,
    salt: u64,
    status: CommitmentStatus,
)
    requires
        forall|a: int, b: int|
            0 <= a < b < s0.len() ==> (#[trigger] s0[a]).0 != (#[trigger] s0[b]).0,
        forall|a: int, b: int|
            0 <= a < b < s1.len() ==> (#[trigger] s1[a]).0 != (#[trigger] s1[b]).0,
        0 <= p < s0.len(),
        s0[p].0 == salt,
        s1 == s0.update(p, (salt, status)),
    ensures
        Map::new(|s: u64| status_has_key(s1, s), |s: u64| status_lookup(s1, s)) =~= Map::new(
            |s: u64| status_has_key(s0, s),
            |s: u64| status_lookup(s0, s),
        ).insert(salt, status),
{
    assert forall|t: u64| status_has_key(s1, t) implies t == salt || status_has_key(s0, t) by {
        let i = choose|i: int| 0 <= i < s1.len() && (#[trigger] s1[i]).0 == t;
        if i != p {
            assert(s0[i].0 == t);
        }
    }
    assert forall|t: u64| t != salt && status_has_key(s0, t) implies status_has_key(s1, t) by {
        let i = choose|i: int| 0 <= i < s0.len() && (#[trigger] s0[i]).0 == t;
        assert(s1[i].0 == t);
    }
    assert(status_has_key(s1, salt)) by {
        assert(s1[p].0 == salt);
    }
    assert(status_lookup(s1, salt) == status) by {
        lemma_status_at(s1, p);
    }
    assert forall|t: u64| t != salt && status_has_key(s1, t) implies status_lookup(s1, t)
        == status_lookup(s0, t) by {
        let i = choose|i: int| 0 <= i < s1.len() && (#[trigger] s1[i]).0 == t;
        lemma_status_at(s1, i);
        assert(s0[i].0 == t && s0[i].1 == s1[i].1);
        lemma_status_at(s0, i);
    }
}

proof fn lemma_status_map_push(
    s0: Seq<(u64, CommitmentStatus)>,
    s1: Seq<(u64, CommitmentStatus)>,
    salt: u64,
    status: CommitmentStatus,
)
    requires
        forall|a: int, b: int|
            0 <= a < b < s0.len() ==> (#[trigger] s0[a]).0 != (#[trigger] s0[b]).0,
        forall|a: int, b: int|
            0 <= a < b < s1.len() ==> (#[trigger] s1[a]).0 != (#[trigger] s1[b]).0,
        !status_has_key(s0, salt),
        s1 == s0.push((salt, status)),
    ensures
        Map::new(|s: u64| status_has_key(s1, s), |s: u64| status_lookup(s1, s)) =~= Map::new(
            |s: u64| status_has_key(s0, s),
            |s: u64| status_lookup(s0, s),
        ).insert(salt, status),
{
    let n = s0.len() as int;
    assert forall|t: u64| status_has_key(s1, t) implies t == salt || status_has_key(s0, t) by {
        let i = choose|i: int| 0 <= i < s1.len() && (#[trigger] s1[i]).0 == t;
        if i < n {
            assert(s0[i].0 == t);
        }
    }
    assert forall|t: u64| t != salt && status_has_key(s0, t) implies status_has_key(s1, t) by {
        let i = choose|i: int| 0 <= i < s0.len() && (#[trigger] s0[i]).0 == t;
        assert(s1[i].0 == t);
    }
    assert(status_has_key(s1, salt)) by {
        assert(s1[n].0 == salt);
    }
    assert(status_lookup(s1, salt) == status) by {
        lemma_status_at(s1, n);
    }
    assert forall|t: u64| t != salt && status_has_key(s1, t) implies status_lookup(s1, t)
        == status_lookup(s0, t) by {
        let i = choose|i: int| 0 <= i < s1.len() && (#[trigger] s1[i]).0 == t;
        lemma_status_at(s1, i);
        assert(i < n);
        assert(s0[i].0 == t && s0[i].1 == s1[i].1);
        lemma_status_at(s0, i);
    }
}

proof fn lemma_status_map_swap_remove(
    s0: Seq<(u64, CommitmentStatus)>,
    s1: Seq<(u64, CommitmentStatus)>,
    p: int,
    salt: u64,
)
    requires
        forall|a: int, b: int|
            0 <= a < b < s0.len() ==> (#[trigger] s0[a]).0 != (#[trigger] s0[b]).0,
        0 <= p < s0.len(),
        s0[p].0 == salt,
        s1 == s0.update(p, s0.last()).drop_last(),
    ensures
        forall|a: int, b: int|
            0 <= a < b < s1.len() ==> (#[trigger] s1[a]).0 != (#[trigger] s1[b]).0,
        Map::new(|s: u64| status_has_key(s1, s), |s: u64| status_lookup(s1, s)) =~= Map::new(
            |s: u64| status_has_key(s0, s),
            |s: u64| status_lookup(s0, s),
        ).remove(salt),
{
    let n = s0.len() as int;
    assert forall|i: int| 0 <= i < n - 1 implies #[trigger] s1[i] == (if i == p {
        s0[n - 1]
    } else {
        s0[i]
    }) by {}
    assert forall|a: int, b: int| 0 <= a < b < s1.len() implies (#[trigger] s1[a]).0 != (
    #[trigger] s1[b]).0 by {
        let x: int = if a == p { n - 1 } else { a };
        let y: int = if b == p { n - 1 } else { b };
        assert(s1[a] == s0[x] && s1[b] == s0[y]);
        if x < y {
            assert(s0[x].0 != s0[y].0);
        } else {
            assert(s0[y].0 != s0[x].0);
        }
    }
    assert forall|t: u64| t != salt && status_has_key(s0, t) implies status_has_key(s1, t)
        && status_lookup(s1, t) == status_lookup(s0, t) by {
        let i = choose|i: int| 0 <= i < s0.len() && (#[trigger] s0[i]).0 == t;
        assert(i != p);
        let w: int = if i == n - 1 { p } else { i };
        assert(w < n - 1) by {
            if i == n - 1 && p == n - 1 {
                assert(false);
            }
        }
        assert(s1[w] == s0[i]);
        lemma_status_at(s0, i);
        lemma_status_at(s1, w);
    }
    assert forall|t: u64| status_has_key(s1, t) implies t != salt && status_has_key(s0, t) by {
        let i = choose|i: int| 0 <= i < s1.len() && (#[trigger] s1[i]).0 == t;
        let x: int = if i == p { n - 1 } else { i };
        assert(s1[i] == s0[x]);
        assert(s0[x].0 == t);
        if s0[x].0 == salt {
            if x != p {
                if x < p {
                    assert(s0[x].0 != s0[p].0);
                } else {
                    assert(s0[p].0 != s0[x].0);
                }
            } else {
                assert(i == p && p == n - 1);
                assert(i < n - 1);
            }
        }
    }
    assert forall|t: u64| status_has_key(s1, t) implies status_lookup(s1, t) == status_lookup(
        s0,
        t,
    ) by {
        let i = choose|i: int| 0 <= i < s1.len() && (#[trigger] s1[i]).0 == t;
        let x: int = if i == p { n - 1 } else { i };
        assert(s1[i] == s0[x]);
        lemma_status_at(s1, i);
        lemma_status_at(s0, x);
    }
}

} // verus!
