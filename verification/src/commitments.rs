use vstd::prelude::*;

use crate::tag_index::{contains_tag, lookup_tag, spec_put_many, TagIndex};

verus! {

/// One tag index on disk: the directory `salt` once finished, the
/// directory `salt.inprogress` while the index is still being built.
pub struct CommitmentDir {
    pub salt: u64,
    pub index: TagIndex,
    pub finished: bool,
}

/// The directory of tag indexes, one per salt. `finish` stands for the
/// atomic rename of `salt.inprogress` to `salt`; an unfinished index is
/// treated as absent on startup.
pub struct Commitments {
    pub dirs: Vec<CommitmentDir>,
}

impl Commitments {
    /// Structural invariant: one directory per salt, well-formed indexes.
    pub open spec fn wf(&self) -> bool {
        &&& forall|i: int, j: int|
            0 <= i < j < self.dirs@.len() ==> (#[trigger] self.dirs@[i]).salt != (
            #[trigger] self.dirs@[j]).salt
        &&& forall|i: int| 0 <= i < self.dirs@.len() ==> (#[trigger] self.dirs@[i]).index.wf()
    }

    pub open spec fn has_salt(&self, salt: u64) -> bool {
        exists|i: int| 0 <= i < self.dirs@.len() && (#[trigger] self.dirs@[i]).salt == salt
    }

    pub open spec fn pos_of(&self, salt: u64) -> int {
        choose|i: int| 0 <= i < self.dirs@.len() && (#[trigger] self.dirs@[i]).salt == salt
    }

    /// The entries of the salt's index, in ascending tag order.
    pub open spec fn entries_of(&self, salt: u64) -> Seq<(u64, u64)> {
        self.dirs@[self.pos_of(salt)].index.entries@
    }

    /// The salt's index seen as a map from tag to piece index.
    pub open spec fn tag_map_of(&self, salt: u64) -> Map<u64, u64> {
        Map::new(
            |t: u64| contains_tag(self.entries_of(salt), t),
            |t: u64| lookup_tag(self.entries_of(salt), t),
        )
    }

    pub open spec fn finished_of(&self, salt: u64) -> bool {
        self.dirs@[self.pos_of(salt)].finished
    }

    /// Everything there is to know about one salt: absent, or present
    /// with its entries and its finished flag.
    pub open spec fn salt_view(&self, salt: u64) -> Option<(Seq<(u64, u64)>, bool)> {
        if self.has_salt(salt) {
            Some((self.entries_of(salt), self.finished_of(salt)))
        } else {
            None
        }
    }

    pub fn new() -> (r: Commitments)
        ensures
            r.wf(),
            forall|s: u64| !r.has_salt(s),
            r.dirs@.len() == 0,
    {
        Commitments { dirs: Vec::new() }
    }

    /// Registers an index found on disk at startup. Only finished indexes
    /// are opened this way: `*.inprogress` leftovers are treated as absent.
    pub fn install(&mut self, salt: u64, index: TagIndex)
        requires
            old(self).wf(),
            index.wf(),
            !old(self).has_salt(salt),
        ensures
            final(self).wf(),
            final(self).salt_view(salt) == Some((index.entries@, true)),
            forall|s: u64| s != salt ==> final(self).salt_view(s) == old(self).salt_view(s),
    {
        let ghost pre = *self;
        self.dirs.push(CommitmentDir { salt, index, finished: true });
        proof {
            lemma_push_views(pre, *self, salt);
        }
    }

    /// The salts present, one per directory.
    pub fn salts(&self) -> (r: Vec<u64>)
        ensures
            r@.len() == self.dirs@.len(),
            forall|i: int| 0 <= i < r@.len() ==> r@[i] == (#[trigger] self.dirs@[i]).salt,
    {
        let mut r: Vec<u64> = Vec::new();
        let mut i: usize = 0;
        while i < self.dirs.len()
            invariant
                i <= self.dirs@.len(),
                r@.len() == i,
                forall|j: int| 0 <= j < i ==> r@[j] == (#[trigger] self.dirs@[j]).salt,
            decreases self.dirs@.len() - i,
        {
            r.push(self.dirs[i].salt);
            i += 1;
        }
        r
    }

    /// Position of the salt's directory, if it is present.
    fn find_pos(&self, salt: u64) -> (r: Option<usize>)
        requires
            self.wf(),
        ensures
            match r {
                Some(p) => self.has_salt(salt) && p == self.pos_of(salt) && p < self.dirs@.len()
                    && self.dirs@[p as int].salt == salt,
                None => !self.has_salt(salt),
            },
    {
        let mut i: usize = 0;
        while i < self.dirs.len()
            invariant
                self.wf(),
                i <= self.dirs@.len(),
                forall|j: int| 0 <= j < i ==> (#[trigger] self.dirs@[j]).salt != salt,
            decreases self.dirs@.len() - i,
        {
            if self.dirs[i].salt == salt {
                proof {
                    let p = self.pos_of(salt);
                    assert(self.dirs@[p].salt == salt);
                    if p != i {
                        assert(self.dirs@[p].salt != self.dirs@[i as int].salt);
                    }
                }
                return Some(i);
            }
            i += 1;
        }
        None
    }

    /// Writes tags for the consecutive pieces `first, first + 1, ...` into
    /// the salt's index, creating the index when the salt is new. A new
    /// index starts unfinished, as `salt.inprogress` on disk.
    pub fn put_tags(&mut self, salt: u64, first: u64, tags: &Vec<u64>)
        requires
            old(self).wf(),
            first + tags@.len() <= u64::MAX,
        ensures
            final(self).wf(),
            final(self).has_salt(salt),
            crate::tag_index::sorted_by_tag(final(self).entries_of(salt)),
            final(self).tag_map_of(salt) == spec_put_many(
                (if old(self).has_salt(salt) {
                    old(self).tag_map_of(salt)
                } else {
                    Map::<u64, u64>::empty()
                }),
                tags@,
                first,
            ),
            final(self).finished_of(salt) == (if old(self).has_salt(salt) {
                old(self).finished_of(salt)
            } else {
                false
            }),
            forall|s: u64| s != salt ==> final(self).salt_view(s) == old(self).salt_view(s),
    {
        let mut dir = match self.take_dir(salt) {
            Some(d) => d,
            None => CommitmentDir { salt, index: TagIndex::new(), finished: false },
        };
        let ghost mid = *self;
        proof {
            if !old(self).has_salt(salt) {
                assert(dir.index.as_map() =~= Map::<u64, u64>::empty());
            }
        }
        dir.index.put_many(first, tags);
        let ghost d_after = dir;
        self.dirs.push(dir);
        proof {
            lemma_push_views(mid, *self, salt);
            assert(final(self).tag_map_of(salt) =~= d_after.index.as_map());
        }
    }

    /// Serves a range query against the salt's index: the first entry of
    /// the window in scan order, `None` when the salt has no index or the
    /// window is empty.
    pub fn find(&self, salt: u64, target: u64, range: u64) -> (r: Option<(u64, u64)>)
        requires
            self.wf(),
        ensures
            r == (if self.has_salt(salt) {
                crate::tag_index::spec_find(self.entries_of(salt), target, range)
            } else {
                Option::<(u64, u64)>::None
            }),
    {
        match self.find_pos(salt) {
            Some(p) => self.dirs[p].index.find_by_range(target, range),
            None => None,
        }
    }

    /// Marks the salt's index finished: the rename of `salt.inprogress`
    /// to `salt`. Returns whether the salt was present.
    pub fn finish(&mut self, salt: u64) -> (r: bool)
        requires
            old(self).wf(),
        ensures
            final(self).wf(),
            r == old(self).has_salt(salt),
            r ==> final(self).salt_view(salt) == Some((old(self).entries_of(salt), true)),
            !r ==> *final(self) == *old(self),
            forall|s: u64| s != salt ==> final(self).salt_view(s) == old(self).salt_view(s),
    {
        match self.take_dir(salt) {
            Some(d) => {
                let ghost mid = *self;
                let finished_dir = CommitmentDir { finished: true, ..d };
                self.dirs.push(finished_dir);
                proof {
                    lemma_push_views(mid, *self, salt);
                }
                true
            },
            None => false,
        }
    }

    /// Closes and deletes the salt's index directory, if it is present.
    pub fn remove(&mut self, salt: u64)
        requires
            old(self).wf(),
        ensures
            final(self).wf(),
            !final(self).has_salt(salt),
            forall|s: u64| s != salt ==> final(self).salt_view(s) == old(self).salt_view(s),
    {
        let _ = self.take_dir(salt);
    }

    /// Removes and returns the salt's directory, leaving the rest alone.
    fn take_dir(&mut self, salt: u64) -> (r: Option<CommitmentDir>)
        requires
            old(self).wf(),
        ensures
            final(self).wf(),
            !final(self).has_salt(salt),
            match r {
                Some(d) => old(self).has_salt(salt) && d.salt == salt && d.index.wf()
                    && d.index.entries@ == old(self).entries_of(salt) && d.finished == old(
                    self,
                ).finished_of(salt),
                None => !old(self).has_salt(salt) && *final(self) == *old(self),
            },
            forall|s: u64| s != salt ==> final(self).salt_view(s) == old(self).salt_view(s),
    {
        match self.find_pos(salt) {
            Some(p) => {
                let ghost pre = *self;
                let d = self.dirs.swap_remove(p);
                proof {
                    lemma_swap_remove_views(pre, *self, p as int, salt);
                }
                Some(d)
            },
            None => None,
        }
    }
}

/// Two directories that agree on a salt's view agree on its presence,
/// entries and finished flag.
pub proof fn lemma_view_eq(c1: &Commitments, c2: &Commitments, s: u64)
    requires
        c1.salt_view(s) == c2.salt_view(s),
    ensures
        c1.has_salt(s) == c2.has_salt(s),
        c1.has_salt(s) ==> c1.entries_of(s) == c2.entries_of(s) && c1.finished_of(s)
            == c2.finished_of(s),
{
}

/// Pushing a directory for a fresh salt leaves every other salt's view
/// unchanged and gives the fresh salt the pushed view.
proof fn lemma_push_views(pre: Commitments, post: Commitments, salt: u64)
    requires
        pre.wf(),
        !pre.has_salt(salt),
        post.dirs@.len() == pre.dirs@.len() + 1,
        post.dirs@ == pre.dirs@.push(post.dirs@.last()),
        post.dirs@.last().salt == salt,
        post.dirs@.last().index.wf(),
    ensures
        post.wf(),
        post.has_salt(salt),
        post.entries_of(salt) == post.dirs@.last().index.entries@,
        post.finished_of(salt) == post.dirs@.last().finished,
        forall|s: u64| s != salt ==> post.salt_view(s) == pre.salt_view(s),
{
    let n = pre.dirs@.len() as int;
    assert forall|i: int, j: int| 0 <= i < j < post.dirs@.len() implies (
    #[trigger] post.dirs@[i]).salt != (#[trigger] post.dirs@[j]).salt by {
        if j < n {
            assert(post.dirs@[i] == pre.dirs@[i] && post.dirs@[j] == pre.dirs@[j]);
        } else {
            assert(post.dirs@[i] == pre.dirs@[i]);
            if pre.dirs@[i].salt == salt {
                assert(pre.has_salt(salt));
            }
        }
    }
    assert forall|i: int| 0 <= i < post.dirs@.len() implies (
    #[trigger] post.dirs@[i]).index.wf() by {
        if i < n {
            assert(post.dirs@[i] == pre.dirs@[i]);
        }
    }
    assert(post.dirs@[n].salt == salt);
    assert(post.has_salt(salt));
    assert(post.pos_of(salt) == n) by {
        let p = post.pos_of(salt);
        if p < n {
            assert(post.dirs@[p] == pre.dirs@[p]);
            assert(pre.has_salt(salt));
        }
    }
    assert forall|s: u64| s != salt implies post.salt_view(s) == pre.salt_view(s) by {
        if pre.has_salt(s) {
            let p = pre.pos_of(s);
            assert(post.dirs@[p] == pre.dirs@[p]);
            assert(post.has_salt(s));
            let q = post.pos_of(s);
            assert(post.dirs@[q].salt == s);
            if q == n {
                assert(post.dirs@[q].salt == salt);
            } else {
                assert(post.dirs@[q] == pre.dirs@[q]);
                if q != p {
                    assert(pre.dirs@[q].salt != pre.dirs@[p].salt);
                }
            }
        } else {
            if post.has_salt(s) {
                let q = post.pos_of(s);
                assert(post.dirs@[q].salt == s);
                if q < n {
                    assert(pre.dirs@[q].salt == s);
                    assert(pre.has_salt(s));
                }
            }
        }
    }
}

/// Removing the salt's directory by a swap with the last one leaves every
/// other salt's view unchanged.
proof fn lemma_swap_remove_views(pre: Commitments, post: Commitments, p: int, salt: u64)
    requires
        pre.wf(),
        0 <= p < pre.dirs@.len(),
        pre.dirs@[p].salt == salt,
        post.dirs@ == pre.dirs@.update(p, pre.dirs@.last()).drop_last(),
    ensures
        post.wf(),
        !post.has_salt(salt),
        forall|s: u64| s != salt ==> post.salt_view(s) == pre.salt_view(s),
{
    let n = pre.dirs@.len() as int;
    assert(post.dirs@.len() == n - 1);
    assert forall|i: int| 0 <= i < n - 1 implies #[trigger] post.dirs@[i] == (if i == p {
        pre.dirs@[n - 1]
    } else {
        pre.dirs@[i]
    }) by {}
    assert forall|i: int, j: int| 0 <= i < j < post.dirs@.len() implies (
    #[trigger] post.dirs@[i]).salt != (#[trigger] post.dirs@[j]).salt by {
        let a: int = if i == p { n - 1 } else { i };
        let b: int = if j == p { n - 1 } else { j };
        assert(post.dirs@[i] == pre.dirs@[a] && post.dirs@[j] == pre.dirs@[b]);
        assert(a != b);
        if a < b {
            assert(pre.dirs@[a].salt != pre.dirs@[b].salt);
        } else {
            assert(pre.dirs@[b].salt != pre.dirs@[a].salt);
        }
    }
    assert forall|i: int| 0 <= i < post.dirs@.len() implies (
    #[trigger] post.dirs@[i]).index.wf() by {
        let a: int = if i == p { n - 1 } else { i };
        assert(post.dirs@[i] == pre.dirs@[a]);
    }
    assert(!post.has_salt(salt)) by {
        if post.has_salt(salt) {
            let q = post.pos_of(salt);
            assert(post.dirs@[q].salt == salt);
            let a: int = if q == p { n - 1 } else { q };
            assert(pre.dirs@[a].salt == salt);
            if a != p {
                if a < p {
                    assert(pre.dirs@[a].salt != pre.dirs@[p].salt);
                } else {
                    assert(pre.dirs@[p].salt != pre.dirs@[a].salt);
                }
            } else {
                assert(q == p && p == n - 1);
                assert(q < n - 1);
            }
        }
    }
    assert forall|s: u64| s != salt implies post.salt_view(s) == pre.salt_view(s) by {
        if pre.has_salt(s) {
            let q = pre.pos_of(s);
            assert(pre.dirs@[q].salt == s);
            assert(q != p);
            let w: int = if q == n - 1 { p } else { q };
            assert(w < n - 1) by {
                if q == n - 1 && p == n - 1 {
                    assert(false);
                }
            }
            assert(post.dirs@[w] == pre.dirs@[q]);
            assert(post.has_salt(s));
            let u = post.pos_of(s);
            assert(post.dirs@[u].salt == s);
            let a: int = if u == p { n - 1 } else { u };
            assert(pre.dirs@[a].salt == s);
            if a != q {
                if a < q {
                    assert(pre.dirs@[a].salt != pre.dirs@[q].salt);
                } else {
                    assert(pre.dirs@[q].salt != pre.dirs@[a].salt);
                }
            }
            assert(post.dirs@[u] == pre.dirs@[q]);
        } else {
            if post.has_salt(s) {
                let u = post.pos_of(s);
                assert(post.dirs@[u].salt == s);
                let a: int = if u == p { n - 1 } else { u };
                assert(pre.dirs@[a].salt == s);
                assert(pre.has_salt(s));
            }
        }
    }
}

} // verus!
