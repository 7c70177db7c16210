use vstd::prelude::*;

verus! {

/// The XOR distance of a key from a peer identity: each key byte xored
/// with the matching peer byte, bytes past the peer's length unchanged.
pub open spec fn xor_dist(key: Seq<u8>, peer: Seq<u8>) -> Seq<u8> {
    Seq::new(
        key.len(),
        |i: int|
            if i < peer.len() {
                key[i] ^ peer[i]
            } else {
                key[i]
            },
    )
}

/// Lexicographic order on byte strings, a proper prefix ordering first.
pub open spec fn bytes_lt(a: Seq<u8>, b: Seq<u8>) -> bool
    decreases a.len(),
{
    if b.len() == 0 {
        false
    } else if a.len() == 0 {
        true
    } else if a[0] < b[0] {
        true
    } else if a[0] > b[0] {
        false
    } else {
        bytes_lt(a.drop_first(), b.drop_first())
    }
}

/// Key `a` lies strictly farther from the peer than key `b`.
pub open spec fn farther(a: Seq<u8>, b: Seq<u8>, peer: Seq<u8>) -> bool {
    bytes_lt(xor_dist(b, peer), xor_dist(a, peer))
}

/// The lexicographic order is irreflexive and total: unequal strings
/// compare strictly one way.
pub proof fn lemma_bytes_lt_total(a: Seq<u8>, b: Seq<u8>)
    ensures
        a == b ==> !bytes_lt(a, b),
        a != b ==> (bytes_lt(a, b) <==> !bytes_lt(b, a)),
    decreases a.len(),
{
    if a.len() > 0 && b.len() > 0 {
        lemma_bytes_lt_total(a.drop_first(), b.drop_first());
        if a[0] == b[0] {
            if a.drop_first() == b.drop_first() {
                assert forall|k: int| 0 <= k < a.len() implies a[k] == b[k] by {
                    if k > 0 {
                        assert(a.drop_first()[k - 1] == b.drop_first()[k - 1]);
                    }
                }
                assert(a =~= b);
            }
        }
    } else if a.len() == 0 && b.len() == 0 {
        assert(a =~= b);
    }
}

/// Distances identify keys: two keys at the same distance from the peer
/// are the same key.
pub proof fn lemma_xor_dist_injective(a: Seq<u8>, b: Seq<u8>, peer: Seq<u8>)
    requires
        xor_dist(a, peer) == xor_dist(b, peer),
    ensures
        a == b,
{
    assert(a.len() == b.len()) by {
        assert(xor_dist(a, peer).len() == a.len() && xor_dist(b, peer).len() == b.len());
    }
    assert forall|i: int| 0 <= i < a.len() implies a[i] == b[i] by {
        assert(xor_dist(a, peer)[i] == xor_dist(b, peer)[i]);
        if i < peer.len() {
            let x = a[i];
            let y = b[i];
            let p = peer[i];
            assert(xor_dist(a, peer)[i] == (a[i] ^ peer[i]));
            assert(xor_dist(b, peer)[i] == (b[i] ^ peer[i]));
            assert(x ^ p == y ^ p);
            assert(x ^ p == y ^ p ==> x == y) by (bit_vector);
            assert(x == y);
        } else {
            assert(xor_dist(a, peer)[i] == a[i]);
            assert(xor_dist(b, peer)[i] == b[i]);
        }
    }
    assert(a =~= b);
}

/// Two distinct keys compare strictly one way by distance from the peer.
pub proof fn lemma_farther_total(a: Seq<u8>, b: Seq<u8>, peer: Seq<u8>)
    ensures
        a == b ==> !farther(a, b, peer),
        a != b ==> (farther(a, b, peer) <==> !farther(b, a, peer)),
{
    lemma_bytes_lt_total(xor_dist(b, peer), xor_dist(a, peer));
    if a != b {
        if xor_dist(a, peer) == xor_dist(b, peer) {
            lemma_xor_dist_injective(a, b, peer);
        }
    }
}

/// The order is unchanged by skipping a common prefix.
proof fn lemma_bytes_lt_skip(a: Seq<u8>, b: Seq<u8>, i: int)
    requires
        0 <= i <= a.len(),
        i <= b.len(),
        forall|j: int| 0 <= j < i ==> a[j] == b[j],
    ensures
        bytes_lt(a, b) == bytes_lt(a.skip(i), b.skip(i)),
    decreases i,
{
    if i > 0 {
        assert(a[0] == b[0]);
        assert(a.len() > 0 && b.len() > 0);
        assert forall|j: int| 0 <= j < i - 1 implies a.drop_first()[j] == b.drop_first()[j] by {
            assert(a.drop_first()[j] == a[j + 1] && b.drop_first()[j] == b[j + 1]);
        }
        lemma_bytes_lt_skip(a.drop_first(), b.drop_first(), i - 1);
        assert(a.drop_first().skip(i - 1) =~= a.skip(i));
        assert(b.drop_first().skip(i - 1) =~= b.skip(i));
    } else {
        assert(a.skip(0) =~= a);
        assert(b.skip(0) =~= b);
    }
}

/// The byte of `xor_dist(key, peer)` at `i`, computed on the fly.
fn dist_byte(key: &Vec<u8>, peer: &Vec<u8>, i: usize) -> (r: u8)
    requires
        i < key@.len(),
    ensures
        r == xor_dist(key@, peer@)[i as int],
{
    if i < peer.len() {
        key[i] ^ peer[i]
    } else {
        key[i]
    }
}

/// Whether key `a` is strictly closer to the peer than key `b`:
/// `xor_dist(a) < xor_dist(b)` lexicographically.
pub fn dist_less(a: &Vec<u8>, b: &Vec<u8>, peer: &Vec<u8>) -> (r: bool)
    ensures
        r == bytes_lt(xor_dist(a@, peer@), xor_dist(b@, peer@)),
{
    let da_len = a.len();
    let db_len = b.len();
    let mut i: usize = 0;
    loop
        invariant
            i <= da_len,
            i <= db_len,
            da_len == a@.len(),
            db_len == b@.len(),
            forall|j: int|
                0 <= j < i ==> xor_dist(a@, peer@)[j] == xor_dist(b@, peer@)[j],
        decreases da_len - i,
    {
        let ghost da = xor_dist(a@, peer@);
        let ghost db = xor_dist(b@, peer@);
        if i >= da_len || i >= db_len {
            proof {
                lemma_bytes_lt_skip(da, db, i as int);
            }
            if i >= db_len {
                proof {
                    assert(db.skip(i as int).len() == 0);
                }
                return false;
            }
            proof {
                assert(da.skip(i as int).len() == 0);
                assert(db.skip(i as int).len() > 0);
            }
            return true;
        }
        let x = dist_byte(a, peer, i);
        let y = dist_byte(b, peer, i);
        if x != y {
            proof {
                lemma_bytes_lt_skip(da, db, i as int);
                assert(da.skip(i as int)[0] == da[i as int]);
                assert(db.skip(i as int)[0] == db[i as int]);
            }
            return x < y;
        }
        i += 1;
    }
}

/// The key set that limits the record cache, ordered by XOR distance
/// from the local peer identity: farther keys leave first. A flat vector
/// with a linear maximum scan realizes the binary heap's contract.
pub struct RecordBinaryHeap {
    pub peer: Vec<u8>,
    pub limit: usize,
    pub keys: Vec<Vec<u8>>,
}

impl RecordBinaryHeap {
    /// Structural invariant: distinct keys, never more than the limit.
    pub open spec fn wf(&self) -> bool {
        &&& self.limit >= 1
        &&& self.keys@.len() <= self.limit
        &&& forall|i: int, j: int|
            0 <= i < j < self.keys@.len() ==> (#[trigger] self.keys@[i])@ != (
            #[trigger] self.keys@[j])@
    }

    /// The keys currently held.
    pub open spec fn key_set(&self) -> Set<Seq<u8>> {
        Set::new(
            |k: Seq<u8>| exists|i: int| 0 <= i < self.keys@.len() && (#[trigger] self.keys@[i])@ == k,
        )
    }

    pub fn new(peer: Vec<u8>, limit: usize) -> (r: RecordBinaryHeap)
        requires
            limit >= 1,
        ensures
            r.wf(),
            r.key_set() == Set::<Seq<u8>>::empty(),
            r.keys@.len() == 0,
            r.limit == limit,
            r.peer == peer,
    {
        let r = RecordBinaryHeap { peer, limit, keys: Vec::new() };
        proof {
            assert(r.key_set() =~= Set::<Seq<u8>>::empty());
        }
        r
    }

    pub fn size(&self) -> (r: usize)
        ensures
            r == self.keys@.len(),
    {
        self.keys.len()
    }

    fn find_key(&self, key: &Vec<u8>) -> (r: Option<usize>)
        requires
            self.wf(),
        ensures
            match r {
                Some(p) => p < self.keys@.len() && self.keys@[p as int]@ == key@
                    && self.key_set().contains(key@),
                None => !self.key_set().contains(key@),
            },
    {
        let mut i: usize = 0;
        while i < self.keys.len()
            invariant
                i <= self.keys@.len(),
                forall|j: int| 0 <= j < i ==> (#[trigger] self.keys@[j])@ != key@,
            decreases self.keys@.len() - i,
        {
            if crate::util::bytes_equal(&self.keys[i], key) {
                return Some(i);
            }
            i += 1;
        }
        None
    }

    /// Position of the farthest key from the peer.
    fn farthest_pos(&self) -> (r: usize)
        requires
            forall|i: int, j: int|
                0 <= i < j < self.keys@.len() ==> (#[trigger] self.keys@[i])@ != (
                #[trigger] self.keys@[j])@,
            self.keys@.len() > 0,
        ensures
            r < self.keys@.len(),
            forall|j: int|
                0 <= j < self.keys@.len() && j != r ==> farther(
                    self.keys@[r as int]@,
                    (#[trigger] self.keys@[j])@,
                    self.peer@,
                ),
    {
        let mut best: usize = 0;
        let mut i: usize = 1;
        while i < self.keys.len()
            invariant
                forall|a: int, b: int|
                    0 <= a < b < self.keys@.len() ==> (#[trigger] self.keys@[a])@ != (
                    #[trigger] self.keys@[b])@,
                best < i <= self.keys@.len(),
                forall|j: int|
                    0 <= j < i && j != best ==> farther(
                        self.keys@[best as int]@,
                        (#[trigger] self.keys@[j])@,
                        self.peer@,
                    ),
            decreases self.keys@.len() - i,
    {
            if dist_less(&self.keys[best], &self.keys[i], &self.peer) {
                proof {
                    let prev = best as int;
                    assert forall|j: int|
                        0 <= j < i + 1 && j != i implies farther(
                        self.keys@[i as int]@,
                        (#[trigger] self.keys@[j])@,
                        self.peer@,
                    ) by {
                        if j == prev {
                        } else {
                            lemma_farther_total(
                                self.keys@[prev]@,
                                self.keys@[j]@,
                                self.peer@,
                            );
                            lemma_farther_total(
                                self.keys@[i as int]@,
                                self.keys@[j]@,
                                self.peer@,
                            );
                            lemma_bytes_lt_trans(
                                xor_dist(self.keys@[j]@, self.peer@),
                                xor_dist(self.keys@[prev]@, self.peer@),
                                xor_dist(self.keys@[i as int]@, self.peer@),
                            );
                        }
                    }
                }
                best = i;
            } else {
                proof {
                    let bi = self.keys@[best as int]@;
                    let ki = self.keys@[i as int]@;
                    assert(bi != ki) by {
                        if best < i {
                        }
                    }
                    lemma_farther_total(bi, ki, self.peer@);
                }
            }
            i += 1;
        }
        best
    }

    /// Inserts a key. When the key is new and the heap is full, the
    /// farthest key of the enlarged set is evicted and returned; the
    /// caller drops the matching record. A key already present changes
    /// nothing.
    pub fn insert(&mut self, key: Vec<u8>) -> (r: Option<Vec<u8>>)
        requires
            old(self).wf(),
        ensures
            final(self).wf(),
            final(self).peer == old(self).peer,
            final(self).limit == old(self).limit,
            old(self).key_set().contains(key@) ==> r is None && final(self).key_set() == old(self).key_set() && final(self).keys@.len() == old(self).keys@.len(),
            !old(self).key_set().contains(key@) && old(self).keys@.len() < old(self).limit ==> r
                is None && final(self).key_set() == old(self).key_set().insert(key@) && final(self).keys@.len() == old(self).keys@.len() + 1,
            !old(self).key_set().contains(key@) && old(self).keys@.len() == old(self).limit ==> (
            match r {
                Some(ev) => {
                    &&& old(self).key_set().insert(key@).contains(ev@)
                    &&& final(self).key_set() == old(self).key_set().insert(key@).remove(ev@)
                    &&& final(self).keys@.len() == old(self).limit
                    &&& forall|k: Seq<u8>|
                        old(self).key_set().insert(key@).contains(k) && k != ev@ ==> farther(
                            ev@,
                            k,
                            old(self).peer@,
                        )
                },
                None => false,
            }),
    {
        if self.find_key(&key).is_some() {
            return None;
        }
        let ghost pre = *self;
        self.keys.push(key);
        proof {
            lemma_key_set_push(pre, *self);
        }
        if self.keys.len() <= self.limit {
            return None;
        }
        let ghost grown = *self;
        let p = self.farthest_pos();
        let evicted = self.keys.swap_remove(p);
        proof {
            lemma_key_set_swap_remove(grown, *self, p as int);
            assert(final(self).key_set() =~= old(self).key_set().insert(evicted@).remove(
                evicted@,
            ).union(final(self).key_set()));
            assert(grown.key_set() == old(self).key_set().insert(grown.keys@.last()@));
            assert forall|k: Seq<u8>|
                old(self).key_set().insert(grown.keys@.last()@).contains(k) && k != evicted@
                implies farther(evicted@, k, old(self).peer@) by {
                let i = choose|i: int|
                    0 <= i < grown.keys@.len() && (#[trigger] grown.keys@[i])@ == k;
                if i == p {
                } else {
                    assert(farther(grown.keys@[p as int]@, grown.keys@[i]@, grown.peer@));
                }
            }
        }
        Some(evicted)
    }

    /// Drops a key, if present.
    pub fn remove(&mut self, key: &Vec<u8>)
        requires
            old(self).wf(),
        ensures
            final(self).wf(),
            final(self).peer == old(self).peer,
            final(self).limit == old(self).limit,
            final(self).key_set() == old(self).key_set().remove(key@),
            old(self).key_set().contains(key@) ==> final(self).keys@.len() == old(self).keys@.len() - 1,
            !old(self).key_set().contains(key@) ==> *final(self) == *old(self),
    {
        let ghost pre = *self;
        match self.find_key(key) {
            Some(p) => {
                let _ = self.keys.swap_remove(p);
                proof {
                    lemma_key_set_swap_remove(pre, *self, p as int);
                    assert(pre.keys@[p as int]@ == key@);
                }
            },
            None => {
                proof {
                    assert(final(self).key_set() =~= old(self).key_set().remove(key@));
                }
            },
        }
    }
}

/// The set of (views of) the keys in a list.
pub open spec fn keys_set_of(s: Seq<Vec<u8>>) -> Set<Seq<u8>> {
    Set::new(|k: Seq<u8>| exists|i: int| 0 <= i < s.len() && (#[trigger] s[i])@ == k)
}

/// A list of pairwise distinct keys carries exactly as many keys as its
/// key set has elements: the heap's size is the size of its key set.
pub proof fn lemma_keys_set_size(s: Seq<Vec<u8>>)
    requires
        forall|i: int, j: int| 0 <= i < j < s.len() ==> (#[trigger] s[i])@ != (#[trigger] s[j])@,
    ensures
        keys_set_of(s).finite(),
        keys_set_of(s).len() == s.len(),
    decreases s.len(),
{
    if s.len() == 0 {
        assert(keys_set_of(s) =~= Set::<Seq<u8>>::empty());
    } else {
        let pre = s.drop_last();
        let n = s.len() - 1;
        assert forall|i: int, j: int| 0 <= i < j < pre.len() implies (#[trigger] pre[i])@ != (
        #[trigger] pre[j])@ by {
            assert(pre[i] == s[i] && pre[j] == s[j]);
        }
        lemma_keys_set_size(pre);
        assert(!keys_set_of(pre).contains(s.last()@)) by {
            if keys_set_of(pre).contains(s.last()@) {
                let i = choose|i: int| 0 <= i < pre.len() && (#[trigger] pre[i])@ == s.last()@;
                assert(s[i]@ == s[n as int]@);
            }
        }
        assert(keys_set_of(s) =~= keys_set_of(pre).insert(s.last()@)) by {
            assert forall|k: Seq<u8>| keys_set_of(s).contains(k) implies keys_set_of(pre).insert(
                s.last()@,
            ).contains(k) by {
                let i = choose|i: int| 0 <= i < s.len() && (#[trigger] s[i])@ == k;
                if i < n {
                    assert(pre[i]@ == k);
                }
            }
            assert forall|k: Seq<u8>|
                keys_set_of(pre).insert(s.last()@).contains(k) implies keys_set_of(s).contains(
                k,
            ) by {
                if k == s.last()@ {
                    assert(s[n as int]@ == k);
                } else {
                    let i = choose|i: int| 0 <= i < pre.len() && (#[trigger] pre[i])@ == k;
                    assert(s[i]@ == k);
                }
            }
        }
    }
}

/// The order on distances is transitive.
pub proof fn lemma_bytes_lt_trans(a: Seq<u8>, b: Seq<u8>, c: Seq<u8>)
    requires
        bytes_lt(a, b),
        bytes_lt(b, c),
    ensures
        bytes_lt(a, c),
    decreases a.len() + b.len() + c.len(),
{
    if a.len() > 0 && b.len() > 0 && c.len() > 0 {
        if a[0] == b[0] && b[0] == c[0] {
            lemma_bytes_lt_trans(a.drop_first(), b.drop_first(), c.drop_first());
        }
    }
}

/// Pushing a fresh key adds exactly it to the key set.
proof fn lemma_key_set_push(pre: RecordBinaryHeap, post: RecordBinaryHeap)
    requires
        forall|i: int, j: int|
            0 <= i < j < pre.keys@.len() ==> (#[trigger] pre.keys@[i])@ != (
            #[trigger] pre.keys@[j])@,
        post.keys@.len() == pre.keys@.len() + 1,
        forall|i: int| 0 <= i < pre.keys@.len() ==> post.keys@[i] == pre.keys@[i],
        !pre.key_set().contains(post.keys@.last()@),
        post.peer == pre.peer,
    ensures
        forall|i: int, j: int|
            0 <= i < j < post.keys@.len() ==> (#[trigger] post.keys@[i])@ != (
            #[trigger] post.keys@[j])@,
        post.key_set() == pre.key_set().insert(post.keys@.last()@),
{
    let n = pre.keys@.len() as int;
    assert forall|i: int, j: int| 0 <= i < j < post.keys@.len() implies (
    #[trigger] post.keys@[i])@ != (#[trigger] post.keys@[j])@ by {
        if j < n {
            assert(pre.keys@[i]@ != pre.keys@[j]@);
        } else {
            assert(post.keys@[i] == pre.keys@[i]);
            if pre.keys@[i]@ == post.keys@[n]@ {
                assert(pre.key_set().contains(post.keys@[n]@));
            }
        }
    }
    assert(post.key_set() =~= pre.key_set().insert(post.keys@.last()@)) by {
        assert forall|k: Seq<u8>| post.key_set().contains(k) implies pre.key_set().insert(
            post.keys@.last()@,
        ).contains(k) by {
            let i = choose|i: int| 0 <= i < post.keys@.len() && (#[trigger] post.keys@[i])@ == k;
            if i < n {
                assert(pre.keys@[i]@ == k);
            }
        }
        assert forall|k: Seq<u8>|
            pre.key_set().insert(post.keys@.last()@).contains(k) implies post.key_set().contains(
            k,
        ) by {
            if k == post.keys@.last()@ {
                assert(post.keys@[n]@ == k);
            } else {
                let i = choose|i: int| 0 <= i < pre.keys@.len() && (#[trigger] pre.keys@[i])@ == k;
                assert(post.keys@[i]@ == k);
            }
        }
    }
}

/// Removing the key at `p` by a swap with the last one drops exactly it
/// from the key set.
proof fn lemma_key_set_swap_remove(pre: RecordBinaryHeap, post: RecordBinaryHeap, p: int)
    requires
        forall|i: int, j: int|
            0 <= i < j < pre.keys@.len() ==> (#[trigger] pre.keys@[i])@ != (
            #[trigger] pre.keys@[j])@,
        0 <= p < pre.keys@.len(),
        post.keys@ == pre.keys@.update(p, pre.keys@.last()).drop_last(),
        post.peer == pre.peer,
    ensures
        forall|i: int, j: int|
            0 <= i < j < post.keys@.len() ==> (#[trigger] post.keys@[i])@ != (
            #[trigger] post.keys@[j])@,
        post.key_set() == pre.key_set().remove(pre.keys@[p]@),
{
    let n = pre.keys@.len() as int;
    let key = pre.keys@[p]@;
    assert forall|i: int| 0 <= i < n - 1 implies #[trigger] post.keys@[i] == (if i == p {
        pre.keys@[n - 1]
    } else {
        pre.keys@[i]
    }) by {}
    assert forall|i: int, j: int| 0 <= i < j < post.keys@.len() implies (
    #[trigger] post.keys@[i])@ != (#[trigger] post.keys@[j])@ by {
        let x: int = if i == p { n - 1 } else { i };
        let y: int = if j == p { n - 1 } else { j };
        assert(post.keys@[i] == pre.keys@[x] && post.keys@[j] == pre.keys@[y]);
        if x < y {
            assert(pre.keys@[x]@ != pre.keys@[y]@);
        } else {
            assert(pre.keys@[y]@ != pre.keys@[x]@);
        }
    }
    assert(post.key_set() =~= pre.key_set().remove(key)) by {
        assert forall|k: Seq<u8>| post.key_set().contains(k) implies pre.key_set().remove(
            key,
        ).contains(k) by {
            let i = choose|i: int| 0 <= i < post.keys@.len() && (#[trigger] post.keys@[i])@ == k;
            let x: int = if i == p { n - 1 } else { i };
            assert(pre.keys@[x]@ == k);
            if k == key {
                if x != p {
                    if x < p {
                        assert(pre.keys@[x]@ != pre.keys@[p]@);
                    } else {
                        assert(pre.keys@[p]@ != pre.keys@[x]@);
                    }
                } else {
                    assert(i == p && p == n - 1);
                    assert(i < n - 1);
                }
            }
        }
        assert forall|k: Seq<u8>| pre.key_set().remove(key).contains(k) implies post.key_set().contains(
            k,
        ) by {
            let i = choose|i: int| 0 <= i < pre.keys@.len() && (#[trigger] pre.keys@[i])@ == k;
            assert(i != p);
            let w: int = if i == n - 1 { p } else { i };
            assert(w < n - 1) by {
                if i == n - 1 && p == n - 1 {
                    assert(false);
                }
            }
            assert(post.keys@[w] == pre.keys@[i]);
            assert(post.keys@[w]@ == k);
        }
    }
}

} // verus!
