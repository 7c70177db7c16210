use vstd::prelude::*;

verus! {

/// One past the largest tag value, as an integer.
pub open spec fn tag_modulus() -> int {
    0x1_0000_0000_0000_0000
}

/// `a - b` on 64-bit tags, wrapping around zero.
pub open spec fn wrap_sub(a: u64, b: u64) -> u64 {
    if a >= b {
        (a - b) as u64
    } else {
        (a - b + tag_modulus()) as u64
    }
}

/// `a + b` on 64-bit tags, wrapping around the largest tag.
pub open spec fn wrap_add(a: u64, b: u64) -> u64 {
    if a + b <= u64::MAX {
        (a + b) as u64
    } else {
        (a + b - tag_modulus()) as u64
    }
}

/// The window of tags that `find_by_range(target, range)` searches: the
/// closed interval of width `2 * (range / 2)` centred on `target`, taken
/// modulo `2^64`. When neither end wraps it is `[lower, upper]`; when one
/// end wraps it is the union `[0, upper] ∪ [lower, 2^64 - 1]`.
pub open spec fn tag_in_window(tag: u64, target: u64, range: u64) -> bool {
    let lo = wrap_sub(target, (range / 2) as u64);
    let up = wrap_add(target, (range / 2) as u64);
    if lo <= up {
        lo <= tag <= up
    } else {
        tag <= up || tag >= lo
    }
}

/// Strictly ascending tag order: the sorted invariant of the index.
pub open spec fn sorted_by_tag(s: Seq<(u64, u64)>) -> bool {
    forall|i: int, j: int| 0 <= i < j < s.len() ==> (#[trigger] s[i]).0 < (#[trigger] s[j]).0
}

/// Whether some entry carries `tag`.
pub open spec fn contains_tag(s: Seq<(u64, u64)>, tag: u64) -> bool {
    exists|i: int| 0 <= i < s.len() && (#[trigger] s[i]).0 == tag
}

/// The piece index stored under `tag` (meaningful only when present).
pub open spec fn lookup_tag(s: Seq<(u64, u64)>, tag: u64) -> u64 {
    s[choose|i: int| 0 <= i < s.len() && (#[trigger] s[i]).0 == tag].1
}

/// Index of the first entry whose tag is at least `bound`; `s.len()` when
/// there is none. On a sorted sequence this is the seek point of a scan.
pub open spec fn first_geq(s: Seq<(u64, u64)>, bound: u64) -> int
    decreases s.len(),
{
    if s.len() == 0 {
        0
    } else if s[0].0 >= bound {
        0
    } else {
        1 + first_geq(s.drop_first(), bound)
    }
}

/// What a forward scan of the sorted entries returns for a range query:
/// the first hit in scan order. A wrapped window is scanned low half
/// first, exactly as the engine seeks `[0, upper]` before `[lower, ..]`.
pub open spec fn spec_find(s: Seq<(u64, u64)>, target: u64, range: u64) -> Option<(u64, u64)> {
    let lo = wrap_sub(target, (range / 2) as u64);
    let up = wrap_add(target, (range / 2) as u64);
    if lo <= up {
        let i = first_geq(s, lo);
        if i < s.len() && s[i].0 <= up {
            Some(s[i])
        } else {
            None
        }
    } else {
        if s.len() > 0 && s[0].0 <= up {
            Some(s[0])
        } else {
            let i = first_geq(s, lo);
            if i < s.len() {
                Some(s[i])
            } else {
                None
            }
        }
    }
}

/// The map that results from writing `tags[0], tags[1], ...` under piece
/// indexes `first, first + 1, ...`, later writes overwriting earlier ones.
pub open spec fn spec_put_many(m: Map<u64, u64>, tags: Seq<u64>, first: u64) -> Map<u64, u64>
    decreases tags.len(),
{
    if tags.len() == 0 {
        m
    } else {
        spec_put_many(m.insert(tags[0], first), tags.drop_first(), (first + 1) as u64)
    }
}

pub proof fn lemma_first_geq_bounds(s: Seq<(u64, u64)>, bound: u64)
    ensures
        0 <= first_geq(s, bound) <= s.len(),
        forall|j: int| 0 <= j < first_geq(s, bound) ==> (#[trigger] s[j]).0 < bound,
        first_geq(s, bound) < s.len() ==> s[first_geq(s, bound)].0 >= bound,
    decreases s.len(),
{
    if s.len() == 0 {
    } else if s[0].0 >= bound {
    } else {
        lemma_first_geq_bounds(s.drop_first(), bound);
        assert forall|j: int| 0 <= j < first_geq(s, bound) implies (#[trigger] s[j]).0 < bound by {
            if j > 0 {
                assert(s.drop_first()[j - 1] == s[j]);
            }
        }
        if first_geq(s, bound) < s.len() {
            assert(s.drop_first()[first_geq(s.drop_first(), bound)] == s[first_geq(s, bound)]);
        }
    }
}

/// In a strictly sorted sequence each tag occurs at most once, so the
/// entry at position `i` is what `lookup_tag` finds for its tag.
pub proof fn lemma_lookup_at(s: Seq<(u64, u64)>, i: int)
    requires
        sorted_by_tag(s),
        0 <= i < s.len(),
    ensures
        contains_tag(s, s[i].0),
        lookup_tag(s, s[i].0) == s[i].1,
{
    assert(contains_tag(s, s[i].0));
    let j = choose|j: int| 0 <= j < s.len() && (#[trigger] s[j]).0 == s[i].0;
    if j < i {
        assert(s[j].0 < s[i].0);
    } else if j > i {
        assert(s[i].0 < s[j].0);
    }
}

/// Ordered key-value index of one commitment: 8-byte tags mapping to
/// 64-bit piece indexes, held in strictly ascending tag order. On the wire
/// a tag is big-endian and a piece index little-endian (see `wire`).
pub struct TagIndex {
    pub entries: Vec<(u64, u64)>,
}

impl TagIndex {
    pub open spec fn wf(&self) -> bool {
        sorted_by_tag(self.entries@)
    }

    /// The entries in ascending tag order.
    pub open spec fn tags(&self) -> Seq<(u64, u64)> {
        self.entries@
    }

    /// The index seen as a map from tag to piece index.
    pub open spec fn as_map(&self) -> Map<u64, u64> {
        Map::new(
            |t: u64| contains_tag(self.entries@, t),
            |t: u64| lookup_tag(self.entries@, t),
        )
    }

    pub fn new() -> (r: TagIndex)
        ensures
            r.wf(),
            r.tags() == Seq::<(u64, u64)>::empty(),
            r.as_map() == Map::<u64, u64>::empty(),
    {
        let r = TagIndex { entries: Vec::new() };
        proof {
            assert(r.as_map() =~= Map::<u64, u64>::empty());
        }
        r
    }

    pub fn len(&self) -> (r: usize)
        ensures
            r == self.tags().len(),
    {
        self.entries.len()
    }

    /// Inserts or overwrites one tag.
    pub fn put(&mut self, tag: u64, index: u64)
        requires
            old(self).wf(),
        ensures
            final(self).wf(),
            final(self).as_map() == old(self).as_map().insert(tag, index),
            final(self).tags().len() <= old(self).tags().len() + 1,
    {
        let ghost s0 = self.entries@;
        let mut pos: usize = 0;
        while pos < self.entries.len() && self.entries[pos].0 < tag
            invariant
                0 <= pos <= self.entries@.len(),
                self.entries@ == s0,
                forall|j: int| 0 <= j < pos ==> (#[trigger] s0[j]).0 < tag,
            decreases self.entries@.len() - pos,
        {
            pos += 1;
        }
        if pos < self.entries.len() && self.entries[pos].0 == tag {
            self.entries[pos] = (tag, index);
            proof {
                let s1 = self.entries@;
                assert(sorted_by_tag(s1)) by {
                    assert forall|i: int, j: int| 0 <= i < j < s1.len() implies (#[trigger] s1[i]).0
                        < (#[trigger] s1[j]).0 by {
                        assert(s0[i].0 < s0[j].0);
                    }
                }
                assert(final(self).as_map() =~= old(self).as_map().insert(tag, index)) by {
                    lemma_map_after_overwrite(s0, s1, pos as int, tag, index);
                }
            }
        } else {
            let ghost p = pos as int;
            self.entries.insert(pos, (tag, index));
            proof {
                let s1 = self.entries@;
                assert(sorted_by_tag(s1)) by {
                    assert forall|i: int, j: int| 0 <= i < j < s1.len() implies (#[trigger] s1[i]).0
                        < (#[trigger] s1[j]).0 by {
                        if i < p && j > p {
                            assert(s1[i] == s0[i] && s1[j] == s0[j - 1]);
                        } else if i < p && j == p {
                            assert(s1[i] == s0[i]);
                        } else if i == p && j > p {
                            assert(s1[j] == s0[j - 1]);
                            assert(s0[j - 1].0 >= s0[p].0);
                        } else if i > p {
                            assert(s1[i] == s0[i - 1] && s1[j] == s0[j - 1]);
                        } else {
                            assert(s1[i] == s0[i] && s1[j] == s0[j]);
                        }
                    }
                }
                assert(final(self).as_map() =~= old(self).as_map().insert(tag, index)) by {
                    lemma_map_after_insert(s0, s1, p, tag, index);
                }
            }
        }
    }

    /// Writes tags for the consecutive pieces `first, first + 1, ...`,
    /// one per element of `tags`, overwriting tags already present.
    pub fn put_many(&mut self, first: u64, tags: &Vec<u64>)
        requires
            old(self).wf(),
            first + tags@.len() <= u64::MAX,
        ensures
            final(self).wf(),
            final(self).as_map() == spec_put_many(old(self).as_map(), tags@, first),
    {
        proof {
            assert(tags@.skip(0) =~= tags@);
        }
        let mut k: usize = 0;
        while k < tags.len()
            invariant
                self.wf(),
                k <= tags@.len(),
                first + tags@.len() <= u64::MAX,
                spec_put_many(self.as_map(), tags@.skip(k as int), (first + k) as u64)
                    == spec_put_many(old(self).as_map(), tags@, first),
            decreases tags@.len() - k,
        {
            let ghost m_before = self.as_map();
            self.put(tags[k], first + k as u64);
            proof {
                assert(tags@.skip(k as int).drop_first() =~= tags@.skip(k as int + 1));
                assert(tags@.skip(k as int)[0] == tags@[k as int]);
                assert(spec_put_many(m_before, tags@.skip(k as int), (first + k) as u64)
                    == spec_put_many(
                    m_before.insert(tags@[k as int], (first + k) as u64),
                    tags@.skip(k as int + 1),
                    (first + k + 1) as u64,
                ));
            }
            k += 1;
        }
        proof {
            assert(tags@.skip(tags@.len() as int) =~= Seq::<u64>::empty());
        }
    }

    /// Serves `find_by_range(target, range)`: scans the window centred on
    /// `target` and returns the first hit in scan order, wrapped windows
    /// being scanned `[0, upper]` before `[lower, 2^64 - 1]`.
    pub fn find_by_range(&self, target: u64, range: u64) -> (r: Option<(u64, u64)>)
        requires
            self.wf(),
        ensures
            r == spec_find(self.tags(), target, range),
    {
        let h: u64 = range / 2;
        let lower: u64 = if target >= h {
            target - h
        } else {
            target + (u64::MAX - h) + 1
        };
        let upper: u64 = if target <= u64::MAX - h {
            target + h
        } else {
            target - (u64::MAX - h) - 1
        };
        proof {
            assert(lower == wrap_sub(target, h));
            assert(upper == wrap_add(target, h));
        }
        if lower <= upper {
            let i = self.scan_geq(lower);
            if i < self.entries.len() && self.entries[i].0 <= upper {
                Some(self.entries[i])
            } else {
                None
            }
        } else {
            if self.entries.len() > 0 && self.entries[0].0 <= upper {
                Some(self.entries[0])
            } else {
                let i = self.scan_geq(lower);
                if i < self.entries.len() {
                    Some(self.entries[i])
                } else {
                    None
                }
            }
        }
    }

    /// Forward seek: position of the first entry with tag at least `bound`.
    fn scan_geq(&self, bound: u64) -> (r: usize)
        ensures
            r == first_geq(self.entries@, bound),
    {
        let mut pos: usize = 0;
        while pos < self.entries.len() && self.entries[pos].0 < bound
            invariant
                0 <= pos <= self.entries@.len(),
                forall|j: int| 0 <= j < pos ==> (#[trigger] self.entries@[j]).0 < bound,
            decreases self.entries@.len() - pos,
        {
            pos += 1;
        }
        proof {
            lemma_first_geq_bounds(self.entries@, bound);
            let fg = first_geq(self.entries@, bound);
            if pos < fg {
                assert(self.entries@[pos as int].0 < bound);
            } else if fg < pos {
                assert(self.entries@[fg].0 < bound);
            }
        }
        pos
    }
}

/// Overwriting the value at the position that already carries `tag`
/// updates the map view like a map insert.
proof fn lemma_map_after_overwrite(s0: Seq<(u64, u64)>, s1: Seq<(u64, u64)>, p: int, tag: u64, index: u64)
    requires
        sorted_by_tag(s0),
        sorted_by_tag(s1),
        0 <= p < s0.len(),
        s0[p].0 == tag,
        s1 == s0.update(p, (tag, index)),
    ensures
        Map::new(|t: u64| contains_tag(s1, t), |t: u64| lookup_tag(s1, t)) =~= Map::new(
            |t: u64| contains_tag(s0, t),
            |t: u64| lookup_tag(s0, t),
        ).insert(tag, index),
{
    assert forall|t: u64| contains_tag(s1, t) implies t == tag || contains_tag(s0, t) by {
        let i = choose|i: int| 0 <= i < s1.len() && (#[trigger] s1[i]).0 == t;
        if i != p {
            assert(s0[i].0 == t);
        }
    }
    assert forall|t: u64| t != tag && contains_tag(s0, t) implies contains_tag(s1, t) by {
        let i = choose|i: int| 0 <= i < s0.len() && (#[trigger] s0[i]).0 == t;
        assert(s1[i].0 == t);
    }
    assert(contains_tag(s1, tag)) by {
        assert(s1[p].0 == tag);
    }
    assert(lookup_tag(s1, tag) == index) by {
        lemma_lookup_at(s1, p);
    }
    assert forall|t: u64| t != tag && contains_tag(s1, t) implies lookup_tag(s1, t) == lookup_tag(
        s0,
        t,
    ) by {
        let i = choose|i: int| 0 <= i < s1.len() && (#[trigger] s1[i]).0 == t;
        lemma_lookup_at(s1, i);
        assert(s0[i].0 == t && s0[i].1 == s1[i].1);
        lemma_lookup_at(s0, i);
    }
}

/// Inserting a fresh entry at its sorted position updates the map view
/// like a map insert.
proof fn lemma_map_after_insert(s0: Seq<(u64, u64)>, s1: Seq<(u64, u64)>, p: int, tag: u64, index: u64)
    requires
        sorted_by_tag(s0),
        sorted_by_tag(s1),
        0 <= p <= s0.len(),
        !contains_tag(s0, tag),
        s1 == s0.insert(p, (tag, index)),
    ensures
        Map::new(|t: u64| contains_tag(s1, t), |t: u64| lookup_tag(s1, t)) =~= Map::new(
            |t: u64| contains_tag(s0, t),
            |t: u64| lookup_tag(s0, t),
        ).insert(tag, index),
{
    assert(s1.len() == s0.len() + 1);
    assert(s1[p] == (tag, index));
    assert forall|t: u64| contains_tag(s1, t) implies t == tag || contains_tag(s0, t) by {
        let i = choose|i: int| 0 <= i < s1.len() && (#[trigger] s1[i]).0 == t;
        if i < p {
            assert(s0[i].0 == t);
        } else if i > p {
            assert(s0[i - 1].0 == t);
        }
    }
    assert forall|t: u64| t != tag && contains_tag(s0, t) implies contains_tag(s1, t) by {
        let i = choose|i: int| 0 <= i < s0.len() && (#[trigger] s0[i]).0 == t;
        if i < p {
            assert(s1[i].0 == t);
        } else {
            assert(s1[i + 1].0 == t);
        }
    }
    assert(contains_tag(s1, tag)) by {
        assert(s1[p].0 == tag);
    }
    assert(lookup_tag(s1, tag) == index) by {
        lemma_lookup_at(s1, p);
    }
    assert forall|t: u64| t != tag && contains_tag(s1, t) implies lookup_tag(s1, t) == lookup_tag(
        s0,
        t,
    ) by {
        let i = choose|i: int| 0 <= i < s1.len() && (#[trigger] s1[i]).0 == t;
        lemma_lookup_at(s1, i);
        if i < p {
            assert(s0[i].0 == t && s0[i].1 == s1[i].1);
            lemma_lookup_at(s0, i);
        } else {
            assert(s0[i - 1].0 == t && s0[i - 1].1 == s1[i].1);
            lemma_lookup_at(s0, i - 1);
        }
    }
}

/// What `spec_find` returns is sound and complete for the window: a hit
/// lies in the window and is a stored entry; a miss means no stored tag
/// lies in the window.
pub proof fn lemma_find_in_window(s: Seq<(u64, u64)>, target: u64, range: u64)
    requires
        sorted_by_tag(s),
    ensures
        match spec_find(s, target, range) {
            Some(p) => tag_in_window(p.0, target, range) && contains_tag(s, p.0) && lookup_tag(
                s,
                p.0,
            ) == p.1,
            None => forall|i: int|
                0 <= i < s.len() ==> !tag_in_window((#[trigger] s[i]).0, target, range),
        },
{
    let lo = wrap_sub(target, (range / 2) as u64);
    let up = wrap_add(target, (range / 2) as u64);
    lemma_first_geq_bounds(s, lo);
    let fg = first_geq(s, lo);
    if lo <= up {
        if fg < s.len() && s[fg].0 <= up {
            lemma_lookup_at(s, fg);
        } else {
            assert forall|i: int| 0 <= i < s.len() implies !tag_in_window(
                (#[trigger] s[i]).0,
                target,
                range,
            ) by {
                if i >= fg && fg < s.len() {
                    assert(i > fg ==> s[fg].0 < s[i].0);
                }
            }
        }
    } else {
        if s.len() > 0 && s[0].0 <= up {
            lemma_lookup_at(s, 0);
        } else if fg < s.len() {
            lemma_lookup_at(s, fg);
        } else {
            assert forall|i: int| 0 <= i < s.len() implies !tag_in_window(
                (#[trigger] s[i]).0,
                target,
                range,
            ) by {
                assert(i > 0 ==> s[0].0 < s[i].0);
            }
        }
    }
}

/// Writing two runs of tags one after the other is one longer run.
pub proof fn lemma_put_many_concat(m: Map<u64, u64>, t1: Seq<u64>, t2: Seq<u64>, first: u64)
    requires
        first + t1.len() + t2.len() <= u64::MAX,
    ensures
        spec_put_many(spec_put_many(m, t1, first), t2, (first + t1.len()) as u64) == spec_put_many(
            m,
            t1 + t2,
            first,
        ),
    decreases t1.len(),
{
    if t1.len() == 0 {
        assert(t1 + t2 =~= t2);
    } else {
        assert((t1 + t2)[0] == t1[0]);
        assert((t1 + t2).drop_first() =~= t1.drop_first() + t2);
        lemma_put_many_concat(m.insert(t1[0], first), t1.drop_first(), t2, (first + 1) as u64);
    }
}

/// Tags not in the run keep whatever the map had for them.
pub proof fn lemma_put_many_frame(m: Map<u64, u64>, tags: Seq<u64>, first: u64, k: u64)
    requires
        !tags.contains(k),
    ensures
        spec_put_many(m, tags, first).contains_key(k) == m.contains_key(k),
        m.contains_key(k) ==> spec_put_many(m, tags, first)[k] == m[k],
    decreases tags.len(),
{
    if tags.len() > 0 {
        assert(tags[0] != k);
        assert forall|j: int| 0 <= j < tags.drop_first().len() implies tags.drop_first()[j]
            != k by {
            assert(tags.drop_first()[j] == tags[j + 1]);
        }
        assert(!tags.drop_first().contains(k));
        lemma_put_many_frame(m.insert(tags[0], first), tags.drop_first(), (first + 1) as u64, k);
    }
}

/// A run of pairwise distinct tags maps tag `i` of the run to piece
/// `first + i`.
pub proof fn lemma_put_many_distinct(m: Map<u64, u64>, tags: Seq<u64>, first: u64)
    requires
        first + tags.len() <= u64::MAX,
        forall|i: int, j: int| 0 <= i < j < tags.len() ==> tags[i] != tags[j],
    ensures
        forall|i: int|
            0 <= i < tags.len() ==> spec_put_many(m, tags, first).contains_key(#[trigger] tags[i])
                && spec_put_many(m, tags, first)[tags[i]] == (first + i) as u64,
    decreases tags.len(),
{
    if tags.len() > 0 {
        let rest = tags.drop_first();
        assert forall|i: int, j: int| 0 <= i < j < rest.len() implies rest[i] != rest[j] by {
            assert(rest[i] == tags[i + 1] && rest[j] == tags[j + 1]);
        }
        lemma_put_many_distinct(m.insert(tags[0], first), rest, (first + 1) as u64);
        assert forall|j: int| 0 <= j < rest.len() implies rest[j] != tags[0] by {
            assert(rest[j] == tags[j + 1]);
        }
        assert(!rest.contains(tags[0]));
        lemma_put_many_frame(m.insert(tags[0], first), rest, (first + 1) as u64, tags[0]);
        assert forall|i: int|
            0 <= i < tags.len() implies spec_put_many(m, tags, first).contains_key(
            #[trigger] tags[i],
        ) && spec_put_many(m, tags, first)[tags[i]] == (first + i) as u64 by {
            if i > 0 {
                assert(rest[i - 1] == tags[i]);
            }
        }
    }
}

/// The signed distance from `t` to `u` on the tag circle:
/// `((u - t + 2^63) mod 2^64) - 2^63`, the representative of `u - t`
/// in `[-2^63, 2^63)`.
pub open spec fn wrap_signed_distance(u: u64, t: u64) -> int {
    (u - t + 0x8000_0000_0000_0000) % tag_modulus() - 0x8000_0000_0000_0000
}

/// A tag lies in the window of `find_by_range(t, range)` exactly when its
/// signed wrap-around distance from `t` is within the half-range, also
/// when the window crosses the end of the tag space.
pub proof fn lemma_window_signed_distance(u: u64, t: u64, range: u64)
    ensures
        tag_in_window(u, t, range) <==> -(range as int / 2) <= wrap_signed_distance(u, t) <= range
            as int / 2,
{
    let m = tag_modulus();
    let hm = 0x8000_0000_0000_0000int;
    let x = u - t + hm;
    let h = range as int / 2;
    assert(h == (range / 2) as u64);
    assert(0 <= h < hm);
    // Resolve the Euclidean remainder by giving its quotient outright.
    if u - t >= hm {
        vstd::arithmetic::div_mod::lemma_fundamental_div_mod_converse_mod(x, m, 1, x - m);
        assert(wrap_signed_distance(u, t) == u - t - m);
    } else if u - t < -hm {
        vstd::arithmetic::div_mod::lemma_fundamental_div_mod_converse_mod(x, m, -1, x + m);
        assert(wrap_signed_distance(u, t) == u - t + m);
    } else {
        vstd::arithmetic::div_mod::lemma_fundamental_div_mod_converse_mod(x, m, 0, x);
        assert(wrap_signed_distance(u, t) == u - t);
    }
}

/// A `find_by_range` with range zero is an exact lookup of the target tag.
pub proof fn lemma_find_exact(s: Seq<(u64, u64)>, target: u64)
    requires
        sorted_by_tag(s),
    ensures
        spec_find(s, target, 0) == (if contains_tag(s, target) {
            Some((target, lookup_tag(s, target)))
        } else {
            None
        }),
{
    lemma_first_geq_bounds(s, target);
    let fg = first_geq(s, target);
    if contains_tag(s, target) {
        let i = choose|i: int| 0 <= i < s.len() && (#[trigger] s[i]).0 == target;
        lemma_lookup_at(s, i);
        if fg < i {
            assert(s[fg].0 < s[i].0);
        } else if i < fg {
            assert(s[i].0 < target);
        }
        assert(fg == i);
    } else {
        if fg < s.len() {
            assert(s[fg].0 != target);
        }
    }
}

} // verus!
