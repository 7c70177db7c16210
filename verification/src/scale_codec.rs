use vstd::prelude::*;

use parity_scale_codec::{Decode, Encode};
use std::collections::BTreeSet;

use crate::record_heap::{bytes_lt, dist_less, lemma_bytes_lt_total, lemma_bytes_lt_trans, xor_dist};
use crate::records::Record;
use crate::util::clone_bytes;
use crate::wire::spec_multihash_code;

verus! {

/// The multihash code that marks sector content keys: records under such
/// a key carry an encoded set of byte strings, and puts accumulate by
/// set union rather than replacement.
pub const SECTOR_MULTIHASH_CODE: u64 = 0xb39912;

/// Strictly ascending byte strings: the canonical order of an encoded
/// set, ascending and without duplicates.
pub open spec fn strictly_ascending(items: Seq<Seq<u8>>) -> bool {
    forall|i: int, j: int| 0 <= i < j < items.len() ==> bytes_lt(#[trigger] items[i], #[trigger] items[j])
}

pub open spec fn item_views(v: Seq<Vec<u8>>) -> Seq<Seq<u8>> {
    v.map_values(|x: Vec<u8>| x@)
}

/// What the length-prefixed codec produces for a record's three fields.
pub uninterp spec fn record_encoding(key: Seq<u8>, value: Seq<u8>, publisher: Option<Seq<u8>>) -> Seq<u8>;

/// What the length-prefixed codec produces for an ordered set of byte
/// strings, given as its ascending element list.
pub uninterp spec fn set_encoding(items: Seq<Seq<u8>>) -> Seq<u8>;

/// Whether the codec can encode these record fields: each length must
/// fit the compact 32-bit prefix, or the encoder gives up.
pub open spec fn encodable_record(key: Seq<u8>, value: Seq<u8>, publisher: Option<Seq<u8>>) -> bool {
    &&& key.len() <= u32::MAX
    &&& value.len() <= u32::MAX
    &&& (publisher matches Some(p) ==> p.len() <= u32::MAX)
}

/// Whether the codec can encode this element list: strictly ascending,
/// with the element count and every element length within the compact
/// 32-bit prefix.
pub open spec fn encodable_set(items: Seq<Seq<u8>>) -> bool {
    &&& strictly_ascending(items)
    &&& items.len() <= u32::MAX
    &&& forall|i: int| 0 <= i < items.len() ==> (#[trigger] items[i]).len() <= u32::MAX
}

/// `v` is the canonical encoding of no set of byte strings.
pub open spec fn no_set_encoding(v: Seq<u8>) -> bool {
    forall|items: Seq<Seq<u8>>| encodable_set(items) ==> v != set_encoding(items)
}

/// Relies on parity-scale-codec's `Encode` for the triple
/// `(Vec<u8>, Vec<u8>, Option<Vec<u8>>)`: the persistent form of a
/// record's key, value and publisher. The encoding is a function of the
/// field values alone.
#[verifier::external_body]
pub fn encode_record_fields(key: &Vec<u8>, value: &Vec<u8>, publisher: &Option<Vec<u8>>) -> (r: Vec<
    u8,
>)
    requires
        encodable_record(
            key@,
            value@,
            match publisher {
                Some(p) => Some(p@),
                None => None,
            },
        ),
    ensures
        r@ == record_encoding(
            key@,
            value@,
            match publisher {
                Some(p) => Some(p@),
                None => None,
            },
        ),
{
    (key, value, publisher).encode()
}

/// Relies on parity-scale-codec's `Decode` for the same triple: decoding
/// what `encode` produced gives the fields back.
#[verifier::external_body]
pub fn decode_record_fields(data: &Vec<u8>) -> (r: Option<(Vec<u8>, Vec<u8>, Option<Vec<u8>>)>)
    ensures
        match r {
            Some(t) => forall|k: Seq<u8>, v: Seq<u8>, p: Option<Seq<u8>>|
                encodable_record(k, v, p) && data@ == record_encoding(k, v, p) ==> t.0@ == k && t.1@
                    == v && (match t.2 {
                    Some(pb) => p matches Some(ps) && pb@ == ps,
                    None => p is None,
                }),
            None => forall|k: Seq<u8>, v: Seq<u8>, p: Option<Seq<u8>>|
                encodable_record(k, v, p) ==> data@ != record_encoding(k, v, p),
        },
{
    <(Vec<u8>, Vec<u8>, Option<Vec<u8>>)>::decode(&mut data.as_slice()).ok()
}

/// Relies on parity-scale-codec's `Encode` for `BTreeSet<Vec<u8>>`: the
/// encoding lists the elements ascending, so on a strictly ascending
/// list it is a function of the list alone.
#[verifier::external_body]
pub fn encode_byte_set(items: &Vec<Vec<u8>>) -> (r: Vec<u8>)
    requires
        encodable_set(item_views(items@)),
    ensures
        r@ == set_encoding(item_views(items@)),
{
    let set: BTreeSet<Vec<u8>> = items.iter().cloned().collect();
    set.encode()
}

/// Relies on parity-scale-codec's `Decode` for `BTreeSet<Vec<u8>>`: a
/// successful decode iterates ascending, and decoding what `encode`
/// produced gives the same elements back.
#[verifier::external_body]
pub fn decode_byte_set(data: &Vec<u8>) -> (r: Option<Vec<Vec<u8>>>)
    ensures
        match r {
            Some(v) => strictly_ascending(item_views(v@)) && (forall|items: Seq<Seq<u8>>|
                encodable_set(items) && data@ == set_encoding(items) ==> item_views(v@) == items),
            None => no_set_encoding(data@),
        },
{
    BTreeSet::<Vec<u8>>::decode(&mut data.as_slice()).ok().map(|s| s.into_iter().collect())
}

/// The merge of two strictly ascending lists: ascending order kept, an
/// element of both taken once.
pub open spec fn spec_union(a: Seq<Seq<u8>>, b: Seq<Seq<u8>>) -> Seq<Seq<u8>>
    decreases a.len() + b.len(),
{
    if a.len() == 0 {
        b
    } else if b.len() == 0 {
        a
    } else if bytes_lt(a[0], b[0]) {
        seq![a[0]] + spec_union(a.drop_first(), b)
    } else if bytes_lt(b[0], a[0]) {
        seq![b[0]] + spec_union(a, b.drop_first())
    } else {
        seq![a[0]] + spec_union(a.drop_first(), b.drop_first())
    }
}

pub open spec fn seqs_contain(s: Seq<Seq<u8>>, x: Seq<u8>) -> bool {
    exists|i: int| 0 <= i < s.len() && s[i] == x
}

/// The merged list holds exactly the elements of the two lists: the
/// union as a set.
pub proof fn lemma_union_is_set_union(a: Seq<Seq<u8>>, b: Seq<Seq<u8>>)
    ensures
        forall|x: Seq<u8>|
            #[trigger] seqs_contain(spec_union(a, b), x) <==> seqs_contain(a, x) || seqs_contain(
                b,
                x,
            ),
    decreases a.len() + b.len(),
{
    if a.len() == 0 || b.len() == 0 {
    } else {
        if bytes_lt(a[0], b[0]) {
            lemma_union_is_set_union(a.drop_first(), b);
            lemma_union_cons(a[0], spec_union(a.drop_first(), b));
            lemma_cons_contains(a);
        } else if bytes_lt(b[0], a[0]) {
            lemma_union_is_set_union(a, b.drop_first());
            lemma_union_cons(b[0], spec_union(a, b.drop_first()));
            lemma_cons_contains(b);
        } else {
            lemma_bytes_lt_total(a[0], b[0]);
            assert(a[0] == b[0]);
            lemma_union_is_set_union(a.drop_first(), b.drop_first());
            lemma_union_cons(a[0], spec_union(a.drop_first(), b.drop_first()));
            lemma_cons_contains(a);
            lemma_cons_contains(b);
        }
    }
}

/// Membership in a one-element prepend.
proof fn lemma_union_cons(h: Seq<u8>, t: Seq<Seq<u8>>)
    ensures
        forall|x: Seq<u8>|
            #[trigger] seqs_contain(seq![h] + t, x) <==> x == h || seqs_contain(t, x),
{
    assert forall|x: Seq<u8>|
        #[trigger] seqs_contain(seq![h] + t, x) == (x == h || seqs_contain(t, x)) by {
        if seqs_contain(seq![h] + t, x) {
            let i = choose|i: int| 0 <= i < (seq![h] + t).len() && (seq![h] + t)[i] == x;
            if i > 0 {
                assert(t[i - 1] == x);
            }
        }
        if x == h {
            assert((seq![h] + t)[0] == x);
            assert(seqs_contain(seq![h] + t, x));
        } else if seqs_contain(t, x) {
            let i = choose|i: int| 0 <= i < t.len() && t[i] == x;
            assert((seq![h] + t)[i + 1] == x);
            assert(seqs_contain(seq![h] + t, x));
        }
    }
}

/// Membership in a list splits into its head and its tail.
proof fn lemma_cons_contains(s: Seq<Seq<u8>>)
    requires
        s.len() > 0,
    ensures
        forall|x: Seq<u8>|
            #[trigger] seqs_contain(s, x) <==> x == s[0] || seqs_contain(s.drop_first(), x),
{
    assert forall|x: Seq<u8>|
        #[trigger] seqs_contain(s, x) == (x == s[0] || seqs_contain(s.drop_first(), x)) by {
        if seqs_contain(s, x) {
            let i = choose|i: int| 0 <= i < s.len() && s[i] == x;
            if i > 0 {
                assert(s.drop_first()[i - 1] == x);
            }
        }
        if x == s[0] {
            assert(s[0] == x);
            assert(seqs_contain(s, x));
        } else if seqs_contain(s.drop_first(), x) {
            let i = choose|i: int| 0 <= i < s.drop_first().len() && s.drop_first()[i] == x;
            assert(s[i + 1] == x);
            assert(seqs_contain(s, x));
        }
    }
}

/// The merge keeps the strict order.
pub proof fn lemma_union_ascending(a: Seq<Seq<u8>>, b: Seq<Seq<u8>>)
    requires
        strictly_ascending(a),
        strictly_ascending(b),
    ensures
        strictly_ascending(spec_union(a, b)),
        spec_union(a, b).len() > 0 ==> (a.len() > 0 && spec_union(a, b)[0] == a[0]) || (b.len() > 0
            && spec_union(a, b)[0] == b[0]),
    decreases a.len() + b.len(),
{
    if a.len() == 0 || b.len() == 0 {
    } else {
        let u = spec_union(a, b);
        if bytes_lt(a[0], b[0]) {
            lemma_ascending_tail(a);
            lemma_union_ascending(a.drop_first(), b);
            assert forall|i: int| 0 <= i < b.len() implies bytes_lt(a[0], #[trigger] b[i]) by {
                if i > 0 {
                    lemma_bytes_lt_trans(a[0], b[0], b[i]);
                }
            }
            lemma_head_bound(a[0], a.drop_first(), b, u);
        } else if bytes_lt(b[0], a[0]) {
            lemma_ascending_tail(b);
            lemma_union_ascending(a, b.drop_first());
            assert forall|i: int| 0 <= i < a.len() implies bytes_lt(b[0], #[trigger] a[i]) by {
                if i > 0 {
                    lemma_bytes_lt_trans(b[0], a[0], a[i]);
                }
            }
            lemma_head_bound(b[0], a, b.drop_first(), u);
        } else {
            lemma_bytes_lt_total(a[0], b[0]);
            assert(a[0] == b[0]);
            lemma_ascending_tail(a);
            lemma_ascending_tail(b);
            lemma_union_ascending(a.drop_first(), b.drop_first());
            lemma_head_bound(a[0], a.drop_first(), b.drop_first(), u);
        }
    }
}

proof fn lemma_ascending_tail(s: Seq<Seq<u8>>)
    requires
        strictly_ascending(s),
        s.len() > 0,
    ensures
        strictly_ascending(s.drop_first()),
        forall|i: int| 0 <= i < s.drop_first().len() ==> bytes_lt(s[0], #[trigger] s.drop_first()[i]),
{
    assert forall|i: int, j: int|
        0 <= i < j < s.drop_first().len() implies bytes_lt(
        #[trigger] s.drop_first()[i],
        #[trigger] s.drop_first()[j],
    ) by {
        assert(s.drop_first()[i] == s[i + 1] && s.drop_first()[j] == s[j + 1]);
    }
    assert forall|i: int| 0 <= i < s.drop_first().len() implies bytes_lt(
        s[0],
        #[trigger] s.drop_first()[i],
    ) by {
        assert(s.drop_first()[i] == s[i + 1]);
    }
}

/// Prepending a head below both remainders keeps the merge ascending.
proof fn lemma_head_bound(h: Seq<u8>, ta: Seq<Seq<u8>>, tb: Seq<Seq<u8>>, u: Seq<Seq<u8>>)
    requires
        strictly_ascending(ta),
        strictly_ascending(tb),
        forall|i: int| 0 <= i < ta.len() ==> bytes_lt(h, #[trigger] ta[i]),
        forall|i: int| 0 <= i < tb.len() ==> bytes_lt(h, #[trigger] tb[i]),
        strictly_ascending(spec_union(ta, tb)),
        spec_union(ta, tb).len() > 0 ==> (ta.len() > 0 && spec_union(ta, tb)[0] == ta[0]) || (
        tb.len() > 0 && spec_union(ta, tb)[0] == tb[0]),
        u == seq![h] + spec_union(ta, tb),
    ensures
        strictly_ascending(u),
        u[0] == h,
{
    let rest = spec_union(ta, tb);
    lemma_union_is_set_union(ta, tb);
    assert forall|i: int, j: int| 0 <= i < j < u.len() implies bytes_lt(
        #[trigger] u[i],
        #[trigger] u[j],
    ) by {
        if i == 0 {
            assert(u[j] == rest[j - 1]);
            assert(seqs_contain(rest, rest[j - 1]));
            if seqs_contain(ta, rest[j - 1]) {
                let v = choose|v: int| 0 <= v < ta.len() && ta[v] == rest[j - 1];
                assert(bytes_lt(h, ta[v]));
            } else {
                let v = choose|v: int| 0 <= v < tb.len() && tb[v] == rest[j - 1];
                assert(bytes_lt(h, tb[v]));
            }
        } else {
            assert(u[i] == rest[i - 1] && u[j] == rest[j - 1]);
        }
    }
}

/// Whether `a` comes strictly before `b` in the set order.
pub fn bytes_less(a: &Vec<u8>, b: &Vec<u8>) -> (r: bool)
    ensures
        r == bytes_lt(a@, b@),
{
    let empty: Vec<u8> = Vec::new();
    let r = dist_less(a, b, &empty);
    proof {
        assert(xor_dist(a@, empty@) =~= a@);
        assert(xor_dist(b@, empty@) =~= b@);
    }
    r
}

/// Merges two strictly ascending lists into one.
pub fn union_sorted(a: &Vec<Vec<u8>>, b: &Vec<Vec<u8>>) -> (r: Vec<Vec<u8>>)
    requires
        strictly_ascending(item_views(a@)),
        strictly_ascending(item_views(b@)),
    ensures
        item_views(r@) == spec_union(item_views(a@), item_views(b@)),
    decreases a@.len() + b@.len(),
{
    let r = union_sorted_from(a, b, 0, 0);
    proof {
        assert(item_views(a@).skip(0) =~= item_views(a@));
        assert(item_views(b@).skip(0) =~= item_views(b@));
    }
    r
}

fn union_sorted_from(a: &Vec<Vec<u8>>, b: &Vec<Vec<u8>>, i: usize, j: usize) -> (r: Vec<Vec<u8>>)
    requires
        i <= a@.len(),
        j <= b@.len(),
    ensures
        item_views(r@) == spec_union(item_views(a@).skip(i as int), item_views(b@).skip(j as int)),
    decreases a@.len() + b@.len() - i - j,
{
    let ghost ra = item_views(a@).skip(i as int);
    let ghost rb = item_views(b@).skip(j as int);
    if i >= a.len() && j >= b.len() {
        let out: Vec<Vec<u8>> = Vec::new();
        proof {
            assert(ra.len() == 0 && rb.len() == 0);
            assert(item_views(out@) =~= rb);
        }
        out
    } else if i >= a.len() {
        let mut out = union_sorted_from(a, b, i, j + 1);
        out.insert(0, clone_bytes(&b[j]));
        proof {
            assert(rb[0] == b@[j as int]@);
            assert(item_views(b@).skip(j + 1) =~= rb.drop_first());
            assert(ra.len() == 0);
            assert(item_views(out@) =~= seq![rb[0]] + rb.drop_first());
            assert(seq![rb[0]] + rb.drop_first() =~= rb);
        }
        out
    } else if j >= b.len() {
        let mut out = union_sorted_from(a, b, i + 1, j);
        out.insert(0, clone_bytes(&a[i]));
        proof {
            assert(ra[0] == a@[i as int]@);
            assert(item_views(a@).skip(i + 1) =~= ra.drop_first());
            assert(rb.len() == 0);
            assert(item_views(out@) =~= seq![ra[0]] + ra.drop_first());
            assert(seq![ra[0]] + ra.drop_first() =~= ra);
        }
        out
    } else {
        proof {
            assert(ra[0] == a@[i as int]@ && rb[0] == b@[j as int]@);
        }
        if bytes_less(&a[i], &b[j]) {
            let mut out = union_sorted_from(a, b, i + 1, j);
            out.insert(0, clone_bytes(&a[i]));
            proof {
                assert(item_views(a@).skip(i + 1) =~= ra.drop_first());
                assert(item_views(out@) =~= seq![ra[0]] + spec_union(ra.drop_first(), rb));
            }
            out
        } else if bytes_less(&b[j], &a[i]) {
            let mut out = union_sorted_from(a, b, i, j + 1);
            out.insert(0, clone_bytes(&b[j]));
            proof {
                assert(item_views(b@).skip(j + 1) =~= rb.drop_first());
                assert(item_views(out@) =~= seq![rb[0]] + spec_union(ra, rb.drop_first()));
            }
            out
        } else {
            let mut out = union_sorted_from(a, b, i + 1, j + 1);
            out.insert(0, clone_bytes(&a[i]));
            proof {
                assert(item_views(a@).skip(i + 1) =~= ra.drop_first());
                assert(item_views(b@).skip(j + 1) =~= rb.drop_first());
                assert(item_views(out@) =~= seq![ra[0]] + spec_union(
                    ra.drop_first(),
                    rb.drop_first(),
                ));
            }
            out
        }
    }
}

/// Whether the element count and every element length fit the compact
/// 32-bit prefix: with ascending order, exactly `encodable_set`.
fn set_bounds_fit(items: &Vec<Vec<u8>>) -> (r: bool)
    ensures
        r == (items@.len() <= u32::MAX && (forall|i: int|
            0 <= i < items@.len() ==> (#[trigger] items@[i])@.len() <= u32::MAX)),
{
    if items.len() > u32::MAX as usize {
        return false;
    }
    let mut i: usize = 0;
    while i < items.len()
        invariant
            i <= items@.len(),
            items@.len() <= u32::MAX,
            forall|j: int| 0 <= j < i ==> (#[trigger] items@[j])@.len() <= u32::MAX,
        decreases items@.len() - i,
    {
        if items[i].len() > u32::MAX as usize {
            return false;
        }
        i += 1;
    }
    true
}

/// The sector accumulation rule of the persistent record store: a put
/// whose key carries the sector multihash code merges the new value with
/// the stored one as sets of byte strings; any other put replaces the
/// stored value, and so does any value that is not the canonical encoding
/// of such a set, or a union too large for the codec to encode again.
/// Publisher and expiry always come from the new record.
pub fn merge_records(new_rec: Record, old_rec: Option<Record>) -> (r: Record)
    ensures
        r@.key == new_rec@.key,
        r@.publisher == new_rec@.publisher,
        r@.expires == new_rec@.expires,
        old_rec is None ==> r@.value == new_rec@.value,
        (old_rec matches Some(o) && spec_multihash_code(o@.key) != Some(SECTOR_MULTIHASH_CODE))
            ==> r@.value == new_rec@.value,
        (old_rec matches Some(o) && no_set_encoding(o@.value)) ==> r@.value == new_rec@.value,
        old_rec is Some && no_set_encoding(new_rec@.value) ==> r@.value == new_rec@.value,
        forall|s1: Seq<Seq<u8>>, s2: Seq<Seq<u8>>|
            (old_rec matches Some(o) && spec_multihash_code(o@.key) == Some(SECTOR_MULTIHASH_CODE)
                && encodable_set(s1) && encodable_set(s2) && o@.value == set_encoding(s1)
                && new_rec@.value == set_encoding(s2) && encodable_set(
                #[trigger] spec_union(s1, s2),
            )) ==> r@.value == set_encoding(spec_union(s1, s2)),
        forall|s1: Seq<Seq<u8>>, s2: Seq<Seq<u8>>|
            (old_rec matches Some(o) && spec_multihash_code(o@.key) == Some(SECTOR_MULTIHASH_CODE)
                && encodable_set(s1) && encodable_set(s2) && o@.value == set_encoding(s1)
                && new_rec@.value == set_encoding(s2) && !encodable_set(
                #[trigger] spec_union(s1, s2),
            )) ==> r@.value == new_rec@.value,
{
    let old_rec = match old_rec {
        Some(o) => o,
        None => {
            return new_rec;
        },
    };
    let is_sector = match crate::wire::multihash_code(&old_rec.key) {
        Some(code) => code == SECTOR_MULTIHASH_CODE,
        None => false,
    };
    if !is_sector {
        return new_rec;
    }
    // A value counts as a set only when it is the canonical encoding of
    // one: it decodes, its bounds fit, and re-encoding gives it back.
    let set1 = match decode_byte_set(&old_rec.value) {
        Some(s) => s,
        None => {
            return new_rec;
        },
    };
    if !set_bounds_fit(&set1) {
        proof {
            assert forall|s1: Seq<Seq<u8>>|
                encodable_set(s1) && old_rec@.value == set_encoding(s1) implies false by {
                assert(item_views(set1@) == s1);
                assert(set1@.len() == s1.len());
                assert forall|i: int|
                    0 <= i < set1@.len() implies (#[trigger] set1@[i])@.len() <= u32::MAX by {
                    assert(item_views(set1@)[i] == set1@[i]@);
                    assert(s1[i].len() <= u32::MAX);
                }
            }
        }
        return new_rec;
    }
    let enc1 = encode_byte_set(&set1);
    if !crate::util::bytes_equal(&enc1, &old_rec.value) {
        proof {
            assert forall|s1: Seq<Seq<u8>>|
                encodable_set(s1) && old_rec@.value == set_encoding(s1) implies false by {
                assert(item_views(set1@) == s1);
                assert(enc1@ == set_encoding(item_views(set1@)));
            }
        }
        return new_rec;
    }
    let set2 = match decode_byte_set(&new_rec.value) {
        Some(s) => s,
        None => {
            return new_rec;
        },
    };
    if !set_bounds_fit(&set2) {
        proof {
            assert forall|s2: Seq<Seq<u8>>|
                encodable_set(s2) && new_rec@.value == set_encoding(s2) implies false by {
                assert(item_views(set2@) == s2);
                assert(set2@.len() == s2.len());
                assert forall|i: int|
                    0 <= i < set2@.len() implies (#[trigger] set2@[i])@.len() <= u32::MAX by {
                    assert(item_views(set2@)[i] == set2@[i]@);
                    assert(s2[i].len() <= u32::MAX);
                }
            }
        }
        return new_rec;
    }
    let enc2 = encode_byte_set(&set2);
    if !crate::util::bytes_equal(&enc2, &new_rec.value) {
        proof {
            assert forall|s2: Seq<Seq<u8>>|
                encodable_set(s2) && new_rec@.value == set_encoding(s2) implies false by {
                assert(item_views(set2@) == s2);
                assert(enc2@ == set_encoding(item_views(set2@)));
            }
        }
        return new_rec;
    }
    let merged = union_sorted(&set1, &set2);
    proof {
        lemma_union_ascending(item_views(set1@), item_views(set2@));
    }
    if !set_bounds_fit(&merged) {
        proof {
            assert forall|s1: Seq<Seq<u8>>, s2: Seq<Seq<u8>>|
                encodable_set(s1) && encodable_set(s2) && old_rec@.value == set_encoding(s1)
                    && new_rec@.value == set_encoding(s2) && encodable_set(
                    #[trigger] spec_union(s1, s2),
                ) implies false by {
                assert(item_views(set1@) == s1);
                assert(item_views(set2@) == s2);
                assert(item_views(merged@) == spec_union(s1, s2));
                assert(merged@.len() == spec_union(s1, s2).len());
                assert forall|i: int|
                    0 <= i < merged@.len() implies (#[trigger] merged@[i])@.len() <= u32::MAX by {
                    assert(item_views(merged@)[i] == merged@[i]@);
                    assert(spec_union(s1, s2)[i].len() <= u32::MAX);
                }
            }
        }
        return new_rec;
    }
    let value = encode_byte_set(&merged);
    proof {
        // The input values are canonical encodings of the decoded sets,
        // so neither fallback premise holds, and a union whose bounds
        // were just checked is encodable.
        assert(!no_set_encoding(old_rec@.value)) by {
            assert(encodable_set(item_views(set1@)));
            assert(old_rec@.value == set_encoding(item_views(set1@)));
        }
        assert(!no_set_encoding(new_rec@.value)) by {
            assert(encodable_set(item_views(set2@)));
            assert(new_rec@.value == set_encoding(item_views(set2@)));
        }
        assert forall|s1: Seq<Seq<u8>>, s2: Seq<Seq<u8>>|
            encodable_set(s1) && encodable_set(s2) && old_rec@.value == set_encoding(s1)
                && new_rec@.value == set_encoding(s2) implies encodable_set(
            #[trigger] spec_union(s1, s2),
        ) && value@ == set_encoding(spec_union(s1, s2)) by {
            assert(item_views(set1@) == s1);
            assert(item_views(set2@) == s2);
            assert(item_views(merged@) == spec_union(s1, s2));
            assert(value@ == set_encoding(item_views(merged@)));
            assert(strictly_ascending(spec_union(s1, s2)));
        }
    }
    Record { key: new_rec.key, value, publisher: new_rec.publisher, expires: new_rec.expires }
}

} // verus!
