use vstd::prelude::*;

use crate::piece_file::{zero_bytes, PieceFile};
use crate::plot::{piece_tags, Plot};
use crate::tag_index::{contains_tag, lookup_tag, sorted_by_tag, spec_find, spec_put_many};
use crate::tagger::TagFunction;

verus! {

/// The piece count after a run of `write_many` calls on a plot that held
/// `c0` pieces. Each call is recorded as its start and its batch size; an
/// empty or failed call leaves the count alone (size zero), a successful
/// one raises it to `max(count, first + size)`, exactly as `write_many`
/// ensures.
pub open spec fn count_after(c0: nat, ops: Seq<(u64, nat)>) -> nat
    decreases ops.len(),
{
    if ops.len() == 0 {
        c0
    } else {
        let c1: nat = if ops[0].1 == 0 {
            c0
        } else {
            vstd::math::max(c0 as int, ops[0].0 + ops[0].1) as nat
        };
        count_after(c1, ops.drop_first())
    }
}

/// `write_many` never shrinks the plot.
pub proof fn lemma_count_after_monotone(c0: nat, ops: Seq<(u64, nat)>)
    ensures
        count_after(c0, ops) >= c0,
    decreases ops.len(),
{
    if ops.len() > 0 {
        let c1: nat = if ops[0].1 == 0 {
            c0
        } else {
            vstd::math::max(c0 as int, ops[0].0 + ops[0].1) as nat
        };
        lemma_count_after_monotone(c1, ops.drop_first());
    }
}

/// A plot opened empty stays empty exactly as long as no `write_many`
/// has ever extended it: after any run of writes, the piece count is zero
/// if and only if every write in the run was empty.
pub proof fn lemma_is_empty_iff_never_extended(ops: Seq<(u64, nat)>)
    ensures
        (count_after(0, ops) == 0) <==> (forall|i: int|
            0 <= i < ops.len() ==> (#[trigger] ops[i]).1 == 0),
    decreases ops.len(),
{
    if ops.len() > 0 {
        if ops[0].1 == 0 {
            lemma_is_empty_iff_never_extended(ops.drop_first());
            if count_after(0, ops) == 0 {
                assert forall|i: int| 0 <= i < ops.len() implies (#[trigger] ops[i]).1 == 0 by {
                    if i > 0 {
                        assert(ops.drop_first()[i - 1] == ops[i]);
                    }
                }
            }
            if forall|i: int| 0 <= i < ops.len() ==> (#[trigger] ops[i]).1 == 0 {
                assert forall|i: int|
                    0 <= i < ops.drop_first().len() implies (#[trigger] ops.drop_first()[i]).1
                    == 0 by {
                    assert(ops.drop_first()[i] == ops[i + 1]);
                }
            }
        } else {
            let c1: nat = vstd::math::max(0, ops[0].0 + ops[0].1) as nat;
            lemma_count_after_monotone(c1, ops.drop_first());
            assert(count_after(0, ops) >= c1 > 0);
        }
    }
}

/// After awaiting a successful `write_many(pieces, first)`, reading piece
/// `first + k` for any `k` within the batch returns `pieces[k]`, byte for
/// byte: the hypotheses are what `write_many` ensures on success, and the
/// conclusion pins what `read` then returns.
pub proof fn lemma_write_many_then_read(
    pre: Plot,
    post: Plot,
    pieces: Seq<Vec<u8>>,
    first: u64,
    k: int,
)
    requires
        pieces.len() > 0,
        first + pieces.len() <= u64::MAX,
        post.spec_piece_count() == vstd::math::max(
            pre.spec_piece_count() as int,
            first + pieces.len(),
        ),
        forall|j: int|
            0 <= j < post.spec_piece_count() ==> post.engine.file.spec_piece(j) == (if first <= j
                < first + pieces.len() {
                pieces[j - first]@
            } else if j < pre.spec_piece_count() {
                pre.engine.file.spec_piece(j)
            } else {
                zero_bytes(pre.engine.file.spec_piece_size())
            }),
        0 <= k < pieces.len(),
    ensures
        first + k < post.spec_piece_count(),
        post.engine.file.spec_piece(first + k) == pieces[k]@,
{
    assert(post.engine.file.spec_piece(first + k) == pieces[(first + k) - first]@);
}

/// After a successful `create_commitment(salt)` on a salt with no earlier
/// index, if the pieces' tags under that salt are pairwise distinct, then
/// a `find_by_range(tag(piece_i), 0, salt)` returns exactly
/// `Some((tag_i, i))` for every piece index `i` of the plot: the
/// hypotheses are what `create_commitment` ensures about the finished
/// index, the conclusion is what `find_by_range` then returns. Distinct
/// tags are needed: were two pieces to share a tag, the later piece's
/// index overwrites the earlier one's entry.
pub proof fn lemma_commitment_lookup<T: TagFunction>(
    file: PieceFile,
    tagger: T,
    salt: u64,
    entries: Seq<(u64, u64)>,
    i: int,
)
    requires
        sorted_by_tag(entries),
        Map::new(|t: u64| contains_tag(entries, t), |t: u64| lookup_tag(entries, t))
            == spec_put_many(Map::<u64, u64>::empty(), piece_tags(file, tagger, salt), 0),
        forall|a: int, b: int|
            0 <= a < b < file.spec_piece_count() ==> tagger.spec_tag(file.spec_piece(a), salt)
                != tagger.spec_tag(file.spec_piece(b), salt),
        file.spec_piece_count() <= u64::MAX,
        0 <= i < file.spec_piece_count(),
    ensures
        spec_find(entries, tagger.spec_tag(file.spec_piece(i), salt), 0) == Some(
            (tagger.spec_tag(file.spec_piece(i), salt), i as u64),
        ),
{
    let tags = piece_tags(file, tagger, salt);
    assert forall|a: int, b: int| 0 <= a < b < tags.len() implies tags[a] != tags[b] by {
        assert(tags[a] == tagger.spec_tag(file.spec_piece(a), salt));
        assert(tags[b] == tagger.spec_tag(file.spec_piece(b), salt));
    }
    crate::tag_index::lemma_put_many_distinct(Map::<u64, u64>::empty(), tags, 0);
    let t = tagger.spec_tag(file.spec_piece(i), salt);
    assert(tags[i] == t);
    let m = Map::new(|t: u64| contains_tag(entries, t), |t: u64| lookup_tag(entries, t));
    assert(m.contains_key(t) && m[t] == i as u64);
    assert(contains_tag(entries, t) && lookup_tag(entries, t) == i as u64);
    crate::tag_index::lemma_find_exact(entries, t);
}

} // verus!
