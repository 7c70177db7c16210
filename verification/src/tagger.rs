use vstd::prelude::*;

use crate::util::bytes_equal;

verus! {

/// The keyed hash `tag(piece, salt)` that names each piece in a
/// commitment. The hash itself is an external collaborator: the plot only
/// needs its result to be a function of the piece and the salt, which
/// this trait states.
pub trait TagFunction: Sized {
    spec fn spec_tag(&self, piece: Seq<u8>, salt: u64) -> u64;

    fn tag(&self, piece: &Vec<u8>, salt: u64) -> (r: u64)
        ensures
            r == self.spec_tag(piece@, salt),
    ;
}

/// First entry of the table matching the piece and the salt.
pub open spec fn table_lookup(rows: Seq<(Vec<u8>, u64, u64)>, piece: Seq<u8>, salt: u64) -> Option<
    u64,
>
    decreases rows.len(),
{
    if rows.len() == 0 {
        None
    } else if rows[0].0@ == piece && rows[0].1 == salt {
        Some(rows[0].2)
    } else {
        table_lookup(rows.drop_first(), piece, salt)
    }
}

/// A tag function given by a finite table of `(piece, salt, tag)` rows,
/// falling back on a fixed tag: a stand-in for the real keyed hash where
/// the caller knows the tags it wants.
pub struct TableTagFunction {
    pub rows: Vec<(Vec<u8>, u64, u64)>,
    pub fallback: u64,
}

impl TableTagFunction {
    pub fn new(fallback: u64) -> (r: TableTagFunction)
        ensures
            r.rows@.len() == 0,
            r.fallback == fallback,
    {
        TableTagFunction { rows: Vec::new(), fallback }
    }

    pub fn add_row(&mut self, piece: Vec<u8>, salt: u64, tag: u64)
        ensures
            final(self).rows@ == old(self).rows@.push((piece, salt, tag)),
            final(self).fallback == old(self).fallback,
    {
        self.rows.push((piece, salt, tag));
    }
}

proof fn lemma_table_lookup_prefix(rows: Seq<(Vec<u8>, u64, u64)>, piece: Seq<u8>, salt: u64, i: int)
    requires
        0 <= i <= rows.len(),
        forall|j: int| 0 <= j < i ==> !((#[trigger] rows[j]).0@ == piece && rows[j].1 == salt),
    ensures
        table_lookup(rows, piece, salt) == table_lookup(rows.skip(i), piece, salt),
    decreases i,
{
    if i > 0 {
        assert(!((rows[0]).0@ == piece && rows[0].1 == salt));
        assert forall|j: int|
            0 <= j < i - 1 implies !((#[trigger] rows.drop_first()[j]).0@ == piece
            && rows.drop_first()[j].1 == salt) by {
            assert(rows.drop_first()[j] == rows[j + 1]);
        }
        lemma_table_lookup_prefix(rows.drop_first(), piece, salt, i - 1);
        assert(table_lookup(rows, piece, salt) == table_lookup(rows.drop_first(), piece, salt));
        assert(rows.drop_first().skip(i - 1) =~= rows.skip(i));
        assert(table_lookup(rows.drop_first(), piece, salt) == table_lookup(
            rows.skip(i),
            piece,
            salt,
        ));
    } else {
        assert(rows.skip(0) =~= rows);
    }
}

impl TagFunction for TableTagFunction {
    open spec fn spec_tag(&self, piece: Seq<u8>, salt: u64) -> u64 {
        match table_lookup(self.rows@, piece, salt) {
            Some(t) => t,
            None => self.fallback,
        }
    }

    fn tag(&self, piece: &Vec<u8>, salt: u64) -> (r: u64)
        ensures
            r == self.spec_tag(piece@, salt),
    {
        let mut i: usize = 0;
        while i < self.rows.len()
            invariant
                i <= self.rows@.len(),
                forall|j: int|
                    0 <= j < i ==> !((#[trigger] self.rows@[j]).0@ == piece@ && self.rows@[j].1
                        == salt),
            decreases self.rows@.len() - i,
        {
            if bytes_equal(&self.rows[i].0, piece) && self.rows[i].1 == salt {
                proof {
                    lemma_table_lookup_prefix(self.rows@, piece@, salt, i as int);
                    assert(self.rows@.skip(i as int)[0] == self.rows@[i as int]);
                }
                return self.rows[i].2;
            }
            i += 1;
        }
        proof {
            lemma_table_lookup_prefix(self.rows@, piece@, salt, i as int);
            assert(self.rows@.skip(i as int).len() == 0);
        }
        self.fallback
    }
}

} // verus!
