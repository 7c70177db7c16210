use vstd::prelude::*;

use crate::errors::PlotError;
use crate::util::lemma_vec_len_bound;
use vstd::arithmetic::mul::lemma_mul_inequality;
use vstd::arithmetic::mul::lemma_mul_is_distributive_add_other_way;
use vstd::arithmetic::mul::lemma_mul_nonnegative;

verus! {

/// A sequence of `n` zero bytes: the content of holes left by writes past
/// the current end of the plot.
pub open spec fn zero_bytes(n: nat) -> Seq<u8> {
    Seq::new(n, |i: int| 0u8)
}

/// Byte segment `j` of a byte image cut into records of `size` bytes.
pub open spec fn seg(d: Seq<u8>, j: int, size: int) -> Seq<u8> {
    d.subrange(j * size, (j + 1) * size)
}

/// Writes `src` over `data[dst..dst + |src|]`, leaving all other bytes alone.
fn copy_into(data: &mut Vec<u8>, dst: usize, src: &Vec<u8>)
    requires
        dst + src@.len() <= old(data)@.len(),
    ensures
        final(data)@.len() == old(data)@.len(),
        forall|b: int|
            0 <= b < old(data)@.len() && !(dst <= b < dst + src@.len()) ==> final(data)@[b] == old(
                data,
            )@[b],
        forall|b: int| dst <= b < dst + src@.len() ==> final(data)@[b] == src@[b - dst],
{
    proof {
        lemma_vec_len_bound(data);
    }
    let mut j: usize = 0;
    while j < src.len()
        invariant
            j <= src@.len(),
            dst + src@.len() <= data@.len(),
            data@.len() <= usize::MAX,
            data@.len() == old(data)@.len(),
            forall|b: int|
                0 <= b < old(data)@.len() && !(dst <= b < dst + j) ==> data@[b] == old(data)@[b],
            forall|b: int| dst <= b < dst + j ==> data@[b] == src@[b - dst],
        decreases src@.len() - j,
    {
        data[dst + j] = src[j];
        j += 1;
    }
}

/// Random-access fixed-record blob: a dense array of pieces, each exactly
/// `piece_size` bytes. The byte image is what goes to disk as `plot.bin`;
/// its length is always `piece_count * piece_size`.
pub struct PieceFile {
    pub piece_size: usize,
    pub piece_count: u64,
    pub data: Vec<u8>,
}

impl PieceFile {
    /// Structural invariant of the file image.
    pub open spec fn wf(&self) -> bool {
        &&& self.piece_size > 0
        &&& self.data@.len() == self.piece_count * self.piece_size
    }

    pub open spec fn spec_piece_size(&self) -> nat {
        self.piece_size as nat
    }

    pub open spec fn spec_piece_count(&self) -> nat {
        self.piece_count as nat
    }

    pub open spec fn bytes(&self) -> Seq<u8> {
        self.data@
    }

    /// Piece `i` of the file image.
    pub open spec fn spec_piece(&self, i: int) -> Seq<u8> {
        seg(self.data@, i, self.piece_size as int)
    }

    /// Opens a plot file image. Bytes beyond the last whole piece are cut
    /// off, so that the length is a multiple of the piece size.
    pub fn open(piece_size: usize, data: Vec<u8>) -> (r: PieceFile)
        requires
            piece_size > 0,
        ensures
            r.wf(),
            r.spec_piece_size() == piece_size,
            r.spec_piece_count() == data@.len() as int / piece_size as int,
            r.bytes() == data@.subrange(0, r.spec_piece_count() * piece_size as int),
    {
        let mut data = data;
        let piece_count: usize = data.len() / piece_size;
        proof {
            let l: int = data@.len() as int;
            let s: int = piece_size as int;
            vstd::arithmetic::div_mod::lemma_fundamental_div_mod(l, s);
            vstd::arithmetic::div_mod::lemma_mod_bound(l, s);
            assert(piece_count as int == l / s);
            assert(s * (l / s) == l - l % s);
            assert(piece_count as int * s <= l);
            lemma_mul_inequality(1, s, piece_count as int);
            vstd::arithmetic::mul::lemma_mul_is_commutative(s, piece_count as int);
            assert(1 * (piece_count as int) == piece_count as int);
            assert(piece_count as int <= l);
        }
        let keep: usize = piece_count * piece_size;
        data.truncate(keep);
        PieceFile { piece_size, piece_count: piece_count as u64, data }
    }

    /// Snapshot of the number of pieces stored.
    pub fn piece_count(&self) -> (r: u64)
        ensures
            r == self.spec_piece_count(),
    {
        self.piece_count
    }

    /// Borrow of the raw byte image, e.g. for persisting it.
    pub fn as_bytes(&self) -> (r: &Vec<u8>)
        ensures
            r@ == self.bytes(),
    {
        &self.data
    }

    /// Reads piece `index`. Fails exactly when the piece lies beyond the end
    /// of the plot, as a short read from the underlying file would.
    pub fn read_piece(&self, index: u64) -> (r: Result<Vec<u8>, PlotError>)
        requires
            self.wf(),
        ensures
            index < self.spec_piece_count() ==> (r matches Ok(p) && p@ == self.spec_piece(
                index as int,
            )),
            index >= self.spec_piece_count() ==> r == Result::<Vec<u8>, PlotError>::Err(
                PlotError::Io,
            ),
    {
        if index >= self.piece_count {
            return Err(PlotError::Io);
        }
        proof {
            lemma_vec_len_bound(&self.data);
            lemma_mul_inequality(index as int + 1, self.piece_count as int, self.piece_size as int);
            lemma_mul_nonnegative(index as int, self.piece_size as int);
            lemma_mul_is_distributive_add_other_way(self.piece_size as int, index as int, 1);
            assert((index + 1) * self.piece_size == index * self.piece_size + self.piece_size);
            assert(index * self.piece_size + self.piece_size <= self.data@.len());
            lemma_mul_inequality(1, self.piece_size as int, index as int);
            vstd::arithmetic::mul::lemma_mul_is_commutative(self.piece_size as int, index as int);
            assert(1 * (index as int) == index as int);
            assert(index <= usize::MAX);
        }
        let offset: usize = (index as usize) * self.piece_size;
        let mut piece: Vec<u8> = Vec::new();
        let mut j: usize = 0;
        while j < self.piece_size
            invariant
                j <= self.piece_size,
                offset == index * self.piece_size,
                offset + self.piece_size <= self.data@.len(),
                self.data@.len() <= usize::MAX,
                piece@ == self.data@.subrange(offset as int, offset + j),
            decreases self.piece_size - j,
        {
            piece.push(self.data[offset + j]);
            proof {
                assert(piece@ =~= self.data@.subrange(offset as int, offset + j + 1));
            }
            j += 1;
        }
        proof {
            assert(piece@ =~= self.spec_piece(index as int));
        }
        Ok(piece)
    }

    /// Reads `count` pieces starting at `first` as one contiguous byte
    /// block. Fails exactly when the range reaches beyond the end of the
    /// plot.
    pub fn read_pieces(&self, first: u64, count: u64) -> (r: Result<Vec<u8>, PlotError>)
        requires
            self.wf(),
        ensures
            first + count <= self.spec_piece_count() ==> (r matches Ok(b) && b@ == self.bytes()
                .subrange(
                first * self.spec_piece_size() as int,
                (first + count) * self.spec_piece_size() as int,
            )),
            first + count > self.spec_piece_count() ==> r == Result::<Vec<u8>, PlotError>::Err(
                PlotError::Io,
            ),
    {
        if count > self.piece_count || first > self.piece_count - count {
            return Err(PlotError::Io);
        }
        proof {
            lemma_vec_len_bound(&self.data);
            let s: int = self.piece_size as int;
            let fc: int = first as int + count as int;
            lemma_mul_inequality(fc, self.piece_count as int, s);
            lemma_mul_nonnegative(first as int, s);
            lemma_mul_inequality(first as int, fc, s);
            lemma_mul_inequality(1, s, fc);
            vstd::arithmetic::mul::lemma_mul_is_commutative(s, fc);
            assert(1 * fc == fc);
            assert(fc <= usize::MAX);
        }
        let lo: usize = (first as usize) * self.piece_size;
        let hi: usize = ((first as usize) + (count as usize)) * self.piece_size;
        let mut block: Vec<u8> = Vec::new();
        let mut j: usize = lo;
        while j < hi
            invariant
                lo <= j <= hi,
                hi <= self.data@.len(),
                self.data@.len() <= usize::MAX,
                block@ == self.data@.subrange(lo as int, j as int),
            decreases hi - j,
        {
            block.push(self.data[j]);
            proof {
                assert(block@ =~= self.data@.subrange(lo as int, j + 1));
            }
            j += 1;
        }
        Ok(block)
    }

    /// Writes `pieces` contiguously starting at piece `first`, overwriting
    /// any pieces already there. A write past the current end leaves a hole
    /// of zero bytes, exactly as a seek-and-write on a sparse file does, and
    /// the piece count grows to `max(old count, first + |pieces|)`.
    pub fn write_pieces(&mut self, first: u64, pieces: &Vec<Vec<u8>>) -> (r: Result<
        (),
        PlotError,
    >)
        requires
            old(self).wf(),
            forall|i: int|
                0 <= i < pieces@.len() ==> (#[trigger] pieces@[i])@.len() == old(
                    self,
                ).spec_piece_size(),
            (first + pieces@.len()) * old(self).spec_piece_size() <= usize::MAX,
            first + pieces@.len() <= u64::MAX,
        ensures
            r == Result::<(), PlotError>::Ok(()),
            final(self).wf(),
            final(self).spec_piece_size() == old(self).spec_piece_size(),
            final(self).spec_piece_count() == vstd::math::max(
                old(self).spec_piece_count() as int,
                first + pieces@.len(),
            ),
            forall|j: int|
                0 <= j < final(self).spec_piece_count() ==> final(self).spec_piece(j) == (if first
                    <= j < first + pieces@.len() {
                    pieces@[j - first]@
                } else if j < old(self).spec_piece_count() {
                    old(self).spec_piece(j)
                } else {
                    zero_bytes(old(self).spec_piece_size())
                }),
    {
        let ghost size: int = self.piece_size as int;
        let n: u64 = pieces.len() as u64;
        let new_count: u64 = if first + n > self.piece_count {
            first + n
        } else {
            self.piece_count
        };
        let cur_len: usize = self.data.len();
        proof {
            // Every count in play fits in usize, because its byte total does.
            lemma_mul_inequality(1, size, first + n);
            vstd::arithmetic::mul::lemma_mul_is_commutative(size, first + n);
            assert(1 * (first + n) == first + n);
            lemma_mul_inequality(1, size, self.piece_count as int);
            vstd::arithmetic::mul::lemma_mul_is_commutative(size, self.piece_count as int);
            assert(1 * (self.piece_count as int) == self.piece_count as int);
            assert(self.piece_count as int * size == cur_len);
            assert(new_count <= usize::MAX);
            if new_count == first + n {
                assert(new_count * size <= usize::MAX);
            } else {
                assert(new_count * size == cur_len);
            }
            lemma_mul_nonnegative(new_count as int, size);
            lemma_mul_inequality(self.piece_count as int, new_count as int, size);
        }
        let new_len: usize = (new_count as usize) * self.piece_size;
        // Extend with the zero bytes of any hole and of the fresh region
        // about to be written.
        let ghost orig: Seq<u8> = self.data@;
        while self.data.len() < new_len
            invariant
                self.piece_size == old(self).piece_size,
                self.piece_count == old(self).piece_count,
                orig.len() <= self.data@.len() <= new_len,
                self.data@ == orig + zero_bytes((self.data@.len() - orig.len()) as nat),
            decreases new_len - self.data@.len(),
        {
            self.data.push(0u8);
            proof {
                assert(self.data@ =~= orig + zero_bytes((self.data@.len() - orig.len()) as nat));
            }
        }
        let ghost padded: Seq<u8> = self.data@;
        // Copy each piece into place.
        let mut k: usize = 0;
        while k < pieces.len()
            invariant
                self.piece_size == old(self).piece_size,
                self.piece_count == old(self).piece_count,
                size == self.piece_size as int,
                k <= pieces@.len(),
                forall|i: int|
                    0 <= i < pieces@.len() ==> (#[trigger] pieces@[i])@.len() == self.piece_size,
                first + pieces@.len() <= new_count,
                first + pieces@.len() <= usize::MAX,
                new_count * size <= usize::MAX,
                self.data@.len() == padded.len(),
                padded.len() == new_count * size,
                self.piece_size > 0,
                forall|j: int|
                    0 <= j < new_count && !(first <= j < first + k) ==> #[trigger] seg(
                        self.data@,
                        j,
                        size,
                    ) == seg(padded, j, size),
                forall|j: int|
                    first <= j < first + k ==> #[trigger] seg(self.data@, j, size) == pieces@[j
                        - first]@,
            decreases pieces@.len() - k,
        {
            proof {
                lemma_mul_inequality(first as int + k + 1, new_count as int, size);
                lemma_mul_nonnegative(first as int + k, size);
                lemma_mul_is_distributive_add_other_way(size, first as int + k, 1);
                assert((first + k) * size + size == (first + k + 1) * size);
                assert((first + k) * size + size <= new_count * size);
            }
            let dst: usize = ((first as usize) + k) * self.piece_size;
            let ghost before: Seq<u8> = self.data@;
            copy_into(&mut self.data, dst, &pieces[k]);
            proof {
                let tgt: int = first as int + k;
                assert forall|j: int| 0 <= j < new_count && j != tgt implies #[trigger] seg(
                    self.data@,
                    j,
                    size,
                ) == seg(before, j, size) by {
                    if j < tgt {
                        lemma_mul_inequality(j + 1, tgt, size);
                        lemma_mul_is_distributive_add_other_way(size, j, 1);
                    } else {
                        lemma_mul_inequality(tgt + 1, j, size);
                        lemma_mul_is_distributive_add_other_way(size, tgt, 1);
                    }
                    lemma_mul_inequality(j + 1, new_count as int, size);
                    lemma_mul_is_distributive_add_other_way(size, j, 1);
                    lemma_mul_nonnegative(j, size);
                    assert(seg(self.data@, j, size) =~= seg(before, j, size));
                }
                assert(seg(self.data@, tgt, size) =~= pieces@[k as int]@);
            }
            k += 1;
        }
        self.piece_count = new_count;
        proof {
            let pre = old(self);
            assert forall|j: int|
                0 <= j < new_count && !(first <= j < first + pieces@.len()) implies #[trigger] seg(
                padded,
                j,
                size,
            ) == (if j < pre.spec_piece_count() {
                pre.spec_piece(j)
            } else {
                zero_bytes(pre.spec_piece_size())
            }) by {
                lemma_mul_nonnegative(j, size);
                lemma_mul_inequality(j + 1, new_count as int, size);
                lemma_mul_is_distributive_add_other_way(size, j, 1);
                if j < pre.spec_piece_count() {
                    lemma_mul_inequality(j + 1, pre.piece_count as int, size);
                    assert(seg(padded, j, size) =~= pre.spec_piece(j));
                } else {
                    lemma_mul_inequality(pre.piece_count as int, j, size);
                    assert(seg(padded, j, size) =~= zero_bytes(pre.spec_piece_size()));
                }
            }
        }
        Ok(())
    }
}

} // verus!
