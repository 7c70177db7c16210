use vstd::prelude::*;

use crate::commitments::Commitments;
use crate::engine::{PlotEngine, ReadRequest, ReadResponse, WriteRequest, WriteResponse};
use crate::errors::PlotError;
use crate::piece_file::{zero_bytes, PieceFile};
use crate::status::{CommitmentStatus, StatusMap};
use crate::tag_index::{spec_find, spec_put_many};
use crate::tagger::TagFunction;
use crate::util::{clone_bytes, contains_u64};

verus! {

/// The tags of every piece of the plot under one salt, in piece order:
/// what a finished commitment holds.
pub open spec fn piece_tags<T: TagFunction>(file: PieceFile, tagger: T, salt: u64) -> Seq<u64> {
    Seq::new(file.spec_piece_count() as nat, |i: int| tagger.spec_tag(file.spec_piece(i), salt))
}

/// The tag map a salt's index starts from: what it already held, or
/// nothing when the salt is new.
pub open spec fn initial_tag_map(c: Commitments, salt: u64) -> Map<u64, u64> {
    if c.has_salt(salt) {
        c.tag_map_of(salt)
    } else {
        Map::<u64, u64>::empty()
    }
}

/// What one driver batch did.
#[derive(Clone, Copy, Debug, PartialEq, Eq, Structural)]
pub enum BatchOutcome {
    /// The boundary check found the build aborted; nothing was written.
    AbortObserved,
    /// The batch's tags were written.
    Written,
}

/// One past the last piece of the batch starting at `start`: a full batch
/// or whatever the plot still has.
pub open spec fn batch_end(file: PieceFile, start: u64) -> u64 {
    if file.spec_piece_count() - start < crate::BATCH_SIZE {
        file.spec_piece_count() as u64
    } else {
        (start + crate::BATCH_SIZE) as u64
    }
}

fn batch_end_exec(start: u64, piece_count: u64) -> (r: u64)
    requires
        start < piece_count,
    ensures
        start < r <= piece_count,
        r == start + vstd::math::min((piece_count - start) as int, crate::BATCH_SIZE as int),
{
    if piece_count - start < crate::BATCH_SIZE {
        piece_count
    } else {
        start + crate::BATCH_SIZE
    }
}

/// The plot facade: the engine state, the commitment status map and the
/// plot metadata. An embedding feeds the engine over bounded channels;
/// here every request is served in place, so each method states exactly
/// what the round trip returns and changes.
pub struct Plot {
    pub engine: PlotEngine,
    pub statuses: StatusMap,
    pub last_root_block: Option<Vec<u8>>,
}

impl Plot {
    /// Structural invariant. Any salt with an index on disk has a status
    /// entry; absence of an entry means not present and not being built.
    pub open spec fn wf(&self) -> bool {
        &&& self.engine.wf()
        &&& self.statuses.wf()
        &&& forall|s: u64|
            self.engine.commitments.has_salt(s) ==> self.statuses.as_map().contains_key(s)
    }

    pub open spec fn statuses_map(&self) -> Map<u64, CommitmentStatus> {
        self.statuses.as_map()
    }

    pub open spec fn spec_piece_count(&self) -> nat {
        self.engine.file.spec_piece_count()
    }

    /// Opens a plot from the bytes of `plot.bin`, the commitment indexes
    /// found on disk, and the stored root-block blob. Every salt found on
    /// disk starts as `Created`.
    pub fn open_or_create(
        piece_size: usize,
        plot_bytes: Vec<u8>,
        commitments: Commitments,
        last_root_block: Option<Vec<u8>>,
    ) -> (r: Plot)
        requires
            piece_size > 0,
            commitments.wf(),
        ensures
            r.wf(),
            r.engine.file.spec_piece_size() == piece_size,
            r.engine.file.spec_piece_count() == plot_bytes@.len() as int / piece_size as int,
            r.engine.commitments == commitments,
            forall|s: u64| r.statuses_map().contains_key(s) <==> commitments.has_salt(s),
            forall|s: u64|
                commitments.has_salt(s) ==> r.statuses_map()[s] == CommitmentStatus::Created,
            r.last_root_block == last_root_block,
    {
        let file = PieceFile::open(piece_size, plot_bytes);
        let existing = commitments.salts();
        let mut statuses = StatusMap::new();
        let mut i: usize = 0;
        while i < existing.len()
            invariant
                statuses.wf(),
                i <= existing@.len(),
                existing@.len() == commitments.dirs@.len(),
                forall|j: int|
                    0 <= j < existing@.len() ==> existing@[j] == (
                    #[trigger] commitments.dirs@[j]).salt,
                forall|s: u64|
                    statuses.as_map().contains_key(s) <==> exists|j: int|
                        0 <= j < i && #[trigger] existing@[j] == s,
                forall|s: u64|
                    statuses.as_map().contains_key(s) ==> statuses.as_map()[s]
                        == CommitmentStatus::Created,
            decreases existing@.len() - i,
        {
            statuses.set(existing[i], CommitmentStatus::Created);
            proof {
                assert(exists|j: int| 0 <= j < i + 1 && #[trigger] existing@[j] == existing@[i as int]);
            }
            i += 1;
        }
        proof {
            assert forall|s: u64|
                statuses.as_map().contains_key(s) <==> commitments.has_salt(s) by {
                if statuses.as_map().contains_key(s) {
                    let j = choose|j: int| 0 <= j < i && #[trigger] existing@[j] == s;
                    assert(commitments.dirs@[j].salt == s);
                }
                if commitments.has_salt(s) {
                    let j = choose|j: int|
                        0 <= j < commitments.dirs@.len() && (#[trigger] commitments.dirs@[j]).salt
                            == s;
                    assert(existing@[j] == s);
                }
            }
        }
        let engine = PlotEngine::new(file, commitments);
        Plot { engine, statuses, last_root_block }
    }

    /// Whether the plot holds no pieces at all.
    pub fn is_empty(&self) -> (r: bool)
        ensures
            r == (self.spec_piece_count() == 0),
    {
        self.engine.file.piece_count() == 0
    }

    /// Reads one piece by index: the round trip of a `ReadPiece` request.
    pub fn read(&self, index: u64) -> (r: Result<Vec<u8>, PlotError>)
        requires
            self.wf(),
        ensures
            index < self.spec_piece_count() ==> (r matches Ok(p) && p@ == self.engine.file.spec_piece(
                index as int,
            )),
            index >= self.spec_piece_count() ==> r == Result::<Vec<u8>, PlotError>::Err(
                PlotError::Io,
            ),
    {
        match self.engine.handle_read(&ReadRequest::ReadPiece { index }) {
            ReadResponse::Piece(res) => res,
            _ => vstd::pervasive::unreached(),
        }
    }

    /// Reads `count` pieces from `first` as one contiguous byte block: the
    /// round trip of a `ReadPieces` request.
    pub fn read_pieces(&self, first: u64, count: u64) -> (r: Result<Vec<u8>, PlotError>)
        requires
            self.wf(),
        ensures
            first + count <= self.spec_piece_count() ==> (r matches Ok(b) && b@
                == self.engine.file.bytes().subrange(
                first * self.engine.file.spec_piece_size() as int,
                (first + count) * self.engine.file.spec_piece_size() as int,
            )),
            first + count > self.spec_piece_count() ==> r == Result::<Vec<u8>, PlotError>::Err(
                PlotError::Io,
            ),
    {
        match self.engine.handle_read(&ReadRequest::ReadPieces { first, count }) {
            ReadResponse::Pieces(res) => res,
            _ => vstd::pervasive::unreached(),
        }
    }

    /// Looks for a stored tag within the window of width `range` centred
    /// on `target` in the salt's index: the round trip of a `FindByRange`
    /// request. The first solution in scan order comes back.
    pub fn find_by_range(&self, target: u64, range: u64, salt: u64) -> (r: Result<
        Option<(u64, u64)>,
        PlotError,
    >)
        requires
            self.wf(),
        ensures
            r == Result::<Option<(u64, u64)>, PlotError>::Ok(
                if self.engine.commitments.has_salt(salt) {
                    spec_find(self.engine.commitments.entries_of(salt), target, range)
                } else {
                    Option::<(u64, u64)>::None
                },
            ),
    {
        match self.engine.handle_read(&ReadRequest::FindByRange { target, range, salt }) {
            ReadResponse::Solution(res) => res,
            _ => vstd::pervasive::unreached(),
        }
    }

    /// Writes pieces to the plot starting at `first`, overwriting pieces
    /// already there: the round trip of a `WritePieces` request. An empty
    /// batch never reaches the engine. The write fails exactly when a
    /// piece has the wrong length or the end of the write cannot fit.
    pub fn write_many(&mut self, pieces: Vec<Vec<u8>>, first: u64) -> (r: Result<(), PlotError>)
        requires
            old(self).wf(),
        ensures
            final(self).wf(),
            final(self).statuses == old(self).statuses,
            final(self).last_root_block == old(self).last_root_block,
            final(self).engine.commitments == old(self).engine.commitments,
            final(self).engine.file.spec_piece_size() == old(self).engine.file.spec_piece_size(),
            pieces@.len() == 0 ==> r == Result::<(), PlotError>::Ok(()) && *final(self) == *old(
                self,
            ),
            pieces@.len() > 0 && (forall|i: int|
                0 <= i < pieces@.len() ==> (#[trigger] pieces@[i])@.len() == old(
                    self,
                ).engine.file.spec_piece_size()) && (first + pieces@.len()) * old(
                self,
            ).engine.file.spec_piece_size() <= usize::MAX && first + pieces@.len() <= u64::MAX ==> {
                &&& r == Result::<(), PlotError>::Ok(())
                &&& final(self).spec_piece_count() == vstd::math::max(
                    old(self).spec_piece_count() as int,
                    first + pieces@.len(),
                )
                &&& forall|j: int|
                    0 <= j < final(self).spec_piece_count() ==> final(self).engine.file.spec_piece(
                        j,
                    ) == (if first <= j < first + pieces@.len() {
                        pieces@[j - first]@
                    } else if j < old(self).spec_piece_count() {
                        old(self).engine.file.spec_piece(j)
                    } else {
                        zero_bytes(old(self).engine.file.spec_piece_size())
                    })
            },
            pieces@.len() > 0 && !((forall|i: int|
                0 <= i < pieces@.len() ==> (#[trigger] pieces@[i])@.len() == old(
                    self,
                ).engine.file.spec_piece_size()) && (first + pieces@.len()) * old(
                self,
            ).engine.file.spec_piece_size() <= usize::MAX && first + pieces@.len() <= u64::MAX)
                ==> r == Result::<(), PlotError>::Err(PlotError::Io) && *final(self) == *old(self),
    {
        if pieces.is_empty() {
            return Ok(());
        }
        match self.engine.handle_write(WriteRequest::WritePieces { first, pieces }) {
            WriteResponse::Written(res) => res,
            _ => vstd::pervasive::unreached(),
        }
    }

    /// The stored root-block blob, if one was ever stored.
    pub fn get_last_root_block(&self) -> (r: Option<Vec<u8>>)
        ensures
            r is Some <==> self.last_root_block is Some,
            r matches Some(b) ==> self.last_root_block matches Some(o) && b@ == o@,
    {
        match &self.last_root_block {
            Some(blob) => Some(clone_bytes(blob)),
            None => None,
        }
    }

    /// Stores the serialized root-block blob, replacing any previous one.
    pub fn set_last_root_block(&mut self, blob: Vec<u8>)
        requires
            old(self).wf(),
        ensures
            final(self).wf(),
            final(self).last_root_block == Some(blob),
            final(self).engine == old(self).engine,
            final(self).statuses == old(self).statuses,
    {
        self.last_root_block = Some(blob);
    }

    /// Removes every commitment whose salt is not in `keep`, status entry
    /// and on-disk index both, whatever state it was in.
    pub fn retain_commitments(&mut self, keep: Vec<u64>) -> (r: Result<(), PlotError>)
        requires
            old(self).wf(),
        ensures
            final(self).wf(),
            r == Result::<(), PlotError>::Ok(()),
            final(self).engine.file == old(self).engine.file,
            final(self).last_root_block == old(self).last_root_block,
            forall|s: u64|
                keep@.contains(s) ==> final(self).statuses_map().contains_key(s) == old(
                    self,
                ).statuses_map().contains_key(s) && (old(self).statuses_map().contains_key(s)
                    ==> final(self).statuses_map()[s] == old(self).statuses_map()[s]) && final(self).engine.commitments.salt_view(s) == old(self).engine.commitments.salt_view(s),
            forall|s: u64|
                !keep@.contains(s) ==> !final(self).statuses_map().contains_key(s) && !final(self).engine.commitments.has_salt(s),
    {
        let all = self.statuses.salts();
        let ghost pre = *self;
        let mut i: usize = 0;
        while i < all.len()
            invariant
                self.wf(),
                i <= all@.len(),
                self.engine.file == pre.engine.file,
                self.last_root_block == pre.last_root_block,
                forall|j: int|
                    0 <= j < all@.len() ==> pre.statuses_map().contains_key(#[trigger] all@[j]),
                forall|s: u64| pre.statuses_map().contains_key(s) ==> all@.contains(s),
                forall|s: u64|
                    #[trigger] keep@.contains(s) ==> self.statuses_map().contains_key(s)
                        == pre.statuses_map().contains_key(s) && (
                    pre.statuses_map().contains_key(s) ==> self.statuses_map()[s]
                        == pre.statuses_map()[s]) && self.engine.commitments.salt_view(s)
                        == pre.engine.commitments.salt_view(s),
                forall|s: u64|
                    !(#[trigger] pre.statuses_map().contains_key(s))
                        ==> !self.statuses_map().contains_key(s)
                        && self.engine.commitments.salt_view(s)
                        == pre.engine.commitments.salt_view(s),
                forall|j: int|
                    0 <= j < i && !keep@.contains(#[trigger] all@[j]) ==> !self.statuses_map().contains_key(
                        all@[j],
                    ) && !self.engine.commitments.has_salt(all@[j]),
            decreases all@.len() - i,
        {
            let salt = all[i];
            let ghost before = *self;
            if !contains_u64(&keep, salt) {
                self.statuses.remove(salt);
                match self.engine.handle_write(WriteRequest::RemoveCommitment { salt }) {
                    WriteResponse::Removed => (),
                    _ => vstd::pervasive::unreached(),
                }
                proof {
                    assert(all@[i as int] == salt);
                    assert forall|s: u64|
                        s != salt implies #[trigger] self.engine.commitments.has_salt(s)
                        == before.engine.commitments.has_salt(s)
                        && self.engine.commitments.salt_view(s)
                        == before.engine.commitments.salt_view(s) by {
                        crate::commitments::lemma_view_eq(
                            &self.engine.commitments,
                            &before.engine.commitments,
                            s,
                        );
                    }
                    assert forall|s: u64|
                        #[trigger] self.engine.commitments.has_salt(s) implies self.statuses_map().contains_key(
                        s,
                    ) by {
                        assert(s != salt);
                        assert(before.statuses_map().contains_key(s));
                    }
                    assert forall|j: int|
                        0 <= j < i + 1 && !keep@.contains(#[trigger] all@[j])
                        implies !self.statuses_map().contains_key(all@[j])
                        && !self.engine.commitments.has_salt(all@[j]) by {
                        if j < i && all@[j] != salt {
                            assert(!before.statuses_map().contains_key(all@[j]));
                            assert(!before.engine.commitments.has_salt(all@[j]));
                        }
                    }
                    assert forall|s: u64|
                        !(#[trigger] pre.statuses_map().contains_key(s))
                        implies !self.statuses_map().contains_key(s)
                        && self.engine.commitments.salt_view(s)
                        == pre.engine.commitments.salt_view(s) by {
                        assert(pre.statuses_map().contains_key(all@[i as int]));
                        assert(s != salt);
                        assert(!before.statuses_map().contains_key(s));
                    }
                }
            } else {
                proof {
                    assert(keep@.contains(all@[i as int]));
                }
            }
            i += 1;
        }
        proof {
            assert forall|s: u64| !keep@.contains(s) implies !self.statuses_map().contains_key(s)
                && !self.engine.commitments.has_salt(s) by {
                if pre.statuses_map().contains_key(s) {
                    assert(all@.contains(s));
                    let j = choose|j: int| 0 <= j < all@.len() && all@[j] == s;
                    assert(!keep@.contains(all@[j]));
                } else {
                    assert(!self.statuses_map().contains_key(s)
                        && self.engine.commitments.salt_view(s)
                        == pre.engine.commitments.salt_view(s));
                    crate::commitments::lemma_view_eq(
                        &self.engine.commitments,
                        &pre.engine.commitments,
                        s,
                    );
                    if pre.engine.commitments.has_salt(s) {
                        assert(pre.statuses_map().contains_key(s));
                    }
                }
            }
        }
        Ok(())
    }

    /// Step one of the commitment driver. When the salt is already
    /// `Created` there is nothing to build and `true` comes back;
    /// otherwise the salt is marked `InProgress`, whatever it was before.
    pub fn begin_commitment(&mut self, salt: u64) -> (r: bool)
        requires
            old(self).wf(),
        ensures
            final(self).wf(),
            final(self).engine == old(self).engine,
            final(self).last_root_block == old(self).last_root_block,
            r == (old(self).statuses_map().contains_key(salt) && old(self).statuses_map()[salt]
                == CommitmentStatus::Created),
            r ==> *final(self) == *old(self),
            !r ==> final(self).statuses_map() == old(self).statuses_map().insert(
                salt,
                CommitmentStatus::InProgress,
            ),
    {
        match self.statuses.get(salt) {
            Some(CommitmentStatus::Created) => true,
            _ => {
                self.statuses.set(salt, CommitmentStatus::InProgress);
                false
            },
        }
    }

    /// One batch of the commitment driver: the abort check at the batch
    /// boundary, then reading the batch's pieces, tagging them, and
    /// writing the tags. When the status was switched to `Aborted` in the
    /// meantime the batch does nothing and reports it.
    pub fn commitment_batch<T: TagFunction>(&mut self, salt: u64, batch_start: u64, tagger: &T)
        -> (r: BatchOutcome)
        requires
            old(self).wf(),
            old(self).statuses_map().contains_key(salt),
            batch_start < old(self).spec_piece_count(),
        ensures
            final(self).wf(),
            final(self).statuses == old(self).statuses,
            final(self).engine.file == old(self).engine.file,
            final(self).last_root_block == old(self).last_root_block,
            old(self).statuses_map()[salt] == CommitmentStatus::Aborted ==> r
                == BatchOutcome::AbortObserved && *final(self) == *old(self),
            old(self).statuses_map()[salt] != CommitmentStatus::Aborted ==> {
                let tags = piece_tags(old(self).engine.file, *tagger, salt).subrange(
                    batch_start as int,
                    batch_end(old(self).engine.file, batch_start) as int,
                );
                &&& r == BatchOutcome::Written
                &&& final(self).engine.commitments.has_salt(salt)
                &&& crate::tag_index::sorted_by_tag(
                    final(self).engine.commitments.entries_of(salt),
                )
                &&& final(self).engine.commitments.tag_map_of(salt) == spec_put_many(
                    initial_tag_map(old(self).engine.commitments, salt),
                    tags,
                    batch_start,
                )
                &&& final(self).engine.commitments.finished_of(salt) == (if old(
                    self,
                ).engine.commitments.has_salt(salt) {
                    old(self).engine.commitments.finished_of(salt)
                } else {
                    false
                })
                &&& forall|s: u64|
                    s != salt ==> final(self).engine.commitments.salt_view(s) == old(
                        self,
                    ).engine.commitments.salt_view(s)
            },
    {
        match self.statuses.get(salt) {
            Some(CommitmentStatus::Aborted) => {
                return BatchOutcome::AbortObserved;
            },
            _ => {},
        }
        let piece_count = self.engine.file.piece_count();
        let batch_len: u64 = if piece_count - batch_start < crate::BATCH_SIZE {
            piece_count - batch_start
        } else {
            crate::BATCH_SIZE
        };
        let mut tags: Vec<u64> = Vec::new();
        let mut k: u64 = 0;
        while k < batch_len
            invariant
                self.wf(),
                self == old(self),
                k <= batch_len,
                batch_start + batch_len <= self.spec_piece_count(),
                tags@.len() == k,
                forall|j: int|
                    0 <= j < k ==> tags@[j] == tagger.spec_tag(
                        self.engine.file.spec_piece(batch_start + j),
                        salt,
                    ),
            decreases batch_len - k,
        {
            let piece = match self.engine.file.read_piece(batch_start + k) {
                Ok(p) => p,
                Err(_) => vstd::pervasive::unreached(),
            };
            tags.push(tagger.tag(&piece, salt));
            k += 1;
        }
        proof {
            assert(tags@ =~= piece_tags(self.engine.file, *tagger, salt).subrange(
                batch_start as int,
                batch_end(self.engine.file, batch_start) as int,
            ));
        }
        let out = match self.engine.handle_write(
            WriteRequest::WriteTags { first: batch_start, tags, salt },
        ) {
            WriteResponse::TagsWritten(Ok(())) => BatchOutcome::Written,
            _ => vstd::pervasive::unreached(),
        };
        proof {
            assert forall|s: u64|
                #[trigger] self.engine.commitments.has_salt(s) implies self.statuses_map().contains_key(
                s,
            ) by {
                if s != salt {
                    crate::commitments::lemma_view_eq(
                        &self.engine.commitments,
                        &old(self).engine.commitments,
                        s,
                    );
                    assert(old(self).statuses_map().contains_key(s));
                }
            }
        }
        out
    }

    /// The tail of the commitment driver: the abort check, the atomic
    /// finish of the salt's index, and the status change to `Created`. On
    /// abort the driver cleans up: status entry and on-disk index go away
    /// and the abort is reported.
    pub fn finalize_commitment(&mut self, salt: u64) -> (r: Result<(), PlotError>)
        requires
            old(self).wf(),
            old(self).statuses_map().contains_key(salt),
        ensures
            final(self).wf(),
            final(self).engine.file == old(self).engine.file,
            final(self).last_root_block == old(self).last_root_block,
            old(self).statuses_map()[salt] == CommitmentStatus::Aborted ==> {
                &&& r == Result::<(), PlotError>::Err(PlotError::Aborted)
                &&& final(self).statuses_map() == old(self).statuses_map().remove(salt)
                &&& !final(self).engine.commitments.has_salt(salt)
                &&& forall|s: u64|
                    s != salt ==> final(self).engine.commitments.salt_view(s) == old(
                        self,
                    ).engine.commitments.salt_view(s)
            },
            old(self).statuses_map()[salt] != CommitmentStatus::Aborted && old(
                self,
            ).engine.commitments.has_salt(salt) ==> {
                &&& r == Result::<(), PlotError>::Ok(())
                &&& final(self).statuses_map() == old(self).statuses_map().insert(
                    salt,
                    CommitmentStatus::Created,
                )
                &&& final(self).engine.commitments.salt_view(salt) == Some(
                    (old(self).engine.commitments.entries_of(salt), true),
                )
                &&& forall|s: u64|
                    s != salt ==> final(self).engine.commitments.salt_view(s) == old(
                        self,
                    ).engine.commitments.salt_view(s)
            },
            old(self).statuses_map()[salt] != CommitmentStatus::Aborted && !old(
                self,
            ).engine.commitments.has_salt(salt) ==> r == Result::<(), PlotError>::Err(PlotError::Kv)
                && *final(self) == *old(self),
    {
        match self.statuses.get(salt) {
            Some(CommitmentStatus::Aborted) => {
                self.statuses.remove(salt);
                match self.engine.handle_write(WriteRequest::RemoveCommitment { salt }) {
                    WriteResponse::Removed => (),
                    _ => vstd::pervasive::unreached(),
                }
                proof {
                    assert forall|s: u64|
                        #[trigger] self.engine.commitments.has_salt(s) implies self.statuses_map().contains_key(
                        s,
                    ) by {
                        assert(s != salt);
                        crate::commitments::lemma_view_eq(
                            &self.engine.commitments,
                            &old(self).engine.commitments,
                            s,
                        );
                        assert(old(self).statuses_map().contains_key(s));
                    }
                }
                return Err(PlotError::Aborted);
            },
            _ => {},
        }
        match self.engine.handle_write(WriteRequest::FinishCommitment { salt }) {
            WriteResponse::Finished(Ok(())) => {},
            WriteResponse::Finished(Err(e)) => {
                return Err(e);
            },
            _ => vstd::pervasive::unreached(),
        }
        match self.statuses.get(salt) {
            Some(CommitmentStatus::Aborted) => {
                // Unreachable here: nothing between the two checks can
                // switch the status, but the driver keeps the check that
                // guards against a removal arriving mid-finish.
                self.statuses.remove(salt);
                match self.engine.handle_write(WriteRequest::RemoveCommitment { salt }) {
                    WriteResponse::Removed => (),
                    _ => vstd::pervasive::unreached(),
                }
                proof {
                    assert forall|s: u64|
                        #[trigger] self.engine.commitments.has_salt(s) implies self.statuses_map().contains_key(
                        s,
                    ) by {
                        assert(s != salt);
                        crate::commitments::lemma_view_eq(
                            &self.engine.commitments,
                            &old(self).engine.commitments,
                            s,
                        );
                        assert(old(self).statuses_map().contains_key(s));
                    }
                }
                Err(PlotError::Aborted)
            },
            _ => {
                self.statuses.set(salt, CommitmentStatus::Created);
                proof {
                    assert forall|s: u64|
                        #[trigger] self.engine.commitments.has_salt(s) implies self.statuses_map().contains_key(
                        s,
                    ) by {
                        if s != salt {
                            crate::commitments::lemma_view_eq(
                                &self.engine.commitments,
                                &old(self).engine.commitments,
                                s,
                            );
                            assert(old(self).statuses_map().contains_key(s));
                        }
                    }
                }
                Ok(())
            },
        }
    }

    /// Builds the salt's commitment: tags for every piece of the plot,
    /// batch by batch, then the atomic finish. A salt already `Created`
    /// returns at once. In this single-task setting no abort can arrive
    /// between the boundary checks, so the build always completes; the
    /// step functions above carry the abort protocol for a driver that
    /// interleaves with removals.
    pub fn create_commitment<T: TagFunction>(&mut self, salt: u64, tagger: &T) -> (r: Result<
        (),
        PlotError,
    >)
        requires
            old(self).wf(),
        ensures
            final(self).wf(),
            r == Result::<(), PlotError>::Ok(()),
            final(self).engine.file == old(self).engine.file,
            final(self).last_root_block == old(self).last_root_block,
            final(self).statuses_map() == old(self).statuses_map().insert(
                salt,
                CommitmentStatus::Created,
            ),
            (old(self).statuses_map().contains_key(salt) && old(self).statuses_map()[salt]
                == CommitmentStatus::Created) ==> *final(self) == *old(self),
            !(old(self).statuses_map().contains_key(salt) && old(self).statuses_map()[salt]
                == CommitmentStatus::Created) ==> {
                &&& final(self).engine.commitments.has_salt(salt)
                &&& final(self).engine.commitments.finished_of(salt)
                &&& crate::tag_index::sorted_by_tag(
                    final(self).engine.commitments.entries_of(salt),
                )
                &&& final(self).engine.commitments.tag_map_of(salt) == spec_put_many(
                    initial_tag_map(old(self).engine.commitments, salt),
                    piece_tags(old(self).engine.file, *tagger, salt),
                    0,
                )
                &&& forall|s: u64|
                    s != salt ==> final(self).engine.commitments.salt_view(s) == old(
                        self,
                    ).engine.commitments.salt_view(s)
            },
    {
        if self.begin_commitment(salt) {
            proof {
                assert(self.statuses_map() =~= old(self).statuses_map().insert(
                    salt,
                    CommitmentStatus::Created,
                ));
            }
            return Ok(());
        }
        let ghost init_map = initial_tag_map(old(self).engine.commitments, salt);
        let ghost init_fin: bool = if old(self).engine.commitments.has_salt(salt) {
            old(self).engine.commitments.finished_of(salt)
        } else {
            false
        };
        let piece_count = self.engine.file.piece_count();
        if piece_count == 0 {
            // An empty plot has no batch to create the salt's directory,
            // so create it with an empty run of tags before finishing.
            let empty_tags: Vec<u64> = Vec::new();
            let ghost mid = *self;
            match self.engine.handle_write(
                WriteRequest::WriteTags { first: 0, tags: empty_tags, salt },
            ) {
                WriteResponse::TagsWritten(Ok(())) => (),
                _ => vstd::pervasive::unreached(),
            }
            proof {
                assert forall|s: u64|
                    #[trigger] self.engine.commitments.has_salt(s) implies self.statuses_map().contains_key(
                    s,
                ) by {
                    if s != salt {
                        crate::commitments::lemma_view_eq(
                            &self.engine.commitments,
                            &mid.engine.commitments,
                            s,
                        );
                        assert(mid.statuses_map().contains_key(s));
                    }
                }
            }
        }
        let ghost all_tags = piece_tags(old(self).engine.file, *tagger, salt);
        let mut batch_start: u64 = 0;
        while batch_start < piece_count
            invariant
                self.wf(),
                piece_count == self.spec_piece_count(),
                batch_start <= piece_count,
                self.engine.file == old(self).engine.file,
                self.last_root_block == old(self).last_root_block,
                self.statuses_map() == old(self).statuses_map().insert(
                    salt,
                    CommitmentStatus::InProgress,
                ),
                all_tags == piece_tags(self.engine.file, *tagger, salt),
                all_tags.len() == piece_count,
                init_map == initial_tag_map(old(self).engine.commitments, salt),
                init_fin == (if old(self).engine.commitments.has_salt(salt) {
                    old(self).engine.commitments.finished_of(salt)
                } else {
                    false
                }),
                batch_start == 0 && piece_count > 0 ==> self.engine.commitments == old(
                    self,
                ).engine.commitments,
                batch_start > 0 || piece_count == 0 ==> {
                    &&& self.engine.commitments.has_salt(salt)
                    &&& crate::tag_index::sorted_by_tag(self.engine.commitments.entries_of(salt))
                    &&& self.engine.commitments.tag_map_of(salt) == spec_put_many(
                        init_map,
                        all_tags.take(batch_start as int),
                        0,
                    )
                    &&& self.engine.commitments.finished_of(salt) == init_fin
                },
                forall|s: u64|
                    s != salt ==> self.engine.commitments.salt_view(s) == old(
                        self,
                    ).engine.commitments.salt_view(s),
            decreases piece_count - batch_start,
        {
            let ghost entry = *self;
            let next = match self.commitment_batch(salt, batch_start, tagger) {
                BatchOutcome::Written => batch_end_exec(batch_start, piece_count),
                BatchOutcome::AbortObserved => vstd::pervasive::unreached(),
            };
            proof {
                let e = batch_end(entry.engine.file, batch_start) as int;
                let t1 = all_tags.take(batch_start as int);
                let t2 = all_tags.subrange(batch_start as int, e);
                assert(initial_tag_map(entry.engine.commitments, salt) == spec_put_many(
                    init_map,
                    t1,
                    0,
                )) by {
                    if batch_start == 0 && piece_count > 0 {
                        assert(t1 =~= Seq::<u64>::empty());
                    }
                }
                crate::tag_index::lemma_put_many_concat(init_map, t1, t2, 0);
                assert(t1 + t2 =~= all_tags.take(e));
                assert((0 + t1.len()) as u64 == batch_start);
            }
            batch_start = next;
        }
        proof {
            assert(all_tags.take(piece_count as int) =~= all_tags);
        }
        match self.finalize_commitment(salt) {
            Ok(()) => {
                proof {
                    assert(self.statuses_map() =~= old(self).statuses_map().insert(
                        salt,
                        CommitmentStatus::Created,
                    ));
                }
                Ok(())
            },
            Err(_) => vstd::pervasive::unreached(),
        }
    }

    /// Removes the salt's commitment. A build still in progress (or one
    /// already marked) is only marked `Aborted` and returns at once: the
    /// driver observes the mark at its next batch boundary and cleans up.
    /// Otherwise the status entry and the on-disk index are removed.
    pub fn remove_commitment(&mut self, salt: u64) -> (r: Result<(), PlotError>)
        requires
            old(self).wf(),
        ensures
            final(self).wf(),
            r == Result::<(), PlotError>::Ok(()),
            final(self).engine.file == old(self).engine.file,
            final(self).last_root_block == old(self).last_root_block,
            (old(self).statuses_map().contains_key(salt) && (old(self).statuses_map()[salt]
                == CommitmentStatus::InProgress || old(self).statuses_map()[salt]
                == CommitmentStatus::Aborted)) ==> {
                &&& final(self).statuses_map() == old(self).statuses_map().insert(
                    salt,
                    CommitmentStatus::Aborted,
                )
                &&& final(self).engine.commitments == old(self).engine.commitments
            },
            !(old(self).statuses_map().contains_key(salt) && (old(self).statuses_map()[salt]
                == CommitmentStatus::InProgress || old(self).statuses_map()[salt]
                == CommitmentStatus::Aborted)) ==> {
                &&& final(self).statuses_map() == old(self).statuses_map().remove(salt)
                &&& !final(self).engine.commitments.has_salt(salt)
                &&& forall|s: u64|
                    s != salt ==> final(self).engine.commitments.salt_view(s) == old(
                        self,
                    ).engine.commitments.salt_view(s)
            },
    {
        let current = self.statuses.get(salt);
        match current {
            Some(CommitmentStatus::InProgress) | Some(CommitmentStatus::Aborted) => {
                self.statuses.set(salt, CommitmentStatus::Aborted);
                return Ok(());
            },
            _ => {},
        }
        self.statuses.remove(salt);
        match self.engine.handle_write(WriteRequest::RemoveCommitment { salt }) {
            WriteResponse::Removed => (),
            _ => vstd::pervasive::unreached(),
        }
        proof {
            assert forall|s: u64|
                #[trigger] self.engine.commitments.has_salt(s) implies self.statuses_map().contains_key(
                s,
            ) by {
                assert(s != salt);
                crate::commitments::lemma_view_eq(
                    &self.engine.commitments,
                    &old(self).engine.commitments,
                    s,
                );
                assert(old(self).statuses_map().contains_key(s));
            }
        }
        Ok(())
    }
}

} // verus!
