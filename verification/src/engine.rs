use vstd::prelude::*;

use crate::commitments::Commitments;
use crate::errors::PlotError;
use crate::piece_file::{zero_bytes, PieceFile};
use crate::tag_index::{spec_find, spec_put_many};

verus! {

/// Read requests served by the engine. Reads never change its state.
pub enum ReadRequest {
    ReadPiece { index: u64 },
    ReadPieces { first: u64, count: u64 },
    FindByRange { target: u64, range: u64, salt: u64 },
}

pub enum ReadResponse {
    Piece(Result<Vec<u8>, PlotError>),
    Pieces(Result<Vec<u8>, PlotError>),
    Solution(Result<Option<(u64, u64)>, PlotError>),
}

/// Write and admin requests. The engine serves at most one of these per
/// scheduling iteration.
pub enum WriteRequest {
    WritePieces { first: u64, pieces: Vec<Vec<u8>> },
    WriteTags { first: u64, tags: Vec<u64>, salt: u64 },
    FinishCommitment { salt: u64 },
    RemoveCommitment { salt: u64 },
}

pub enum WriteResponse {
    Written(Result<(), PlotError>),
    TagsWritten(Result<(), PlotError>),
    Finished(Result<(), PlotError>),
    Removed,
}

/// The background worker's exclusively owned state: the piece file and
/// the commitment directory. All mutation of either goes through it.
pub struct PlotEngine {
    pub file: PieceFile,
    pub commitments: Commitments,
}

/// What serving one read request returns, as a relation between the
/// engine state, the request and the response.
pub open spec fn read_step(e: PlotEngine, r: ReadRequest, resp: ReadResponse) -> bool {
    match r {
        ReadRequest::ReadPiece { index } => match resp {
            ReadResponse::Piece(p) => match p {
                Ok(bytes) => index < e.file.spec_piece_count() && bytes@ == e.file.spec_piece(
                    index as int,
                ),
                Err(er) => index >= e.file.spec_piece_count() && er == PlotError::Io,
            },
            _ => false,
        },
        ReadRequest::ReadPieces { first, count } => match resp {
            ReadResponse::Pieces(p) => match p {
                Ok(bytes) => first + count <= e.file.spec_piece_count() && bytes@ == e.file.bytes()
                    .subrange(
                    first * e.file.spec_piece_size() as int,
                    (first + count) * e.file.spec_piece_size() as int,
                ),
                Err(er) => first + count > e.file.spec_piece_count() && er == PlotError::Io,
            },
            _ => false,
        },
        ReadRequest::FindByRange { target, range, salt } => match resp {
            ReadResponse::Solution(p) => match p {
                Ok(sol) => sol == (if e.commitments.has_salt(salt) {
                    spec_find(e.commitments.entries_of(salt), target, range)
                } else {
                    Option::<(u64, u64)>::None
                }),
                Err(_) => false,
            },
            _ => false,
        },
    }
}

/// What serving one write request does, as a relation between the engine
/// state before, the request, the state after and the response.
pub open spec fn write_step(
    pre: PlotEngine,
    w: WriteRequest,
    post: PlotEngine,
    resp: WriteResponse,
) -> bool {
    match w {
        WriteRequest::WritePieces { first, pieces } => {
            let n = pieces@.len();
            let size = pre.file.spec_piece_size();
            if (forall|i: int| 0 <= i < n ==> (#[trigger] pieces@[i])@.len() == size) && (first + n)
                * size <= usize::MAX && first + n <= u64::MAX {
                &&& resp == WriteResponse::Written(Result::<(), PlotError>::Ok(()))
                &&& post.commitments == pre.commitments
                &&& post.file.spec_piece_size() == size
                &&& post.file.spec_piece_count() == vstd::math::max(
                    pre.file.spec_piece_count() as int,
                    first + n,
                )
                &&& forall|j: int|
                    0 <= j < post.file.spec_piece_count() ==> post.file.spec_piece(j) == (if first
                        <= j < first + n {
                        pieces@[j - first]@
                    } else if j < pre.file.spec_piece_count() {
                        pre.file.spec_piece(j)
                    } else {
                        zero_bytes(size)
                    })
            } else {
                post == pre && resp == WriteResponse::Written(
                    Result::<(), PlotError>::Err(PlotError::Io),
                )
            }
        },
        WriteRequest::WriteTags { first, tags, salt } => {
            if first + tags@.len() <= u64::MAX {
                &&& resp == WriteResponse::TagsWritten(Result::<(), PlotError>::Ok(()))
                &&& post.file == pre.file
                &&& post.commitments.has_salt(salt)
                &&& crate::tag_index::sorted_by_tag(post.commitments.entries_of(salt))
                &&& post.commitments.tag_map_of(salt) == spec_put_many(
                    (if pre.commitments.has_salt(salt) {
                        pre.commitments.tag_map_of(salt)
                    } else {
                        Map::<u64, u64>::empty()
                    }),
                    tags@,
                    first,
                )
                &&& post.commitments.finished_of(salt) == (if pre.commitments.has_salt(salt) {
                    pre.commitments.finished_of(salt)
                } else {
                    false
                })
                &&& forall|s: u64|
                    s != salt ==> post.commitments.salt_view(s) == pre.commitments.salt_view(s)
            } else {
                post == pre && resp == WriteResponse::TagsWritten(
                    Result::<(), PlotError>::Err(PlotError::Io),
                )
            }
        },
        WriteRequest::FinishCommitment { salt } => {
            if pre.commitments.has_salt(salt) {
                &&& resp == WriteResponse::Finished(Result::<(), PlotError>::Ok(()))
                &&& post.file == pre.file
                &&& post.commitments.salt_view(salt) == Some(
                    (pre.commitments.entries_of(salt), true),
                )
                &&& forall|s: u64|
                    s != salt ==> post.commitments.salt_view(s) == pre.commitments.salt_view(s)
            } else {
                post == pre && resp == WriteResponse::Finished(
                    Result::<(), PlotError>::Err(PlotError::Kv),
                )
            }
        },
        WriteRequest::RemoveCommitment { salt } => {
            &&& resp == WriteResponse::Removed
            &&& post.file == pre.file
            &&& !post.commitments.has_salt(salt)
            &&& forall|s: u64|
                s != salt ==> post.commitments.salt_view(s) == pre.commitments.salt_view(s)
        },
    }
}

impl PlotEngine {
    pub open spec fn wf(&self) -> bool {
        &&& self.file.wf()
        &&& self.commitments.wf()
    }

    pub fn new(file: PieceFile, commitments: Commitments) -> (r: PlotEngine)
        requires
            file.wf(),
            commitments.wf(),
        ensures
            r.wf(),
            r.file == file,
            r.commitments == commitments,
    {
        PlotEngine { file, commitments }
    }

    /// Serves one read request. Reads never change the engine's state.
    pub fn handle_read(&self, r: &ReadRequest) -> (resp: ReadResponse)
        requires
            self.wf(),
        ensures
            read_step(*self, *r, resp),
    {
        match r {
            ReadRequest::ReadPiece { index } => ReadResponse::Piece(self.file.read_piece(*index)),
            ReadRequest::ReadPieces { first, count } => ReadResponse::Pieces(
                self.file.read_pieces(*first, *count),
            ),
            ReadRequest::FindByRange { target, range, salt } => ReadResponse::Solution(
                Ok(self.commitments.find(*salt, *target, *range)),
            ),
        }
    }

    /// Serves one write or admin request.
    pub fn handle_write(&mut self, w: WriteRequest) -> (resp: WriteResponse)
        requires
            old(self).wf(),
        ensures
            final(self).wf(),
            write_step(*old(self), w, *final(self), resp),
    {
        match w {
            WriteRequest::WritePieces { first, pieces } => {
                if !pieces_fit(&self.file, first, &pieces) {
                    return WriteResponse::Written(Err(PlotError::Io));
                }
                WriteResponse::Written(self.file.write_pieces(first, &pieces))
            },
            WriteRequest::WriteTags { first, tags, salt } => {
                let n = tags.len() as u64;
                if first > u64::MAX - n {
                    return WriteResponse::TagsWritten(Err(PlotError::Io));
                }
                self.commitments.put_tags(salt, first, &tags);
                WriteResponse::TagsWritten(Ok(()))
            },
            WriteRequest::FinishCommitment { salt } => {
                if self.commitments.finish(salt) {
                    WriteResponse::Finished(Ok(()))
                } else {
                    WriteResponse::Finished(Err(PlotError::Kv))
                }
            },
            WriteRequest::RemoveCommitment { salt } => {
                self.commitments.remove(salt);
                WriteResponse::Removed
            },
        }
    }

    /// One iteration of the scheduling loop: drain the read queue fully,
    /// then serve at most one write. This is the read-priority discipline:
    /// queued reads are never blocked behind more than one write, and a
    /// pending write is served once per iteration no matter how many reads
    /// came in.
    pub fn run_iteration(
        &mut self,
        reads: &mut Vec<ReadRequest>,
        writes: &mut Vec<WriteRequest>,
    ) -> (r: (Vec<ReadResponse>, Option<WriteResponse>))
        requires
            old(self).wf(),
        ensures
            final(self).wf(),
            final(reads)@.len() == 0,
            r.0@.len() == old(reads)@.len(),
            forall|i: int|
                0 <= i < old(reads)@.len() ==> read_step(
                    *old(self),
                    old(reads)@[i],
                    #[trigger] r.0@[i],
                ),
            old(writes)@.len() == 0 ==> *final(self) == *old(self) && r.1 is None
                && final(writes)@ == old(writes)@,
            old(writes)@.len() > 0 ==> (match r.1 {
                Some(wresp) => write_step(*old(self), old(writes)@[0], *final(self), wresp),
                None => false,
            }) && final(writes)@ == old(writes)@.drop_first(),
    {
        let mut responses: Vec<ReadResponse> = Vec::new();
        let mut i: usize = 0;
        while i < reads.len()
            invariant
                self == old(self),
                reads@ == old(reads)@,
                self.wf(),
                i <= reads@.len(),
                responses@.len() == i,
                forall|j: int|
                    0 <= j < i ==> read_step(*old(self), reads@[j], #[trigger] responses@[j]),
            decreases reads@.len() - i,
        {
            let resp = self.handle_read(&reads[i]);
            responses.push(resp);
            i += 1;
        }
        reads.clear();
        let write_response = if writes.len() > 0 {
            let w = writes.remove(0);
            Some(self.handle_write(w))
        } else {
            None
        };
        (responses, write_response)
    }
}

/// Whether a batch of pieces may be written at `first`: every piece is
/// exactly one record long and the end of the write fits the machine.
fn pieces_fit(file: &PieceFile, first: u64, pieces: &Vec<Vec<u8>>) -> (r: bool)
    requires
        file.wf(),
    ensures
        r == ((forall|i: int|
            0 <= i < pieces@.len() ==> (#[trigger] pieces@[i])@.len() == file.spec_piece_size())
            && (first + pieces@.len()) * file.spec_piece_size() <= usize::MAX && first
            + pieces@.len() <= u64::MAX),
{
    let n = pieces.len() as u64;
    if first > u64::MAX - n {
        return false;
    }
    if n > usize::MAX as u64 / file.piece_size as u64 || first > usize::MAX as u64
        / file.piece_size as u64 - n {
        proof {
            let s = file.piece_size as int;
            let q = usize::MAX as int / s;
            vstd::arithmetic::div_mod::lemma_fundamental_div_mod(usize::MAX as int, s);
            vstd::arithmetic::div_mod::lemma_mod_bound(usize::MAX as int, s);
            vstd::arithmetic::mul::lemma_mul_inequality(q + 1, first + pieces@.len(), s);
            vstd::arithmetic::mul::lemma_mul_is_distributive_add_other_way(s, q, 1);
            assert((q + 1) * s > usize::MAX);
        }
        return false;
    }
    proof {
        let s = file.piece_size as int;
        let q = usize::MAX as int / s;
        vstd::arithmetic::div_mod::lemma_fundamental_div_mod(usize::MAX as int, s);
        vstd::arithmetic::div_mod::lemma_mod_bound(usize::MAX as int, s);
        vstd::arithmetic::mul::lemma_mul_inequality(first + pieces@.len(), q, s);
        assert(q * s <= usize::MAX);
    }
    let mut i: usize = 0;
    while i < pieces.len()
        invariant
            i <= pieces@.len(),
            forall|j: int|
                0 <= j < i ==> (#[trigger] pieces@[j])@.len() == file.spec_piece_size(),
        decreases pieces@.len() - i,
    {
        if pieces[i].len() != file.piece_size {
            return false;
        }
        i += 1;
    }
    true
}

/// How many writes are still queued after `k` scheduling iterations that
/// each serve one queued write, however many reads each iteration also
/// drains: the counting core of the read-priority guarantee.
pub open spec fn writes_left(w: nat, k: nat) -> nat
    decreases k,
{
    if k == 0 {
        w
    } else if w == 0 {
        0
    } else {
        writes_left((w - 1) as nat, (k - 1) as nat)
    }
}

/// Read-priority progress: a writer is never starved. Whatever read load
/// each iteration absorbs, `k` iterations serve `min(k, w)` of `w` queued
/// writes, because `run_iteration` serves exactly one write whenever one
/// is queued.
pub proof fn lemma_read_priority_progress(w: nat, k: nat)
    ensures
        writes_left(w, k) == if k <= w {
            (w - k) as nat
        } else {
            0
        },
    decreases k,
{
    if k > 0 && w > 0 {
        lemma_read_priority_progress((w - 1) as nat, (k - 1) as nat);
    }
}

} // verus!
