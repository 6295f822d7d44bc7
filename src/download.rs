use vstd::prelude::*;
use crate::digest::{hash_bytes, sha1_digest};
use crate::metainfo::{
    lemma_piece_lengths_sum, piece_count, piece_len, sum_piece_lengths, TorrentFile,
};
use crate::wire::{Block, PeerError};

verus! {

/// The largest block that one request asks for.
pub const BLOCK_SIZE: u32 = 16384;

/// The length of the next block of a piece of `length` bytes of which `offset` have
/// arrived.
pub open spec fn block_len(length: nat, offset: nat) -> nat {
    if length - offset < 16384 {
        (length - offset) as nat
    } else {
        16384
    }
}

/// The download of one piece, block after block, one request at a time.
#[derive(Debug)]
pub struct PieceDownload {
    pub index: u32,
    pub length: u32,
    pub data: Vec<u8>,
}

impl PieceDownload {
    /// What has arrived so far never exceeds the piece.
    pub open spec fn wf(&self) -> bool {
        self.data@.len() <= self.length
    }

    pub fn new(index: u32, length: u32) -> (r: PieceDownload)
        ensures
            r.wf(),
            r.index == index,
            r.length == length,
            r.data@.len() == 0,
    {
        PieceDownload { index, length, data: Vec::new() }
    }

    /// The next request to send, as `(begin, block length)`: the block that starts
    /// where the data so far ends, of `min(16 KiB, what remains)` bytes; `None` once
    /// the piece is complete.
    pub fn next_request(&self) -> (r: Option<(u32, u32)>)
        requires
            self.wf(),
        ensures
            self.data@.len() == self.length ==> r is None,
            self.data@.len() < self.length ==> r == Some(
                (self.data@.len() as u32, block_len(self.length as nat, self.data@.len()) as u32),
            ),
    {
        let offset = self.data.len() as u32;
        if offset >= self.length {
            return None;
        }
        let remaining = self.length - offset;
        if remaining < BLOCK_SIZE {
            Some((offset, remaining))
        } else {
            Some((offset, BLOCK_SIZE))
        }
    }

    /// Takes in the block that answers the request last sent. It must belong to this
    /// piece, start where the data so far ends and have the requested length; then it
    /// is appended. Anything else is a protocol violation and changes nothing.
    pub fn on_block(&mut self, block: Block) -> (r: Result<(), PeerError>)
        requires
            old(self).wf(),
        ensures
            final(self).wf(),
            final(self).index == old(self).index,
            final(self).length == old(self).length,
            ({
                let o = old(self).data@.len();
                let ok = block.index == old(self).index && block.begin == o && o < old(self).length
                    && block.data@.len() == block_len(old(self).length as nat, o);
                &&& ok ==> r is Ok && final(self).data@ == old(self).data@ + block.data@
                &&& !ok ==> r == Err::<(), PeerError>(PeerError::UnexpectedMessage)
                    && final(self).data@ == old(self).data@
            }),
    {
        let offset = self.data.len();
        if block.index != self.index || offset >= self.length as usize || block.begin as usize
            != offset {
            return Err(PeerError::UnexpectedMessage);
        }
        let remaining = self.length as usize - offset;
        let expected = if remaining < 16384 {
            remaining
        } else {
            16384
        };
        if block.data.len() != expected {
            return Err(PeerError::UnexpectedMessage);
        }
        let mut i: usize = 0;
        let ghost start = self.data@;
        while i < block.data.len()
            invariant
                i <= block.data@.len(),
                start.len() + block.data@.len() <= self.length,
                self.data@ == start + block.data@.take(i as int),
                self.index == old(self).index,
                self.length == old(self).length,
                start == old(self).data@,
            decreases block.data@.len() - i,
        {
            self.data.push(block.data[i]);
            i = i + 1;
            proof {
                assert(block.data@.take(i as int) =~= block.data@.take(i - 1).push(block.data@[i - 1]));
            }
        }
        proof {
            assert(block.data@.take(i as int) =~= block.data@);
        }
        Ok(())
    }

    pub fn is_complete(&self) -> (r: bool)
        ensures
            r == (self.data@.len() == self.length),
    {
        self.data.len() == self.length as usize
    }
}

/// A unit of work: download one piece.
#[derive(Clone, Copy, Debug, PartialEq, Eq, Structural)]
pub enum PeerRequest {
    DownloadPiece { piece_index: u32, piece_length: u32 },
}

/// What a worker brings back: a piece's data.
#[derive(Debug, PartialEq, Eq)]
pub struct PeerResponse {
    pub data: Vec<u8>,
    pub piece: u32,
}

/// Where a piece stands in a download.
#[derive(Clone, Copy, Debug, PartialEq, Eq, Structural)]
pub enum PieceStatus {
    Queued,
    InFlight(u64),
    Done,
}

/// The result of a download as the coordinator sees it.
#[derive(Clone, Copy, Debug, PartialEq, Eq, Structural)]
pub enum DownloadOutcome {
    Complete,
    InProgress,
    InsufficientPeers,
}

/// The bytes of pieces `0..k`, in order.
pub open spec fn concat_pieces(results: Seq<Vec<u8>>, k: int) -> Seq<u8>
    decreases k,
{
    if k <= 0 {
        Seq::empty()
    } else {
        concat_pieces(results, k - 1) + results[k - 1]@
    }
}

/// The expected hash of piece `i` within the concatenated hashes.
pub open spec fn expected_hash(hashes: Seq<u8>, i: int) -> Seq<u8> {
    hashes.subrange(20 * i, 20 * i + 20)
}

/// Hands pieces out to workers and collects what they bring back. Each piece is
/// queued, in flight on exactly one worker, or done; a queued piece goes to the next
/// worker that asks, lowest index first.
pub struct Coordinator {
    pub length: u32,
    pub piece_length: u32,
    pub hashes: Vec<u8>,
    pub status: Vec<PieceStatus>,
    pub results: Vec<Vec<u8>>,
}

impl Coordinator {
    pub open spec fn count(&self) -> nat {
        self.status@.len()
    }

    pub open spec fn wf(&self) -> bool {
        &&& self.piece_length > 0 || self.length == 0
        &&& self.status@.len() == piece_count(self.length as nat, self.piece_length as nat)
        &&& self.results@.len() == self.status@.len()
        &&& self.hashes@.len() == 20 * self.status@.len()
        &&& forall|i: int|
            0 <= i < self.status@.len() && #[trigger] self.status@[i] == PieceStatus::Done ==> {
                &&& self.results@[i]@.len() == piece_len(
                    self.length as nat,
                    self.piece_length as nat,
                    i as nat,
                )
                &&& sha1_digest(self.results@[i]@) == expected_hash(self.hashes@, i)
            }
    }

    pub open spec fn all_done(&self) -> bool {
        forall|i: int| 0 <= i < self.status@.len() ==> #[trigger] self.status@[i] == PieceStatus::Done
    }

    /// A download of every piece of `torrent`, all queued.
    pub fn new(torrent: &TorrentFile) -> (r: Coordinator)
        requires
            torrent.info.wf(),
        ensures
            r.wf(),
            r.length == torrent.info.length,
            r.piece_length == torrent.info.piece_length,
            r.hashes@ == torrent.info.pieces@,
            r.count() == torrent.info.count(),
            forall|i: int| 0 <= i < r.count() ==> #[trigger] r.status@[i] == PieceStatus::Queued,
    {
        let n = torrent.piece_and_length().len();
        let mut status: Vec<PieceStatus> = Vec::new();
        let mut results: Vec<Vec<u8>> = Vec::new();
        let mut i: usize = 0;
        while i < n
            invariant
                i <= n,
                status@.len() == i,
                results@.len() == i,
                forall|j: int| 0 <= j < i ==> #[trigger] status@[j] == PieceStatus::Queued,
            decreases n - i,
        {
            status.push(PieceStatus::Queued);
            results.push(Vec::new());
            i = i + 1;
        }
        Coordinator {
            length: torrent.info.length,
            piece_length: torrent.info.piece_length,
            hashes: vstd::slice::slice_to_vec(torrent.info.pieces.as_slice()),
            status,
            results,
        }
    }

    /// Gives the lowest queued piece to `worker`; `None` when no piece is queued.
    pub fn next_piece(&mut self, worker: u64) -> (r: Option<PeerRequest>)
        requires
            old(self).wf(),
        ensures
            final(self).wf(),
            final(self).length == old(self).length,
            final(self).piece_length == old(self).piece_length,
            final(self).hashes == old(self).hashes,
            final(self).results == old(self).results,
            r is None <==> forall|j: int|
                0 <= j < old(self).status@.len() ==> #[trigger] old(self).status@[j]
                    != PieceStatus::Queued,
            r is None ==> final(self).status == old(self).status,
            r matches Some(PeerRequest::DownloadPiece { piece_index: i, piece_length: l }) ==> {
                &&& i < old(self).status@.len()
                &&& old(self).status@[i as int] == PieceStatus::Queued
                &&& forall|j: int| 0 <= j < i ==> #[trigger] old(self).status@[j] != PieceStatus::Queued
                &&& final(self).status@ == old(self).status@.update(i as int, PieceStatus::InFlight(worker))
                &&& l == piece_len(old(self).length as nat, old(self).piece_length as nat, i as nat)
            },
    {
        let n = self.status.len();
        let mut i: usize = 0;
        while i < n
            invariant
                i <= n,
                n == self.status@.len(),
                *self == *old(self),
                self.wf(),
                forall|j: int| 0 <= j < i ==> #[trigger] self.status@[j] != PieceStatus::Queued,
            decreases n - i,
        {
            if self.status[i] == PieceStatus::Queued {
                let l = self.piece_len_at(i);
                self.status.set(i, PieceStatus::InFlight(worker));
                proof {
                    assert(self.status@ == old(self).status@.update(i as int, PieceStatus::InFlight(worker)));
                    assert forall|j: int| 0 <= j < self.status@.len() && #[trigger] self.status@[j] == PieceStatus::Done implies {
                        &&& self.results@[j]@.len() == piece_len(self.length as nat, self.piece_length as nat, j as nat)
                        &&& sha1_digest(self.results@[j]@) == expected_hash(self.hashes@, j)
                    } by {
                        if j != i {
                            assert(old(self).status@[j] == PieceStatus::Done);
                        }
                    }
                }
                return Some(PeerRequest::DownloadPiece { piece_index: i as u32, piece_length: l });
            }
            i = i + 1;
        }
        None
    }

    fn piece_len_at(&self, i: usize) -> (r: u32)
        requires
            self.wf(),
            i < self.status@.len(),
        ensures
            r == piece_len(self.length as nat, self.piece_length as nat, i as nat),
            i < u32::MAX,
    {
        let total: u64 = self.length as u64;
        let standard: u64 = self.piece_length as u64;
        proof {
            crate::metainfo::lemma_piece_index(total as nat, standard as nat, i as nat);
            assert((i as nat + 1) * standard == i as nat * standard + standard) by (nonlinear_arith);
            assert(i < u32::MAX) by (nonlinear_arith)
                requires
                    standard > 0,
                    i as nat * standard < total,
                    total <= u32::MAX,
            ;
            assert(i as nat * standard < total);
        }
        let start: u64 = i as u64 * standard;
        if total - start < standard {
            (total - start) as u32
        } else {
            standard as u32
        }
    }

    /// Takes in the data a worker brought for the piece it was given. The piece is
    /// done when the data has the piece's length and its SHA-1 digest is the expected
    /// hash; otherwise it is queued again and the worker's peer is at fault.
    pub fn piece_done(&mut self, worker: u64, response: PeerResponse) -> (r: Result<(), PeerError>)
        requires
            old(self).wf(),
            response.piece < old(self).status@.len(),
            old(self).status@[response.piece as int] == PieceStatus::InFlight(worker),
        ensures
            final(self).wf(),
            final(self).length == old(self).length,
            final(self).piece_length == old(self).piece_length,
            final(self).hashes == old(self).hashes,
            ({
                let index = response.piece;
                let data = response.data;
                let ok = data@.len() == piece_len(old(self).length as nat, old(self).piece_length as nat, index as nat)
                    && sha1_digest(data@) == expected_hash(old(self).hashes@, index as int);
                &&& ok ==> r is Ok && final(self).status@ == old(self).status@.update(index as int, PieceStatus::Done)
                    && final(self).results@ == old(self).results@.update(index as int, data)
                &&& !ok ==> r == Err::<(), PeerError>(PeerError::PieceHashMismatch)
                    && final(self).status@ == old(self).status@.update(index as int, PieceStatus::Queued)
                    && final(self).results == old(self).results
            }),
    {
        let index = response.piece;
        let data = response.data;
        let expected_len = self.piece_len_at(index as usize);
        let digest = hash_bytes(data.as_slice());
        let mut same = data.len() == expected_len as usize;
        let hashes_len = self.hashes.len();
        let start: usize = 20 * index as usize;
        let mut k: usize = 0;
        while k < 20 && same
            invariant
                k <= 20,
                hashes_len == self.hashes@.len(),
                start == 20 * index,
                start + 20 <= self.hashes@.len(),
                digest@.len() == 20,
                same ==> data@.len() == expected_len,
                same ==> digest@.take(k as int) == self.hashes@.subrange(start as int, start + k),
                !same ==> !(data@.len() == expected_len && digest@ == expected_hash(self.hashes@, index as int)),
            decreases 20 - k + if same { 1int } else { 0int },
        {
            if digest[k] != self.hashes[start + k] {
                proof {
                    assert(digest@[k as int] != expected_hash(self.hashes@, index as int)[k as int]);
                }
                same = false;
            } else {
                proof {
                    assert(digest@.take(k + 1) =~= digest@.take(k as int).push(digest@[k as int]));
                    assert(self.hashes@.subrange(start as int, start + k + 1) =~= self.hashes@.subrange(start as int, start + k).push(self.hashes@[start + k]));
                }
                k = k + 1;
            }
        }
        if same {
            proof {
                assert(digest@.take(20) =~= digest@);
            }
            self.status.set(index as usize, PieceStatus::Done);
            self.results.set(index as usize, data);
            Ok(())
        } else {
            self.status.set(index as usize, PieceStatus::Queued);
            Err(PeerError::PieceHashMismatch)
        }
    }

    /// Queues again every piece that is in flight on `worker`, which has gone.
    pub fn release_worker(&mut self, worker: u64)
        requires
            old(self).wf(),
        ensures
            final(self).wf(),
            final(self).length == old(self).length,
            final(self).piece_length == old(self).piece_length,
            final(self).hashes == old(self).hashes,
            final(self).results == old(self).results,
            final(self).status@.len() == old(self).status@.len(),
            forall|j: int|
                0 <= j < old(self).status@.len() ==> #[trigger] final(self).status@[j] == if old(
                    self,
                ).status@[j] == PieceStatus::InFlight(worker) {
                    PieceStatus::Queued
                } else {
                    old(self).status@[j]
                },
    {
        let n = self.status.len();
        let mut i: usize = 0;
        while i < n
            invariant
                i <= n,
                n == self.status@.len(),
                n == old(self).status@.len(),
                self.wf(),
                self.length == old(self).length,
                self.piece_length == old(self).piece_length,
                self.hashes == old(self).hashes,
                self.results == old(self).results,
                forall|j: int|
                    0 <= j < i ==> #[trigger] self.status@[j] == if old(self).status@[j]
                        == PieceStatus::InFlight(worker) {
                        PieceStatus::Queued
                    } else {
                        old(self).status@[j]
                    },
                forall|j: int| i <= j < n ==> #[trigger] self.status@[j] == old(self).status@[j],
            decreases n - i,
        {
            if self.status[i] == PieceStatus::InFlight(worker) {
                self.status.set(i, PieceStatus::Queued);
            }
            i = i + 1;
        }
    }

    /// Whether every piece is done.
    pub fn is_complete(&self) -> (r: bool)
        ensures
            r == self.all_done(),
    {
        let mut i: usize = 0;
        while i < self.status.len()
            invariant
                i <= self.status@.len(),
                forall|j: int| 0 <= j < i ==> #[trigger] self.status@[j] == PieceStatus::Done,
            decreases self.status@.len() - i,
        {
            if self.status[i] != PieceStatus::Done {
                return false;
            }
            i = i + 1;
        }
        true
    }

    /// Complete when every piece is done; otherwise the download can go on only while
    /// some worker is left.
    pub fn outcome(&self, live_workers: usize) -> (r: DownloadOutcome)
        ensures
            self.all_done() ==> r == DownloadOutcome::Complete,
            !self.all_done() && live_workers > 0 ==> r == DownloadOutcome::InProgress,
            !self.all_done() && live_workers == 0 ==> r == DownloadOutcome::InsufficientPeers,
    {
        if self.is_complete() {
            DownloadOutcome::Complete
        } else if live_workers > 0 {
            DownloadOutcome::InProgress
        } else {
            DownloadOutcome::InsufficientPeers
        }
    }

    /// The file: the pieces in index order.
    pub fn assemble(&self) -> (r: Vec<u8>)
        requires
            self.wf(),
            self.all_done(),
        ensures
            r@ == concat_pieces(self.results@, self.results@.len() as int),
            r@.len() == self.length,
    {
        let n = self.results.len();
        let mut out: Vec<u8> = Vec::new();
        let mut i: usize = 0;
        while i < n
            invariant
                i <= n,
                n == self.results@.len(),
                self.wf(),
                self.all_done(),
                out@ == concat_pieces(self.results@, i as int),
                out@.len() == sum_piece_lengths(self.length as nat, self.piece_length as nat, i as nat),
            decreases n - i,
        {
            let piece = &self.results[i];
            let mut k: usize = 0;
            let ghost before = out@;
            assert(self.status@[i as int] == PieceStatus::Done);
            while k < piece.len()
                invariant
                    k <= piece@.len(),
                    out@ == before + piece@.take(k as int),
                decreases piece@.len() - k,
            {
                out.push(piece[k]);
                k = k + 1;
                proof {
                    assert(piece@.take(k as int) =~= piece@.take(k - 1).push(piece@[k - 1]));
                }
            }
            proof {
                assert(piece@.take(k as int) =~= piece@);
            }
            i = i + 1;
        }
        proof {
            lemma_piece_lengths_sum(self.length as nat, self.piece_length as nat);
        }
        out
    }
}

/// The pieces waiting in the queue.
pub open spec fn queued_set(s: Seq<PieceStatus>) -> Set<int> {
    Set::new(|i: int| 0 <= i < s.len() && s[i] == PieceStatus::Queued)
}

/// The pieces in flight, each on the worker its status names.
pub open spec fn in_flight_set(s: Seq<PieceStatus>) -> Set<int> {
    Set::new(|i: int| 0 <= i < s.len() && s[i] is InFlight)
}

/// The pieces whose verified data is among the results.
pub open spec fn done_set(s: Seq<PieceStatus>) -> Set<int> {
    Set::new(|i: int| 0 <= i < s.len() && s[i] == PieceStatus::Done)
}

/// The queue, the pieces in flight and the results partition the piece indices
/// `0..count` at all times; a piece in flight is on the one worker its status names.
pub proof fn lemma_work_partition(c: Coordinator)
    requires
        c.wf(),
    ensures
        queued_set(c.status@) + in_flight_set(c.status@) + done_set(c.status@) == Set::new(
            |i: int| 0 <= i < c.count(),
        ),
        queued_set(c.status@).disjoint(in_flight_set(c.status@)),
        queued_set(c.status@).disjoint(done_set(c.status@)),
        in_flight_set(c.status@).disjoint(done_set(c.status@)),
{
    let s = c.status@;
    assert(queued_set(s) + in_flight_set(s) + done_set(s) =~= Set::new(|i: int| 0 <= i < c.count()));
}

/// Every piece of a finished download has the expected SHA-1 hash.
pub proof fn lemma_done_pieces_verified(c: Coordinator, i: int)
    requires
        c.wf(),
        c.all_done(),
        0 <= i < c.count(),
    ensures
        sha1_digest(c.results@[i]@) == expected_hash(c.hashes@, i),
        c.results@[i]@.len() == piece_len(c.length as nat, c.piece_length as nat, i as nat),
{
    assert(c.status@[i] == PieceStatus::Done);
}

/// How many pieces are done.
pub open spec fn done_count(s: Seq<PieceStatus>) -> nat
    decreases s.len(),
{
    if s.len() == 0 {
        0
    } else {
        done_count(s.drop_last()) + if s.last() == PieceStatus::Done {
            1nat
        } else {
            0nat
        }
    }
}

proof fn lemma_done_count_bound(s: Seq<PieceStatus>)
    ensures
        done_count(s) <= s.len(),
        done_count(s) == s.len() <==> forall|i: int| 0 <= i < s.len() ==> #[trigger] s[i] == PieceStatus::Done,
        (forall|i: int| 0 <= i < s.len() ==> #[trigger] s[i] != PieceStatus::Done) ==> done_count(s) == 0,
    decreases s.len(),
{
    if s.len() > 0 {
        lemma_done_count_bound(s.drop_last());
        assert forall|i: int| 0 <= i < s.len() - 1 implies #[trigger] s.drop_last()[i] == s[i] by {}
        if forall|i: int| 0 <= i < s.len() ==> #[trigger] s[i] == PieceStatus::Done {
            assert(s[s.len() - 1] == PieceStatus::Done);
        }
        if done_count(s) == s.len() {
            assert forall|i: int| 0 <= i < s.len() implies #[trigger] s[i] == PieceStatus::Done by {
                if i < s.len() - 1 {
                    assert(s.drop_last()[i] == PieceStatus::Done);
                }
            }
        }
        if forall|i: int| 0 <= i < s.len() ==> #[trigger] s[i] != PieceStatus::Done {
            assert(s[s.len() - 1] != PieceStatus::Done);
        }
    }
}

proof fn lemma_done_count_update(s: Seq<PieceStatus>, k: int, x: PieceStatus)
    requires
        0 <= k < s.len(),
    ensures
        done_count(s.update(k, x)) + (if s[k] == PieceStatus::Done { 1int } else { 0int }) == done_count(s)
            + (if x == PieceStatus::Done { 1int } else { 0int }),
    decreases s.len(),
{
    let t = s.update(k, x);
    if k < s.len() - 1 {
        assert(t.drop_last() =~= s.drop_last().update(k, x));
        lemma_done_count_update(s.drop_last(), k, x);
    } else {
        assert(t.drop_last() =~= s.drop_last());
    }
}

/// A download starts with no piece done; each result the coordinator accepts marks one
/// more piece done and leaves the others as they were, and any other change of a piece
/// undoes nothing that was done. So the download is complete exactly when the number of
/// accepted results reaches the number of pieces.
pub proof fn lemma_progress(s: Seq<PieceStatus>, k: int, x: PieceStatus)
    requires
        0 <= k < s.len(),
        s[k] != PieceStatus::Done,
    ensures
        (forall|i: int| 0 <= i < s.len() ==> #[trigger] s[i] == PieceStatus::Queued) ==> done_count(s) == 0,
        x == PieceStatus::Done ==> done_count(s.update(k, x)) == done_count(s) + 1,
        x != PieceStatus::Done ==> done_count(s.update(k, x)) == done_count(s),
        done_count(s.update(k, x)) == s.len() <==> forall|i: int|
            0 <= i < s.len() ==> #[trigger] s.update(k, x)[i] == PieceStatus::Done,
{
    lemma_done_count_update(s, k, x);
    lemma_done_count_bound(s);
    lemma_done_count_bound(s.update(k, x));
    if forall|i: int| 0 <= i < s.len() ==> #[trigger] s[i] == PieceStatus::Queued {
        assert forall|i: int| 0 <= i < s.len() implies #[trigger] s[i] != PieceStatus::Done by {
            assert(s[i] == PieceStatus::Queued);
        }
    }
}

} // verus!
