//! The piece manager: the single source of truth for which pieces and blocks
//! are owned, in flight, or missing. It hands out block requests so that no
//! block is ever requested from two peers at once, verifies finished pieces
//! against their SHA-1 digest, and counts a piece's bytes exactly once.
use vstd::prelude::*;

verus! {

use crate::bencode::bytes_eq;
use crate::bittorrent::{sha1_of, sha1_digest};

/// Transfer size of one block on the wire.
pub const BLOCK_LENGTH: u64 = 16384;

/// One block of one piece: not yet asked for, asked from exactly one peer,
/// or received with its payload.
#[derive(Debug)]
pub enum BlockSlot {
    Pending,
    Requested(u64),
    Done(Vec<u8>),
}

/// The lifecycle of a piece.
#[derive(Debug)]
pub enum PieceState {
    Missing,
    InFlight,
    Verifying,
    Complete,
}

/// Length of piece `i` out of `n` pieces: every piece is `pl` long but the
/// last, which takes the remainder of `total`.
pub open spec fn spec_piece_len(i: int, n: int, pl: int, total: int) -> int {
    if i + 1 < n {
        pl
    } else {
        total - (n - 1) * pl
    }
}

/// Blocks in a piece of length `len`.
pub open spec fn spec_block_count(len: int) -> int {
    (len - 1) / (BLOCK_LENGTH as int) + 1
}

/// Bytes of the complete pieces among the first `k`.
pub open spec fn dsum(c: Seq<bool>, k: int, n: int, pl: int, total: int) -> int
    decreases k,
{
    if k <= 0 {
        0
    } else {
        dsum(c, k - 1, n, pl, total) + if 0 <= k - 1 < c.len() && c[k - 1] {
            spec_piece_len(k - 1, n, pl, total)
        } else {
            0
        }
    }
}

/// Bytes of the first `k` pieces.
pub open spec fn tsum(k: int, n: int, pl: int, total: int) -> int
    decreases k,
{
    if k <= 0 {
        0
    } else {
        tsum(k - 1, n, pl, total) + spec_piece_len(k - 1, n, pl, total)
    }
}

pub struct PieceManager {
    piece_hashes: Vec<Vec<u8>>,
    piece_length: u64,
    total_length: u64,
    blocks: Vec<Vec<BlockSlot>>,
    complete: Vec<bool>,
    bytes_downloaded: u64,
    bytes_uploaded: u64,
}

/// What `deliver_block` did with a block.
#[derive(Debug)]
pub enum BlockDelivery {
    /// The block was not outstanding for this peer; nothing changed.
    Rejected,
    /// Recorded; the piece still misses blocks.
    Stored,
    /// The last block arrived and the piece verified: its assembled bytes are
    /// handed out for persisting, and count toward the progress exactly once.
    Complete(Vec<u8>),
    /// The last block arrived but the digest did not match: every block of
    /// the piece was discarded and must be fetched again.
    Corrupt,
}

impl PieceManager {
    pub closed spec fn n(&self) -> int {
        self.piece_hashes@.len() as int
    }

    pub closed spec fn spec_len_of(&self, i: int) -> int {
        spec_piece_len(i, self.n(), self.piece_length as int, self.total_length as int)
    }

    /// Structural well-formedness: consistent sizes, positive piece lengths,
    /// and the progress counter equal to the bytes of the complete pieces.
    pub closed spec fn wf(&self) -> bool {
        &&& self.blocks@.len() == self.n()
        &&& self.complete@.len() == self.n()
        &&& (self.n() > 0 ==> 0 < self.piece_length <= u32::MAX && (self.n() - 1)
            * (self.piece_length as int) < self.total_length <= self.n() * (
        self.piece_length as int))
        &&& (self.n() == 0 ==> self.total_length == 0)
        &&& (forall|i: int| 0 <= i < self.n() ==> (#[trigger] self.piece_hashes@[i])@.len() == 20)
        &&& (forall|i: int|
            0 <= i < self.n() ==> (#[trigger] self.blocks@[i])@.len() == spec_block_count(
                self.spec_len_of(i),
            ))
        &&& self.bytes_downloaded == dsum(
            self.complete@,
            self.n(),
            self.n(),
            self.piece_length as int,
            self.total_length as int,
        )
    }

    pub closed spec fn spec_complete(&self, i: int) -> bool {
        self.complete@[i]
    }

    pub closed spec fn spec_block(&self, i: int, b: int) -> BlockSlot {
        self.blocks@[i]@[b]
    }

    /// Blocks in piece `i`.
    pub closed spec fn spec_block_len(&self, i: int) -> int {
        self.blocks@[i]@.len() as int
    }

    pub closed spec fn spec_bytes_downloaded(&self) -> u64 {
        self.bytes_downloaded
    }

    pub closed spec fn spec_total_length(&self) -> u64 {
        self.total_length
    }

    pub closed spec fn spec_bytes_uploaded(&self) -> u64 {
        self.bytes_uploaded
    }

    /// Bytes of the verified pieces among the first `k`, by piece length:
    /// the public form of the manager's progress accounting.
    pub open spec fn spec_complete_bytes(&self, k: int) -> int
        decreases k,
    {
        if k <= 0 {
            0
        } else {
            self.spec_complete_bytes(k - 1) + if 0 <= k - 1 < self.n() && self.spec_complete(
                k - 1,
            ) {
                self.spec_len_of(k - 1)
            } else {
                0
            }
        }
    }

    /// All pieces are complete.
    pub open spec fn all_complete(&self) -> bool {
        forall|i: int| 0 <= i < self.n() ==> self.spec_complete(i)
    }

    /// The download is finished exactly when every byte has arrived.
    pub fn finished(&self) -> (r: bool)
        ensures
            r == (self.spec_bytes_downloaded() == self.spec_total_length()),
    {
        self.bytes_downloaded == self.total_length
    }
}

proof fn lemma_piece_len_pos(i: int, n: int, pl: int, total: int)
    requires
        0 <= i < n,
        0 < pl,
        (n - 1) * pl < total <= n * pl,
    ensures
        0 < spec_piece_len(i, n, pl, total) <= pl,
{
    if i + 1 < n {
    } else {
        assert(i == n - 1);
        assert(total - (n - 1) * pl <= pl) by (nonlinear_arith)
            requires
                total <= n * pl,
        ;
    }
}

proof fn lemma_tsum_total(k: int, n: int, pl: int, total: int)
    requires
        0 <= k <= n,
        1 <= n,
        0 < pl,
        (n - 1) * pl < total <= n * pl,
    ensures
        k < n ==> tsum(k, n, pl, total) == k * pl,
        k == n ==> tsum(k, n, pl, total) == total,
    decreases k,
{
    if k > 0 {
        lemma_tsum_total(k - 1, n, pl, total);
        if k < n {
            assert((k - 1) * pl + pl == k * pl) by (nonlinear_arith);
        } else {
            assert(tsum(k - 1, n, pl, total) == (n - 1) * pl);
        }
    }
}

proof fn lemma_dsum_le(c: Seq<bool>, k: int, n: int, pl: int, total: int)
    requires
        0 <= k <= n,
        c.len() == n,
        0 < pl,
        (n - 1) * pl < total <= n * pl,
    ensures
        dsum(c, k, n, pl, total) <= tsum(k, n, pl, total),
        (exists|i: int| 0 <= i < k && !c[i]) ==> dsum(c, k, n, pl, total) < tsum(k, n, pl, total),
        dsum(c, k, n, pl, total) >= 0,
    decreases k,
{
    if k > 0 {
        lemma_dsum_le(c, k - 1, n, pl, total);
        lemma_piece_len_pos(k - 1, n, pl, total);
        if exists|i: int| 0 <= i < k && !c[i] {
            let i = choose|i: int| 0 <= i < k && !c[i];
            if i < k - 1 {
                assert(exists|j: int| 0 <= j < k - 1 && !c[j]);
            }
        }
    }
}

proof fn lemma_dsum_zero(c: Seq<bool>, k: int, n: int, pl: int, total: int)
    requires
        forall|i: int| 0 <= i < c.len() ==> !c[i],
    ensures
        dsum(c, k, n, pl, total) == 0,
    decreases k,
{
    if k > 0 {
        lemma_dsum_zero(c, k - 1, n, pl, total);
    }
}

/// Flipping one piece to complete adds exactly that piece's length.
proof fn lemma_dsum_update(c: Seq<bool>, k: int, n: int, pl: int, total: int, i: int)
    requires
        0 <= i < c.len(),
        !c[i],
        0 <= k <= c.len(),
    ensures
        dsum(c.update(i, true), k, n, pl, total) == dsum(c, k, n, pl, total) + if i < k {
            spec_piece_len(i, n, pl, total)
        } else {
            0
        },
    decreases k,
{
    if k > 0 {
        lemma_dsum_update(c, k - 1, n, pl, total, i);
    }
}

impl PieceManager {
    /// A fresh manager: every block of every piece pending, no progress.
    ///
    /// The piece geometry must be coherent: `total_length` spread over the
    /// pieces at `piece_length` each leaves a positive remainder for the
    /// last, and every digest is 20 bytes.
    pub fn new(piece_hashes: Vec<Vec<u8>>, piece_length: u64, total_length: u64) -> (r:
        PieceManager)
        requires
            piece_hashes@.len() > 0 ==> 0 < piece_length <= u32::MAX && (piece_hashes@.len() - 1) *
            (piece_length as int) < total_length <= piece_hashes@.len() * (piece_length as int),
            piece_hashes@.len() == 0 ==> total_length == 0,
            forall|i: int|
                0 <= i < piece_hashes@.len() ==> (#[trigger] piece_hashes@[i])@.len() == 20,
        ensures
            r.wf(),
            r.n() == piece_hashes@.len(),
            r.spec_bytes_downloaded() == 0,
            r.spec_total_length() == total_length,
            forall|i: int| 0 <= i < r.n() ==> !r.spec_complete(i),
            forall|i: int, b: int|
                0 <= i < r.n() && 0 <= b < r.spec_block_len(i) ==> #[trigger] r.spec_block(
                    i,
                    b,
                ) is Pending,
    {
        let n = piece_hashes.len();
        let mut blocks: Vec<Vec<BlockSlot>> = Vec::new();
        let mut complete: Vec<bool> = Vec::new();
        let mut i: usize = 0;
        while i < n
            invariant
                0 <= i <= n,
                n == piece_hashes@.len(),
                n > 0 ==> 0 < piece_length <= u32::MAX && (n - 1) * (piece_length as int)
                    < total_length <= n * (piece_length as int),
                blocks@.len() == i,
                complete@.len() == i,
                forall|j: int| 0 <= j < i ==> !(#[trigger] complete@[j]),
                forall|j: int|
                    0 <= j < i ==> (#[trigger] blocks@[j])@.len() == spec_block_count(
                        spec_piece_len(j, n as int, piece_length as int, total_length as int),
                    ),
                forall|j: int, b: int|
                    0 <= j < i && 0 <= b < blocks@[j]@.len() ==> (#[trigger] blocks@[j]@[b])
                        is Pending,
            decreases n - i,
        {
            let plen: u64 = if i + 1 < n {
                piece_length
            } else {
                proof {
                    assert(((n - 1) as int) * (piece_length as int) < total_length);
                }
                total_length - ((n - 1) as u64) * piece_length
            };
            proof {
                lemma_piece_len_pos(
                    i as int,
                    n as int,
                    piece_length as int,
                    total_length as int,
                );
            }
            let bcount: u64 = (plen - 1) / BLOCK_LENGTH + 1;
            let mut row: Vec<BlockSlot> = Vec::new();
            let mut b: u64 = 0;
            while b < bcount
                invariant
                    0 <= b <= bcount,
                    row@.len() == b,
                    forall|t: int| 0 <= t < b ==> (#[trigger] row@[t]) is Pending,
                decreases bcount - b,
            {
                row.push(BlockSlot::Pending);
                b = b + 1;
            }
            blocks.push(row);
            complete.push(false);
            i = i + 1;
        }
        proof {
            lemma_dsum_zero(
                complete@,
                n as int,
                n as int,
                piece_length as int,
                total_length as int,
            );
        }
        PieceManager {
            piece_hashes,
            piece_length,
            total_length,
            blocks,
            complete,
            bytes_downloaded: 0,
            bytes_uploaded: 0,
        }
    }

    /// The download is finished exactly when all pieces have verified:
    /// the progress counter reaches the total only when every piece is
    /// complete, and always does when they all are.
    pub proof fn lemma_finished_iff_all_complete(&self)
        requires
            self.wf(),
        ensures
            (self.spec_bytes_downloaded() == self.spec_total_length()) <==> self.all_complete(),
    {
        let n = self.n();
        let pl = self.piece_length as int;
        let total = self.total_length as int;
        if n == 0 {
        } else {
            lemma_tsum_total(n, n, pl, total);
            lemma_dsum_le(self.complete@, n, n, pl, total);
            if self.all_complete() {
                assert forall|i: int| 0 <= i < self.complete@.len() implies self.complete@[i] by {
                    assert(self.spec_complete(i));
                }
                assert(dsum(self.complete@, n, n, pl, total) == tsum(n, n, pl, total)) by {
                    lemma_dsum_all(self.complete@, n, n, pl, total);
                }
            } else {
                assert(exists|i: int| 0 <= i < n && !self.complete@[i]);
            }
        }
    }

    /// The progress counter is exactly the bytes of the verified pieces and
    /// never exceeds the total: a partial or failed piece is never exposed
    /// through the counters.
    pub proof fn lemma_progress_bounds(&self)
        requires
            self.wf(),
        ensures
            self.spec_bytes_downloaded() as int == self.spec_complete_bytes(self.n()),
            self.spec_bytes_downloaded() <= self.spec_total_length(),
    {
        let n = self.n();
        let pl = self.piece_length as int;
        let total = self.total_length as int;
        lemma_complete_bytes_eq_dsum(self, n);
        if n > 0 {
            lemma_dsum_le(self.complete@, n, n, pl, total);
            lemma_tsum_total(n, n, pl, total);
        }
    }

    /// At most one peer holds the outstanding request for any block: the
    /// slot records a single requester, and `next_request` hands out only
    /// blocks that nobody holds.
    pub proof fn lemma_at_most_one_in_flight(&self, i: int, b: int, p1: u64, p2: u64)
        requires
            self.spec_block(i, b) == BlockSlot::Requested(p1),
            self.spec_block(i, b) == BlockSlot::Requested(p2),
        ensures
            p1 == p2,
    {
    }
}

proof fn lemma_complete_bytes_eq_dsum(m: &PieceManager, k: int)
    requires
        m.wf(),
        0 <= k <= m.n(),
    ensures
        m.spec_complete_bytes(k) == dsum(
            m.complete@,
            k,
            m.n(),
            m.piece_length as int,
            m.total_length as int,
        ),
    decreases k,
{
    if k > 0 {
        lemma_complete_bytes_eq_dsum(m, k - 1);
    }
}

proof fn lemma_dsum_all(c: Seq<bool>, k: int, n: int, pl: int, total: int)
    requires
        forall|i: int| 0 <= i < c.len() ==> c[i],
        0 <= k <= c.len(),
        c.len() == n,
    ensures
        dsum(c, k, n, pl, total) == tsum(k, n, pl, total),
    decreases k,
{
    if k > 0 {
        lemma_dsum_all(c, k - 1, n, pl, total);
    }
}

/// The payload bytes of a row of blocks, in block order.
pub open spec fn assembled(row: Seq<BlockSlot>) -> Seq<u8>
    decreases row.len(),
{
    if row.len() == 0 {
        Seq::empty()
    } else {
        (match row[0] {
            BlockSlot::Done(d) => d@,
            _ => Seq::<u8>::empty(),
        }) + assembled(row.drop_first())
    }
}

/// `assembled` depends only on which blocks are done and their payload bytes.
proof fn lemma_assembled_congruent(r1: Seq<BlockSlot>, r2: Seq<BlockSlot>)
    requires
        r1.len() == r2.len(),
        forall|i: int|
            0 <= i < r1.len() ==> ((#[trigger] r1[i]) is Done <==> (#[trigger] r2[i]) is Done),
        forall|i: int|
            0 <= i < r1.len() && (#[trigger] r1[i]) is Done ==> r1[i]->Done_0@ == r2[i]->Done_0@,
    ensures
        assembled(r1) == assembled(r2),
    decreases r1.len(),
{
    if r1.len() > 0 {
        assert(forall|i: int|
            0 <= i < r1.drop_first().len() ==> #[trigger] r1.drop_first()[i] == r1[i + 1]);
        lemma_assembled_congruent(r1.drop_first(), r2.drop_first());
        assert(r1[0] is Done <==> r2[0] is Done);
    }
}

proof fn lemma_assembled_concat(a: Seq<BlockSlot>, b: Seq<BlockSlot>)
    ensures
        assembled(a + b) == assembled(a) + assembled(b),
    decreases a.len(),
{
    if a.len() == 0 {
        assert(a + b =~= b);
        assert(assembled(a) + assembled(b) =~= assembled(b));
    } else {
        lemma_assembled_concat(a.drop_first(), b);
        assert((a + b).drop_first() =~= a.drop_first() + b);
        assert((a + b)[0] == a[0]);
        let h = match a[0] {
            BlockSlot::Done(d) => d@,
            _ => Seq::<u8>::empty(),
        };
        assert(h + (assembled(a.drop_first()) + assembled(b)) =~= (h + assembled(a.drop_first()))
            + assembled(b));
    }
}

impl PieceManager {
    pub closed spec fn spec_hash(&self, i: int) -> Seq<u8> {
        self.piece_hashes@[i]@
    }

    /// The blocks of piece `i`.
    pub closed spec fn spec_row(&self, i: int) -> Seq<BlockSlot> {
        self.blocks@[i]@
    }

    /// Pick the next block to ask `peer` for: the first pending block of the
    /// first incomplete piece that the peer has, marked as requested from
    /// that peer alone; `None` exactly when no such block exists.
    pub fn next_request(&mut self, peer: u64, have: &Vec<bool>) -> (r: Option<(usize, usize)>)
        requires
            old(self).wf(),
            have@.len() == old(self).n(),
        ensures
            final(self).wf(),
            final(self).n() == old(self).n(),
            final(self).spec_bytes_downloaded() == old(self).spec_bytes_downloaded(),
            final(self).spec_total_length() == old(self).spec_total_length(),
            forall|i: int| 0 <= i < final(self).n() ==> final(self).spec_complete(i) == old(self).spec_complete(i),
            forall|i: int|
                0 <= i < final(self).n() ==> final(self).spec_block_len(i) == old(self).spec_block_len(i),
            (match r {
                Some((i, b)) => {
                    &&& i < final(self).n() && b < final(self).spec_block_len(i as int)
                    &&& have@[i as int]
                    &&& !old(self).spec_complete(i as int)
                    &&& old(self).spec_block(i as int, b as int) is Pending
                    &&& final(self).spec_block(i as int, b as int) == BlockSlot::Requested(peer)
                    &&& forall|j: int, t: int|
                        0 <= j < final(self).n() && 0 <= t < final(self).spec_block_len(j) && !(j == i && t == b)
                            ==> final(self).spec_block(j, t) == old(self).spec_block(j, t)
                },
                None => {
                    &&& *final(self) == *old(self)
                    &&& forall|j: int, t: int|
                        0 <= j < final(self).n() && 0 <= t < final(self).spec_block_len(j) && have@[j]
                            && !final(self).spec_complete(j) ==> !((#[trigger] final(self).spec_block(j, t))
                            is Pending)
                },
            }),
    {
        let n = self.piece_hashes.len();
        let mut i: usize = 0;
        while i < n
            invariant
                0 <= i <= n,
                n == self.n(),
                self == old(self),
                self.wf(),
                have@.len() == n,
                forall|j: int, t: int|
                    0 <= j < i && 0 <= t < self.spec_block_len(j) && have@[j]
                        && !self.spec_complete(j) ==> !((#[trigger] self.spec_block(j, t))
                        is Pending),
            decreases n - i,
        {
            if have[i] && !self.complete[i] {
                let blen = self.blocks[i].len();
                let mut b: usize = 0;
                while b < blen
                    invariant
                        0 <= b <= blen,
                        0 <= i < n,
                        n == self.n(),
                        self == old(self),
                        self.wf(),
                        have@.len() == n,
                        have@[i as int],
                        !self.spec_complete(i as int),
                        blen == self.spec_block_len(i as int),
                        forall|t: int|
                            0 <= t < b ==> !((#[trigger] self.spec_block(i as int, t)) is Pending),
                    decreases blen - b,
                {
                    let pending = match &self.blocks[i][b] {
                        BlockSlot::Pending => true,
                        _ => false,
                    };
                    if pending {
                        self.blocks[i][b] = BlockSlot::Requested(peer);
                        proof {
                            assert(self.complete@ =~= old(self).complete@);
                            assert(self.wf());
                        }
                        return Some((i, b));
                    }
                    b = b + 1;
                }
            }
            i = i + 1;
        }
        None
    }

    /// Record a block that `peer` delivered. Only a block that was requested
    /// from exactly this peer is accepted. When the last block of a piece
    /// arrives, the piece verifies against its digest: on a match the piece
    /// is complete, its bytes are returned and counted exactly once; on a
    /// mismatch every block of the piece goes back to pending and nothing is
    /// counted.
    pub fn deliver_block(&mut self, peer: u64, piece: usize, block: usize, data: Vec<u8>) -> (r:
        BlockDelivery)
        requires
            old(self).wf(),
        ensures
            final(self).wf(),
            final(self).n() == old(self).n(),
            final(self).spec_total_length() == old(self).spec_total_length(),
            forall|i: int|
                0 <= i < final(self).n() ==> final(self).spec_block_len(i) == old(self).spec_block_len(i),
            forall|i: int, t: int|
                0 <= i < final(self).n() && i != piece && 0 <= t < final(self).spec_block_len(i)
                    ==> final(self).spec_block(i, t) == old(self).spec_block(i, t),
            forall|i: int|
                0 <= i < final(self).n() && i != piece ==> final(self).spec_complete(i) == old(
                    self,
                ).spec_complete(i),
            (match r {
                BlockDelivery::Rejected => *final(self) == *old(self) && !(piece < old(self).n() && block
                    < old(self).spec_block_len(piece as int) && !old(self).spec_complete(
                    piece as int,
                ) && old(self).spec_block(piece as int, block as int) == BlockSlot::Requested(
                    peer,
                )),
                BlockDelivery::Stored => {
                    &&& piece < old(self).n() && block < old(self).spec_block_len(piece as int)
                    &&& old(self).spec_block(piece as int, block as int) == BlockSlot::Requested(
                        peer,
                    )
                    &&& final(self).spec_block(piece as int, block as int) matches BlockSlot::Done(d)
                        && d@ == data@
                    &&& forall|t: int|
                        0 <= t < final(self).spec_block_len(piece as int) && t != block
                            ==> final(self).spec_block(piece as int, t) == old(self).spec_block(
                            piece as int,
                            t,
                        )
                    &&& final(self).spec_complete(piece as int) == old(self).spec_complete(piece as int)
                    &&& final(self).spec_bytes_downloaded() == old(self).spec_bytes_downloaded()
                    &&& exists|t: int|
                        0 <= t < final(self).spec_block_len(piece as int) && !((#[trigger] final(self).spec_block(
                            piece as int,
                            t,
                        )) is Done)
                },
                BlockDelivery::Complete(bytes) => {
                    &&& piece < old(self).n() && block < old(self).spec_block_len(piece as int)
                    &&& old(self).spec_block(piece as int, block as int) == BlockSlot::Requested(
                        peer,
                    )
                    &&& bytes@ == assembled(
                        old(self).spec_row(piece as int).update(block as int, BlockSlot::Done(data)),
                    )
                    &&& sha1_of(bytes@) == old(self).spec_hash(piece as int)
                    &&& final(self).spec_complete(piece as int) && !old(self).spec_complete(piece as int)
                    &&& final(self).spec_bytes_downloaded() as int == old(
                        self,
                    ).spec_bytes_downloaded() as int + old(self).spec_len_of(piece as int)
                },
                BlockDelivery::Corrupt => {
                    &&& piece < old(self).n() && block < old(self).spec_block_len(piece as int)
                    &&& old(self).spec_block(piece as int, block as int) == BlockSlot::Requested(
                        peer,
                    )
                    &&& sha1_of(
                        assembled(
                            old(self).spec_row(piece as int).update(
                                block as int,
                                BlockSlot::Done(data),
                            ),
                        ),
                    ) != old(self).spec_hash(piece as int)
                    &&& forall|t: int|
                        0 <= t < final(self).spec_block_len(piece as int) ==> ((#[trigger] final(self).spec_block(
                            piece as int,
                            t,
                        )) is Pending)
                    &&& !final(self).spec_complete(piece as int)
                    &&& final(self).spec_bytes_downloaded() == old(self).spec_bytes_downloaded()
                },
            }),
    {
        let n = self.piece_hashes.len();
        if piece >= n || self.complete[piece] {
            return BlockDelivery::Rejected;
        }
        if block >= self.blocks[piece].len() {
            return BlockDelivery::Rejected;
        }
        let held = match &self.blocks[piece][block] {
            BlockSlot::Requested(p) => *p == peer,
            _ => false,
        };
        if !held {
            return BlockDelivery::Rejected;
        }
        let ghost dv = data@;
        self.blocks[piece][block] = BlockSlot::Done(data);
        proof {
            assert(self.complete@ =~= old(self).complete@);
            assert(self.wf());
        }
        // is the piece finished?
        let blen = self.blocks[piece].len();
        let mut t: usize = 0;
        let mut all_done = true;
        while t < blen
            invariant_except_break
                all_done <==> (forall|u: int|
                    0 <= u < t ==> ((#[trigger] self.spec_block(piece as int, u)) is Done)),
            invariant
                0 <= t <= blen,
                0 <= piece < self.n(),
                self.wf(),
                self.n() == old(self).n(),
                self.complete@ == old(self).complete@,
                self.bytes_downloaded == old(self).bytes_downloaded,
                self.total_length == old(self).total_length,
                self.piece_length == old(self).piece_length,
                self.piece_hashes == old(self).piece_hashes,
                forall|i2: int|
                    0 <= i2 < self.n() && i2 != piece ==> self.blocks@[i2] == old(
                        self,
                    ).blocks@[i2],
                forall|i2: int|
                    0 <= i2 < self.n() ==> self.spec_block_len(i2) == old(self).spec_block_len(
                        i2,
                    ),
                0 <= block < self.spec_block_len(piece as int),
                self.spec_block(piece as int, block as int) matches BlockSlot::Done(d) && d@ == dv,
                forall|t2: int|
                    0 <= t2 < self.spec_block_len(piece as int) && t2 != block ==> self.spec_block(
                        piece as int,
                        t2,
                    ) == old(self).spec_block(piece as int, t2),
                old(self).spec_block(piece as int, block as int) == BlockSlot::Requested(peer),
                !old(self).spec_complete(piece as int),
                dv == data@,
                blen == self.spec_block_len(piece as int),
            ensures
                all_done <==> (forall|u: int|
                    0 <= u < blen ==> ((#[trigger] self.spec_block(piece as int, u)) is Done)),
            decreases blen - t,
        {
            let done = match &self.blocks[piece][t] {
                BlockSlot::Done(_) => true,
                _ => false,
            };
            if !done {
                all_done = false;
                proof {
                    assert(!(self.spec_block(piece as int, t as int) is Done));
                }
                break ;
            }
            t = t + 1;
        }
        if !all_done {
            return BlockDelivery::Stored;
        }
        // assemble and verify
        let mut buf: Vec<u8> = Vec::new();
        let mut u: usize = 0;
        proof {
            assert(assembled(self.blocks@[piece as int]@.take(0)) =~= Seq::<u8>::empty());
        }
        while u < blen
            invariant
                0 <= u <= blen,
                0 <= piece < self.n(),
                self.wf(),
                self.n() == old(self).n(),
                self.complete@ == old(self).complete@,
                self.bytes_downloaded == old(self).bytes_downloaded,
                self.total_length == old(self).total_length,
                self.piece_length == old(self).piece_length,
                self.piece_hashes == old(self).piece_hashes,
                forall|i2: int|
                    0 <= i2 < self.n() && i2 != piece ==> self.blocks@[i2] == old(
                        self,
                    ).blocks@[i2],
                forall|i2: int|
                    0 <= i2 < self.n() ==> self.spec_block_len(i2) == old(self).spec_block_len(
                        i2,
                    ),
                0 <= block < self.spec_block_len(piece as int),
                self.spec_block(piece as int, block as int) matches BlockSlot::Done(d) && d@ == dv,
                forall|t2: int|
                    0 <= t2 < self.spec_block_len(piece as int) && t2 != block ==> self.spec_block(
                        piece as int,
                        t2,
                    ) == old(self).spec_block(piece as int, t2),
                old(self).spec_block(piece as int, block as int) == BlockSlot::Requested(peer),
                !old(self).spec_complete(piece as int),
                dv == data@,
                blen == self.spec_block_len(piece as int),
                forall|u2: int|
                    0 <= u2 < blen ==> ((#[trigger] self.spec_block(piece as int, u2)) is Done),
                buf@ == assembled(self.blocks@[piece as int]@.take(u as int)),
            decreases blen - u,
        {
            proof {
                let row = self.blocks@[piece as int]@;
                lemma_assembled_concat(row.take(u as int), seq![row[u as int]]);
                assert(row.take(u as int + 1) =~= row.take(u as int) + seq![row[u as int]]);
                assert(seq![row[u as int]].drop_first() =~= Seq::<BlockSlot>::empty());
                assert(assembled(Seq::<BlockSlot>::empty()) =~= Seq::<u8>::empty());
                assert(assembled(seq![row[u as int]]) =~= (match row[u as int] {
                    BlockSlot::Done(d) => d@,
                    _ => Seq::<u8>::empty(),
                }));
            }
            match &self.blocks[piece][u] {
                BlockSlot::Done(d) => {
                    let mut part = vstd::slice::slice_to_vec(d.as_slice());
                    buf.append(&mut part);
                },
                _ => {
                    buf.append(&mut Vec::new());
                },
            }
            u = u + 1;
        }
        proof {
            assert(self.blocks@[piece as int]@.take(blen as int) =~= self.blocks@[piece as int]@);
            let cur = self.blocks@[piece as int]@;
            let orig = old(self).blocks@[piece as int]@.update(
                block as int,
                BlockSlot::Done(data),
            );
            lemma_assembled_congruent(cur, orig);
            assert(buf@ == assembled(orig));
        }
        let digest = sha1_digest(buf.as_slice());
        let matched = bytes_eq(digest.as_slice(), self.piece_hashes[piece].as_slice());
        if matched {
            self.complete[piece] = true;
            let plen: u64 = if piece + 1 < n {
                self.piece_length
            } else {
                self.total_length - ((n - 1) as u64) * self.piece_length
            };
            proof {
                let pl = self.piece_length as int;
                let total = self.total_length as int;
                lemma_piece_len_pos(piece as int, n as int, pl, total);
                lemma_dsum_update(
                    old(self).complete@,
                    n as int,
                    n as int,
                    pl,
                    total,
                    piece as int,
                );
                lemma_dsum_le(self.complete@, n as int, n as int, pl, total);
                lemma_tsum_total(n as int, n as int, pl, total);
            }
            self.bytes_downloaded = self.bytes_downloaded + plen;
            return BlockDelivery::Complete(buf);
        }
        // corrupt: discard every block of the piece
        let mut w: usize = 0;
        while w < blen
            invariant
                0 <= w <= blen,
                0 <= piece < self.n(),
                self.n() == old(self).n(),
                blen == self.spec_block_len(piece as int),
                self.wf(),
                self.complete@ == old(self).complete@,
                self.bytes_downloaded == old(self).bytes_downloaded,
                self.total_length == old(self).total_length,
                self.piece_length == old(self).piece_length,
                self.piece_hashes == old(self).piece_hashes,
                forall|i: int|
                    0 <= i < self.n() && i != piece ==> self.blocks@[i] == old(self).blocks@[i],
                forall|i: int|
                    0 <= i < self.n() ==> self.spec_block_len(i) == old(self).spec_block_len(i),
                forall|t2: int|
                    0 <= t2 < w ==> ((#[trigger] self.spec_block(piece as int, t2)) is Pending),
            decreases blen - w,
        {
            let ghost prev = self.blocks@[piece as int]@;
            proof {
                assert forall|t2: int| 0 <= t2 < w implies ((#[trigger] prev[t2]) is Pending) by {
                    assert(self.spec_block(piece as int, t2) is Pending);
                }
            }
            self.blocks[piece][w] = BlockSlot::Pending;
            proof {
                assert(self.blocks@[piece as int]@ =~= prev.update(w as int, BlockSlot::Pending));
                assert forall|t2: int| 0 <= t2 < w + 1 implies ((#[trigger] self.spec_block(
                    piece as int,
                    t2,
                )) is Pending) by {
                    if t2 < w {
                        assert(self.blocks@[piece as int]@[t2] == prev[t2]);
                        assert(prev[t2] is Pending);
                    }
                }
                assert(self.complete@ =~= old(self).complete@);
                assert(self.wf());
            }
            w = w + 1;
        }
        BlockDelivery::Corrupt
    }

    /// Forget every request held by a peer that went away: its outstanding
    /// blocks return to pending so another peer can fetch them.
    pub fn peer_disconnected(&mut self, peer: u64)
        requires
            old(self).wf(),
        ensures
            final(self).wf(),
            final(self).n() == old(self).n(),
            final(self).spec_bytes_downloaded() == old(self).spec_bytes_downloaded(),
            final(self).spec_total_length() == old(self).spec_total_length(),
            forall|i: int| 0 <= i < final(self).n() ==> final(self).spec_complete(i) == old(self).spec_complete(i),
            forall|i: int|
                0 <= i < final(self).n() ==> final(self).spec_block_len(i) == old(self).spec_block_len(i),
            forall|i: int, b: int|
                0 <= i < final(self).n() && 0 <= b < final(self).spec_block_len(i) ==> #[trigger] final(self).spec_block(
                    i,
                    b,
                ) == (if old(self).spec_block(i, b) == BlockSlot::Requested(peer) {
                    BlockSlot::Pending
                } else {
                    old(self).spec_block(i, b)
                }),
    {
        let n = self.piece_hashes.len();
        let mut i: usize = 0;
        while i < n
            invariant
                0 <= i <= n,
                n == self.n(),
                self.wf(),
                self.n() == old(self).n(),
                self.complete@ == old(self).complete@,
                self.bytes_downloaded == old(self).bytes_downloaded,
                self.total_length == old(self).total_length,
                self.piece_length == old(self).piece_length,
                self.piece_hashes == old(self).piece_hashes,
                forall|j: int|
                    0 <= j < self.n() ==> self.spec_block_len(j) == old(self).spec_block_len(j),
                forall|j: int, b: int|
                    i <= j < self.n() && 0 <= b < self.spec_block_len(j) ==> self.spec_block(j, b)
                        == old(self).spec_block(j, b),
                forall|j: int, b: int|
                    0 <= j < i && 0 <= b < self.spec_block_len(j) ==> #[trigger] self.spec_block(
                        j,
                        b,
                    ) == (if old(self).spec_block(j, b) == BlockSlot::Requested(peer) {
                        BlockSlot::Pending
                    } else {
                        old(self).spec_block(j, b)
                    }),
            decreases n - i,
        {
            let blen = self.blocks[i].len();
            let mut b: usize = 0;
            while b < blen
                invariant
                    0 <= b <= blen,
                    0 <= i < n,
                    n == self.n(),
                    self.wf(),
                    self.n() == old(self).n(),
                    blen == self.spec_block_len(i as int),
                    self.complete@ == old(self).complete@,
                    self.bytes_downloaded == old(self).bytes_downloaded,
                    self.total_length == old(self).total_length,
                    self.piece_length == old(self).piece_length,
                    self.piece_hashes == old(self).piece_hashes,
                    forall|j: int|
                        0 <= j < self.n() ==> self.spec_block_len(j) == old(self).spec_block_len(
                            j,
                        ),
                    forall|j: int, t: int|
                        i < j < self.n() && 0 <= t < self.spec_block_len(j) ==> self.spec_block(
                            j,
                            t,
                        ) == old(self).spec_block(j, t),
                    forall|t: int|
                        b <= t < blen ==> self.spec_block(i as int, t) == old(self).spec_block(
                            i as int,
                            t,
                        ),
                    forall|j: int, t: int|
                        0 <= j < i && 0 <= t < self.spec_block_len(j) ==> #[trigger] self.spec_block(
                            j,
                            t,
                        ) == (if old(self).spec_block(j, t) == BlockSlot::Requested(peer) {
                            BlockSlot::Pending
                        } else {
                            old(self).spec_block(j, t)
                        }),
                    forall|t: int|
                        0 <= t < b ==> #[trigger] self.spec_block(i as int, t) == (if old(
                            self,
                        ).spec_block(i as int, t) == BlockSlot::Requested(peer) {
                            BlockSlot::Pending
                        } else {
                            old(self).spec_block(i as int, t)
                        }),
                decreases blen - b,
            {
                let is_mine = match &self.blocks[i][b] {
                    BlockSlot::Requested(p) => *p == peer,
                    _ => false,
                };
                if is_mine {
                    self.blocks[i][b] = BlockSlot::Pending;
                    proof {
                        assert(self.complete@ =~= old(self).complete@);
                        assert(self.wf());
                    }
                }
                b = b + 1;
            }
            i = i + 1;
        }
    }

    /// The lifecycle state of a piece, derived from its blocks: complete once
    /// verified, missing when nothing was asked for or received, in flight
    /// otherwise. (Verification itself happens inside `deliver_block`.)
    pub fn piece_state(&self, i: usize) -> (r: PieceState)
        requires
            self.wf(),
            i < self.n(),
        ensures
            r is Complete <==> self.spec_complete(i as int),
            r is Missing <==> (!self.spec_complete(i as int) && (forall|b: int|
                0 <= b < self.spec_block_len(i as int) ==> ((#[trigger] self.spec_block(
                    i as int,
                    b,
                )) is Pending))),
            r is InFlight <==> (!self.spec_complete(i as int) && !(forall|b: int|
                0 <= b < self.spec_block_len(i as int) ==> ((#[trigger] self.spec_block(
                    i as int,
                    b,
                )) is Pending))),
    {
        if self.complete[i] {
            return PieceState::Complete;
        }
        let blen = self.blocks[i].len();
        let mut b: usize = 0;
        while b < blen
            invariant
                0 <= b <= blen,
                i < self.n(),
                self.wf(),
                !self.spec_complete(i as int),
                blen == self.spec_block_len(i as int),
                forall|t: int|
                    0 <= t < b ==> ((#[trigger] self.spec_block(i as int, t)) is Pending),
            decreases blen - b,
        {
            let pending = match &self.blocks[i][b] {
                BlockSlot::Pending => true,
                _ => false,
            };
            if !pending {
                proof {
                    assert(!(self.spec_block(i as int, b as int) is Pending));
                }
                return PieceState::InFlight;
            }
            b = b + 1;
        }
        PieceState::Missing
    }

    /// A snapshot of the aggregate progress for the tracker client.
    pub fn progress(&self) -> (r: crate::bittorrent::DownloadProgress)
        requires
            self.wf(),
        ensures
            r.bytes_total == self.spec_total_length(),
            r.bytes_downloaded == self.spec_bytes_downloaded(),
            r.bytes_uploaded == self.spec_bytes_uploaded(),
            r.pieces_fetched@.len() == self.n(),
            forall|i: int|
                0 <= i < self.n() ==> r.pieces_fetched@[i] == self.spec_complete(i),
    {
        let n = self.complete.len();
        let mut fetched: Vec<bool> = Vec::new();
        let mut i: usize = 0;
        while i < n
            invariant
                0 <= i <= n,
                n == self.complete@.len(),
                fetched@.len() == i,
                forall|j: int| 0 <= j < i ==> fetched@[j] == self.complete@[j],
            decreases n - i,
        {
            fetched.push(self.complete[i]);
            i = i + 1;
        }
        crate::bittorrent::DownloadProgress {
            bytes_total: self.total_length,
            bytes_downloaded: self.bytes_downloaded,
            bytes_uploaded: self.bytes_uploaded,
            pieces_fetched: fetched,
        }
    }
}

} // verus!
