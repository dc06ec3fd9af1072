//! The block download pipeline: the flattened request plan, the bounded
//! window of outstanding requests, reorder-tolerant matching of block
//! replies, position-addressed placement into the output stream, and
//! per-piece SHA-1 verification.
use vstd::prelude::*;

use crate::BtError;
use crate::handshake::Request;
use crate::piece::BLOCK_MAX;
use crate::piece::Piece;
use crate::piece::block_count_of;
use crate::piece::block_len_of;
use crate::piece::lemma_block_bounds;
use crate::torrent::Torrent;
use crate::torrent::piece_count_of;
use crate::torrent::piece_size_of;
use crate::torrent::lemma_piece_size_bounds;
use crate::torrent::total_len_int;
use crate::torrent::sha1_of;
use crate::torrent::sha1_digest;

verus! {

// ---------------------------------------------------------------------------
// Position-addressed writes.
// ---------------------------------------------------------------------------

/// `s` with `d` written at offset `o`.
pub open spec fn write_at(s: Seq<u8>, o: int, d: Seq<u8>) -> Seq<u8> {
    s.take(o) + d + s.skip(o + d.len())
}

pub proof fn lemma_write_at_index(s: Seq<u8>, o: int, d: Seq<u8>)
    requires
        0 <= o,
        o + d.len() <= s.len(),
    ensures
        write_at(s, o, d).len() == s.len(),
        forall|i: int|
            0 <= i < s.len() ==> #[trigger] write_at(s, o, d)[i] == if o <= i < o + d.len() {
                d[i - o]
            } else {
                s[i]
            },
{
}

/// Writes at disjoint ranges land the same bytes in either order: any
/// permutation of block replies within the window reconstructs the same
/// stream.
pub proof fn lemma_disjoint_writes_commute(
    s: Seq<u8>,
    o1: int,
    d1: Seq<u8>,
    o2: int,
    d2: Seq<u8>,
)
    requires
        0 <= o1,
        0 <= o2,
        o1 + d1.len() <= s.len(),
        o2 + d2.len() <= s.len(),
        o1 + d1.len() <= o2 || o2 + d2.len() <= o1,
    ensures
        write_at(write_at(s, o1, d1), o2, d2) == write_at(write_at(s, o2, d2), o1, d1),
{
    lemma_write_at_index(s, o1, d1);
    lemma_write_at_index(s, o2, d2);
    lemma_write_at_index(write_at(s, o1, d1), o2, d2);
    lemma_write_at_index(write_at(s, o2, d2), o1, d1);
    assert(write_at(write_at(s, o1, d1), o2, d2) =~= write_at(write_at(s, o2, d2), o1, d1));
}

// ---------------------------------------------------------------------------
// What is still missing from each piece.
// ---------------------------------------------------------------------------

/// Total length of the plan's not-yet-answered requests for one piece.
pub open spec fn sum_unanswered(plan: Seq<Request>, ans: Seq<bool>, piece: int) -> int
    recommends
        plan.len() == ans.len(),
    decreases plan.len(),
{
    if plan.len() == 0 {
        0
    } else {
        (if plan[0].index == piece && !ans[0] {
            plan[0].length as int
        } else {
            0
        }) + sum_unanswered(plan.drop_first(), ans.drop_first(), piece)
    }
}

pub proof fn lemma_sum_unanswered_push(plan: Seq<Request>, ans: Seq<bool>, rq: Request, a: bool, piece: int)
    requires
        plan.len() == ans.len(),
    ensures
        sum_unanswered(plan.push(rq), ans.push(a), piece) == sum_unanswered(plan, ans, piece) + (
        if rq.index == piece && !a {
            rq.length as int
        } else {
            0
        }),
    decreases plan.len(),
{
    if plan.len() == 0 {
        assert(plan.push(rq).drop_first() =~= Seq::<Request>::empty());
        assert(ans.push(a).drop_first() =~= Seq::<bool>::empty());
        assert(plan.push(rq)[0] == rq);
        assert(ans.push(a)[0] == a);
        assert(sum_unanswered(Seq::<Request>::empty(), Seq::<bool>::empty(), piece) == 0);
    } else {
        lemma_sum_unanswered_push(plan.drop_first(), ans.drop_first(), rq, a, piece);
        assert(plan.push(rq).drop_first() =~= plan.drop_first().push(rq));
        assert(ans.push(a).drop_first() =~= ans.drop_first().push(a));
        assert(plan.push(rq)[0] == plan[0]);
        assert(ans.push(a)[0] == ans[0]);
    }
}

pub proof fn lemma_sum_unanswered_update(plan: Seq<Request>, ans: Seq<bool>, j: int, piece: int)
    requires
        plan.len() == ans.len(),
        0 <= j < plan.len(),
        !ans[j],
    ensures
        sum_unanswered(plan, ans.update(j, true), piece) == sum_unanswered(plan, ans, piece) - (
        if plan[j].index == piece {
            plan[j].length as int
        } else {
            0
        }),
    decreases plan.len(),
{
    if j == 0 {
        assert(ans.update(0, true).drop_first() =~= ans.drop_first());
        assert(ans.update(0, true)[0] == true);
    } else {
        lemma_sum_unanswered_update(plan.drop_first(), ans.drop_first(), j - 1, piece);
        assert(ans.update(j, true).drop_first() =~= ans.drop_first().update(j - 1, true));
        assert(ans.update(j, true)[0] == ans[0]);
        assert(plan.drop_first()[j - 1] == plan[j]);
        assert(ans.drop_first()[j - 1] == ans[j]);
    }
}

pub proof fn lemma_sum_unanswered_nonneg(plan: Seq<Request>, ans: Seq<bool>, piece: int)
    ensures
        sum_unanswered(plan, ans, piece) >= 0,
    decreases plan.len(),
{
    if plan.len() > 0 {
        lemma_sum_unanswered_nonneg(plan.drop_first(), ans.drop_first(), piece);
    }
}

/// An unanswered request's length is part of its piece's missing total.
pub proof fn lemma_sum_unanswered_elem(plan: Seq<Request>, ans: Seq<bool>, j: int)
    requires
        plan.len() == ans.len(),
        0 <= j < plan.len(),
        !ans[j],
    ensures
        sum_unanswered(plan, ans, plan[j].index as int) >= plan[j].length as int,
    decreases plan.len(),
{
    lemma_sum_unanswered_nonneg(plan.drop_first(), ans.drop_first(), plan[j].index as int);
    if j > 0 {
        lemma_sum_unanswered_elem(plan.drop_first(), ans.drop_first(), j - 1);
        assert(plan.drop_first()[j - 1] == plan[j]);
        assert(ans.drop_first()[j - 1] == ans[j]);
    }
}

// ---------------------------------------------------------------------------
// The pipeline state.
// ---------------------------------------------------------------------------

/// What one accepted block tells the caller: where its bytes belong in
/// the output file, the next request to put on the wire, if any, and the
/// piece this block completed, if any — already verified against its
/// digest.
pub struct BlockDone {
    pub offset: usize,
    pub next_request: Option<Request>,
    pub piece_completed: Option<u32>,
}

/// Per-entry geometry: each request names a real piece, a positive
/// length, and one whole block of that piece.
pub open spec fn plan_entries_wf(plan: Seq<Request>, total: int, pl: int) -> bool {
    forall|j: int|
        0 <= j < plan.len() ==> {
            let rq = #[trigger] plan[j];
            &&& (rq.index as int) < piece_count_of(total, pl)
            &&& rq.length >= 1
            &&& rq.begin + rq.length <= piece_size_of(total, pl, rq.index as int)
            &&& (rq.index as int) * pl + rq.begin + rq.length <= total
        }
}

/// Entries ascend strictly by piece, then by offset.
pub open spec fn plan_pairwise(plan: Seq<Request>) -> bool {
    forall|j1: int, j2: int|
        0 <= j1 < j2 < plan.len() ==> {
            let a = #[trigger] plan[j1];
            let b = #[trigger] plan[j2];
            a.index < b.index || (a.index == b.index && a.begin < b.begin)
        }
}

/// Each entry either continues its piece where the previous one ended,
/// or opens the next piece at offset zero once its piece was finished;
/// the first entry opens piece zero.
pub open spec fn plan_adjacent(plan: Seq<Request>, total: int, pl: int) -> bool {
    &&& (plan.len() > 0 ==> plan[0].index == 0 && plan[0].begin == 0)
    &&& (forall|j: int|
        0 <= j && j + 1 < plan.len() ==> {
            let a = #[trigger] plan[j];
            let b = plan[j + 1];
            if a.begin + a.length < piece_size_of(total, pl, a.index as int) {
                b.index == a.index && b.begin == a.begin + a.length
            } else {
                b.index == a.index + 1 && b.begin == 0
            }
        })
}

/// The plan holds exactly the blocks of the first `upto` pieces.
pub open spec fn plan_covers(plan: Seq<Request>, total: int, pl: int, upto: int) -> bool {
    if upto == 0 {
        plan.len() == 0
    } else {
        plan.len() > 0 && {
            let last = plan[plan.len() - 1];
            last.index == upto - 1 && last.begin + last.length == piece_size_of(
                total,
                pl,
                upto - 1,
            )
        }
    }
}

/// The whole request plan of a torrent: every block of every piece,
/// pieces ascending, offsets ascending, ending at the last piece's end.
pub open spec fn is_full_plan(plan: Seq<Request>, total: int, pl: int) -> bool {
    &&& plan_entries_wf(plan, total, pl)
    &&& plan_pairwise(plan)
    &&& plan_adjacent(plan, total, pl)
    &&& plan_covers(plan, total, pl, piece_count_of(total, pl))
}

/// The download pipeline over one torrent: the full request plan, the
/// window of outstanding requests, the per-piece missing byte counts,
/// the expected digests, and the assembled output stream.
pub struct Pipeline {
    /// Every block request of the torrent, pieces ascending, offsets
    /// ascending within a piece.
    pub plan: Vec<Request>,
    /// Index of the next plan entry to put on the wire.
    pub next: usize,
    /// Plan indices currently on the wire.
    pub outstanding: Vec<usize>,
    /// Per plan entry: whether its block has been received.
    pub answered: Vec<bool>,
    /// Bound on the outstanding set.
    pub window: usize,
    /// Bytes per piece, except the last.
    pub piece_length: usize,
    /// Expected SHA-1 digest of each piece.
    pub hashes: Vec<Vec<u8>>,
    /// Bytes of each piece not yet received.
    pub piece_remaining: Vec<usize>,
    /// The assembled stream, written block by block.
    pub out: Vec<u8>,
}

impl Pipeline {
    /// The pipeline invariant: consistent geometry, a window-bounded
    /// outstanding set of issued-but-unanswered plan entries, and
    /// per-piece missing counts that total the unanswered lengths.
    pub open spec fn wf(&self) -> bool {
        let total = self.out@.len() as int;
        let pl = self.piece_length as int;
        &&& 1 <= self.piece_length <= u32::MAX
        &&& self.hashes@.len() == piece_count_of(total, pl)
        &&& self.hashes@.len() <= u32::MAX
        &&& (forall|i: int| 0 <= i < self.hashes@.len() ==> (#[trigger] self.hashes@[i])@.len() == 20)
        &&& plan_entries_wf(self.plan@, total, pl)
        &&& plan_pairwise(self.plan@)
        &&& self.answered@.len() == self.plan@.len()
        &&& self.next <= self.plan@.len()
        &&& (forall|j: int| self.next <= j < self.plan@.len() ==> !(#[trigger] self.answered@[j]))
        &&& (forall|t: int|
            0 <= t < self.outstanding@.len() ==> (#[trigger] self.outstanding@[t]) < self.next)
        &&& (forall|t1: int, t2: int|
            0 <= t1 < t2 < self.outstanding@.len() ==> self.outstanding@[t1]
                != self.outstanding@[t2])
        &&& (forall|t: int|
            0 <= t < self.outstanding@.len() ==> !(#[trigger] self.answered@[self.outstanding@[t]
                as int]))
        &&& (forall|j: int|
            0 <= j < self.next && !(#[trigger] self.answered@[j]) ==> exists|t: int|
                0 <= t < self.outstanding@.len() && (#[trigger] self.outstanding@[t]) == j)
        &&& self.outstanding@.len() <= self.window
        &&& self.window >= 1
        &&& self.piece_remaining@.len() == self.hashes@.len()
        &&& (forall|i: int|
            0 <= i < self.piece_remaining@.len() ==> (#[trigger] self.piece_remaining@[i]) as int
                == sum_unanswered(self.plan@, self.answered@, i))
    }

    /// Whether every planned request has been issued and answered.
    pub fn done(&self) -> (r: bool)
        ensures
            r == (self.next == self.plan@.len() && self.outstanding@.len() == 0),
    {
        self.next == self.plan.len() && self.outstanding.len() == 0
    }

    /// Builds the pipeline for a torrent: the flattened request plan in
    /// ascending piece and offset order, the first `window` requests
    /// already marked outstanding and handed back for sending, an output
    /// buffer sized to the whole stream, and every piece still missing
    /// all of its bytes.
    #[verifier::rlimit(100)]
    pub fn new(torrent: &Torrent, window: usize) -> (r: (Pipeline, Vec<Request>))
        requires
            torrent.wf(),
            window >= 1,
        ensures
            r.0.wf(),
            r.0.out@.len() as int == total_len_int(torrent.info.keys),
            r.0.piece_length == torrent.info.piece_length,
            r.0.hashes@.len() == torrent.info.pieces.0@.len(),
            forall|i: int|
                0 <= i < r.0.hashes@.len() ==> (#[trigger] r.0.hashes@[i])@
                    == torrent.info.pieces.0@[i]@,
            forall|i: int|
                0 <= i < r.0.piece_remaining@.len() ==> (#[trigger] r.0.piece_remaining@[i]) as int
                    == piece_size_of(
                    total_len_int(torrent.info.keys),
                    torrent.info.piece_length as int,
                    i,
                ),
            r.0.window == window,
            forall|j: int| 0 <= j < r.0.answered@.len() ==> !(#[trigger] r.0.answered@[j]),
            r.0.next == r.1@.len(),
            r.1@ == r.0.plan@.take(r.0.next as int),
            forall|t: int| 0 <= t < r.0.outstanding@.len() ==> (#[trigger] r.0.outstanding@[t]) == t,
            r.1@.len() == if r.0.plan@.len() < window {
                r.0.plan@.len() as int
            } else {
                window as int
            },
            is_full_plan(
                r.0.plan@,
                total_len_int(torrent.info.keys),
                torrent.info.piece_length as int,
            ),
    {
        let total: usize = torrent.file_length();
        let pl: usize = torrent.info.piece_length;
        let count: usize = torrent.piece_count();
        let mut plan: Vec<Request> = Vec::new();
        let mut answered: Vec<bool> = Vec::new();
        let mut hashes: Vec<Vec<u8>> = Vec::new();
        let mut piece_remaining: Vec<usize> = Vec::new();
        let mut i: usize = 0;
        while i < count
            invariant
                torrent.wf(),
                i <= count,
                total as int == total_len_int(torrent.info.keys),
                pl == torrent.info.piece_length,
                count == torrent.info.pieces.0@.len(),
                count == piece_count_of(total as int, pl as int),
                count <= u32::MAX,
                1 <= pl <= u32::MAX,
                hashes@.len() == i,
                forall|q: int|
                    0 <= q < i ==> (#[trigger] hashes@[q])@ == torrent.info.pieces.0@[q]@,
                piece_remaining@.len() == i,
                forall|q: int|
                    0 <= q < i ==> (#[trigger] piece_remaining@[q]) as int == piece_size_of(
                        total as int,
                        pl as int,
                        q,
                    ),
                answered@.len() == plan@.len(),
                forall|j: int| 0 <= j < answered@.len() ==> !(#[trigger] answered@[j]),
                plan_entries_wf(plan@, total as int, pl as int),
                plan_pairwise(plan@),
                forall|j: int| 0 <= j < plan@.len() ==> (#[trigger] plan@[j]).index < i,
                plan_adjacent(plan@, total as int, pl as int),
                plan_covers(plan@, total as int, pl as int, i as int),
                forall|q: int|
                    0 <= q < i ==> sum_unanswered(plan@, answered@, q) == piece_size_of(
                        total as int,
                        pl as int,
                        q,
                    ),
                forall|q: int| q >= i ==> sum_unanswered(plan@, answered@, q) == 0,
            decreases count - i,
        {
            let psize: usize = torrent.piece_size(i);
            hashes.push(crate::bencode::bytes_copy(torrent.piece_hash(i)));
            piece_remaining.push(psize);
            let nblocks: usize = if psize == 0 {
                0
            } else {
                (psize - 1) / BLOCK_MAX + 1
            };
            proof {
                assert(nblocks as int == block_count_of(psize as int));
                assert(nblocks >= 1);
            }
            let mut k: usize = 0;
            while k < nblocks
                invariant
                    i < count,
                    total as int == total_len_int(torrent.info.keys),
                    count == piece_count_of(total as int, pl as int),
                    count <= u32::MAX,
                    1 <= pl <= u32::MAX,
                    psize as int == piece_size_of(total as int, pl as int, i as int),
                    1 <= psize <= pl,
                    nblocks as int == block_count_of(psize as int),
                    k <= nblocks,
                    answered@.len() == plan@.len(),
                    forall|j: int| 0 <= j < answered@.len() ==> !(#[trigger] answered@[j]),
                    plan_entries_wf(plan@, total as int, pl as int),
                    plan_pairwise(plan@),
                    forall|j: int|
                        0 <= j < plan@.len() ==> ((#[trigger] plan@[j]).index < i || (plan@[j].index
                            == i && (plan@[j].begin as int) < (k as int) * (BLOCK_MAX as int))),
                    plan_adjacent(plan@, total as int, pl as int),
                    if k == 0 {
                        plan_covers(plan@, total as int, pl as int, i as int)
                    } else {
                        plan@.len() > 0 && {
                            let last = plan@[plan@.len() - 1];
                            last.index == i && last.begin as int == (k - 1) * (BLOCK_MAX as int)
                                && last.length as int == block_len_of(psize as int, k - 1)
                        }
                    },
                    forall|q: int|
                        0 <= q < i ==> sum_unanswered(plan@, answered@, q) == piece_size_of(
                            total as int,
                            pl as int,
                            q,
                        ),
                    sum_unanswered(plan@, answered@, i as int) == if k == nblocks {
                        psize as int
                    } else {
                        (k as int) * (BLOCK_MAX as int)
                    },
                    forall|q: int| q > i ==> sum_unanswered(plan@, answered@, q) == 0,
                decreases nblocks - k,
            {
                proof {
                    lemma_block_bounds(psize as int, k as int);
                }
                let begin: usize = k * BLOCK_MAX;
                let length: usize = if k + 1 < nblocks {
                    BLOCK_MAX
                } else {
                    psize - begin
                };
                let rq = Request::new(i as u32, begin as u32, length as u32);
                let ghost plan0 = plan@;
                let ghost ans0 = answered@;
                proof {
                    lemma_piece_size_bounds(total as int, pl as int, i as int);
                    if (i as int) < count - 1 {
                        assert((i as int + 1) * (pl as int) <= (count - 1) * (pl as int))
                            by (nonlinear_arith)
                            requires
                                i as int + 1 <= count - 1,
                                pl >= 1,
                        ;
                        assert((i as int) * (pl as int) + pl == (i as int + 1) * (pl as int))
                            by (nonlinear_arith);
                    } else {
                        assert(psize as int == total - (count - 1) * (pl as int));
                    }
                    assert((i as int) * (pl as int) + psize <= total);
                    if k + 1 < nblocks {
                        assert((k as int) * (BLOCK_MAX as int) + BLOCK_MAX == (k as int + 1) * (
                        BLOCK_MAX as int)) by (nonlinear_arith);
                        lemma_block_bounds(psize as int, k as int + 1);
                    }
                }
                plan.push(rq);
                answered.push(false);
                proof {
                    assert(plan@ == plan0.push(rq));
                    assert(answered@ == ans0.push(false));
                    assert forall|q: int| true implies sum_unanswered(plan@, answered@, q)
                        == sum_unanswered(plan0, ans0, q) + (if rq.index == q {
                        rq.length as int
                    } else {
                        0
                    }) by {
                        lemma_sum_unanswered_push(plan0, ans0, rq, false, q);
                    }
                }
                k = k + 1;
            }
            i = i + 1;
        }
        let limit: usize = if plan.len() < window {
            plan.len()
        } else {
            window
        };
        let mut outstanding: Vec<usize> = Vec::new();
        let mut initial: Vec<Request> = Vec::new();
        let mut t: usize = 0;
        proof {
            assert(initial@ =~= plan@.take(0));
        }
        while t < limit
            invariant
                t <= limit,
                limit <= plan@.len(),
                outstanding@.len() == t,
                initial@.len() == t,
                forall|q: int| 0 <= q < t ==> (#[trigger] outstanding@[q]) == q,
                initial@ == plan@.take(t as int),
            decreases limit - t,
        {
            outstanding.push(t);
            initial.push(plan[t]);
            proof {
                assert(plan@.take(t + 1) =~= plan@.take(t as int).push(plan@[t as int]));
            }
            t = t + 1;
        }
        let p = Pipeline {
            plan,
            next: limit,
            outstanding,
            answered,
            window,
            piece_length: pl,
            hashes,
            piece_remaining,
            out: vec![0u8; total],
        };
        proof {
            assert forall|j: int|
                0 <= j < p.next && !(#[trigger] p.answered@[j]) implies exists|q: int|
                0 <= q < p.outstanding@.len() && (#[trigger] p.outstanding@[q]) == j by {
                assert(p.outstanding@[j] == j as usize);
            }
        }
        (p, initial)
    }
}

/// A plan entry answers a block reply when piece index and offset agree.
pub open spec fn req_matches(rq: Request, p: Piece) -> bool {
    rq.index == p.index && rq.begin == p.begin
}

/// Some outstanding request matches the reply, with the right length.
pub open spec fn has_match(pl: Pipeline, p: Piece) -> bool {
    exists|t: int|
        0 <= t < pl.outstanding@.len() && req_matches(
            pl.plan@[(#[trigger] pl.outstanding@[t]) as int],
            p,
        ) && p.block@.len() == pl.plan@[pl.outstanding@[t] as int].length
}

/// The bookkeeping one accepted block performs: its plan entry is marked
/// answered and leaves the outstanding set, the block lands at its
/// absolute offset in the output stream and nowhere else, the piece's
/// missing count drops by the block's length, and — when the plan is not
/// drained — the next planned request replaces it on the wire.
pub open spec fn block_transition(o: Pipeline, n: Pipeline, p: Piece, t: int, issued: bool) -> bool {
    let j = o.outstanding@[t] as int;
    &&& 0 <= t < o.outstanding@.len()
    &&& req_matches(o.plan@[j], p)
    &&& p.block@.len() == o.plan@[j].length
    &&& n.plan@ == o.plan@
    &&& n.window == o.window
    &&& n.piece_length == o.piece_length
    &&& n.hashes@ == o.hashes@
    &&& n.answered@ == o.answered@.update(j, true)
    &&& n.out@ == write_at(
        o.out@,
        (p.index as int) * (o.piece_length as int) + p.begin,
        p.block@,
    )
    &&& n.piece_remaining@ == o.piece_remaining@.update(
        p.index as int,
        (o.piece_remaining@[p.index as int] - p.block@.len()) as usize,
    )
    &&& (if issued {
        n.outstanding@ == o.outstanding@.remove(t).push(o.next as usize) && n.next == o.next + 1
    } else {
        n.outstanding@ == o.outstanding@.remove(t) && n.next == o.next
    })
}

impl Pipeline {
    /// Scans the window for the request a reply answers.
    fn find_match(&self, p: &Piece) -> (r: Option<usize>)
        requires
            self.wf(),
        ensures
            match r {
                Some(ti) => ti < self.outstanding@.len() && req_matches(
                    self.plan@[self.outstanding@[ti as int] as int],
                    *p,
                ),
                None => forall|t: int|
                    0 <= t < self.outstanding@.len() ==> !req_matches(
                        self.plan@[(#[trigger] self.outstanding@[t]) as int],
                        *p,
                    ),
            },
    {
        let mut ti: usize = 0;
        while ti < self.outstanding.len()
            invariant
                self.wf(),
                ti <= self.outstanding@.len(),
                forall|t: int|
                    0 <= t < ti ==> !req_matches(
                        self.plan@[(#[trigger] self.outstanding@[t]) as int],
                        *p,
                    ),
            decreases self.outstanding@.len() - ti,
        {
            let j = self.outstanding[ti];
            if self.plan[j].index == p.index && self.plan[j].begin == p.begin {
                return Some(ti);
            }
            ti = ti + 1;
        }
        None
    }
}

/// Byte range of one piece within the stream.
pub open spec fn piece_start(pl: Pipeline, i: int) -> int {
    i * (pl.piece_length as int)
}

/// Every piece's bytes lie inside the stream.
pub proof fn lemma_piece_region(total: int, pl: int, i: int)
    requires
        pl >= 1,
        total >= 0,
        0 <= i < piece_count_of(total, pl),
    ensures
        0 <= i * pl,
        i * pl + piece_size_of(total, pl, i) <= total,
        1 <= piece_size_of(total, pl, i) <= pl,
        piece_size_of(total, pl, i) == if i + 1 < piece_count_of(total, pl) {
            pl
        } else {
            total - (piece_count_of(total, pl) - 1) * pl
        },
{
    let count = piece_count_of(total, pl);
    lemma_piece_size_bounds(total, pl, i);
    assert(i * pl >= 0) by (nonlinear_arith)
        requires
            i >= 0,
            pl >= 1,
    ;
    if i + 1 < count {
        assert((i + 1) * pl <= (count - 1) * pl) by (nonlinear_arith)
            requires
                i + 1 <= count - 1,
                pl >= 1,
        ;
        assert((i + 1) * pl == i * pl + pl) by (nonlinear_arith);
    }
}

impl Pipeline {
    /// Takes one block reply off the wire. The reply must match an
    /// outstanding request exactly — same piece, same offset, the
    /// requested length — or it fails with `UnexpectedBlock` and changes
    /// nothing. A matching block is written at its absolute offset,
    /// retired from the window, and replaced on the wire by the next
    /// planned request while any remain. The block that completes a
    /// piece triggers that piece's SHA-1 check: on agreement the piece is
    /// reported complete, on disagreement the download fails with
    /// `PieceHashMismatch`.
    #[verifier::rlimit(100)]
    pub fn on_block(&mut self, p: &Piece) -> (r: Result<BlockDone, BtError>)
        requires
            old(self).wf(),
        ensures
            match r {
                Ok(done) => {
                    &&& (if old(self).next < old(self).plan@.len() {
                        exists|t: int| #[trigger] block_transition(*old(self), *final(self), *p, t, true)
                    } else {
                        exists|t: int| #[trigger] block_transition(*old(self), *final(self), *p, t, false)
                    })
                    &&& (p.index as int) < old(self).hashes@.len()
                    &&& done.offset as int == (p.index as int) * (old(self).piece_length as int)
                        + p.begin
                    &&& done.next_request == (if old(self).next < old(self).plan@.len() {
                        Some(old(self).plan@[old(self).next as int])
                    } else {
                        Option::<Request>::None
                    })
                    &&& done.piece_completed == (if final(self).piece_remaining@[p.index as int]
                        == 0 {
                        Some(p.index)
                    } else {
                        Option::<u32>::None
                    })
                    &&& (final(self).piece_remaining@[p.index as int] == 0 ==> sha1_of(
                        final(self).out@.subrange(
                            piece_start(*final(self), p.index as int),
                            piece_start(*final(self), p.index as int) + piece_size_of(
                                final(self).out@.len() as int,
                                final(self).piece_length as int,
                                p.index as int,
                            ),
                        ),
                    ) == final(self).hashes@[p.index as int]@)
                    &&& final(self).wf()
                },
                Err(e) => match e {
                    BtError::UnexpectedBlock => !has_match(*old(self), *p) && *final(self) == *old(
                        self,
                    ),
                    BtError::PieceHashMismatch { piece_index } => {
                        &&& piece_index == p.index
                        &&& exists|t: int|
                            #[trigger] block_transition(*old(self), *final(self), *p, t, false)
                        &&& final(self).piece_remaining@[p.index as int] == 0
                        &&& sha1_of(
                            final(self).out@.subrange(
                                piece_start(*final(self), p.index as int),
                                piece_start(*final(self), p.index as int) + piece_size_of(
                                    final(self).out@.len() as int,
                                    final(self).piece_length as int,
                                    p.index as int,
                                ),
                            ),
                        ) != final(self).hashes@[p.index as int]@
                        &&& final(self).wf()
                    },
                    _ => false,
                },
            },
    {
        // find the outstanding request this reply answers
        let found = self.find_match(p);
        let ti: usize = match found {
            Some(ti) => ti,
            None => {
                return Err(BtError::UnexpectedBlock);
            },
        };
        let j: usize = self.outstanding[ti];
        if self.plan[j].length as usize != p.block.len() {
            // the one candidate has the wrong length: every other
            // outstanding entry names a different block
            proof {
                assert forall|t: int|
                    0 <= t < self.outstanding@.len() && req_matches(
                        self.plan@[(#[trigger] self.outstanding@[t]) as int],
                        *p,
                    ) implies self.outstanding@[t] == j by {
                    let j2 = self.outstanding@[t] as int;
                    if j2 != j {
                        assert(self.plan@[j2].index == self.plan@[j as int].index
                            && self.plan@[j2].begin == self.plan@[j as int].begin);
                    }
                }
            }
            return Err(BtError::UnexpectedBlock);
        }
        proof {
            assert((p.index as int) < piece_count_of(
                self.out@.len() as int,
                self.piece_length as int,
            ));
        }
        let ghost o = *self;
        proof {
            let rq = self.plan@[j as int];
            assert((rq.index as int) * (self.piece_length as int) + rq.begin + rq.length
                <= self.out@.len());
            assert((p.index as int) * (self.piece_length as int) + p.begin + p.block@.len()
                <= self.out@.len());
        }
        // place the block at its absolute offset
        let cap: usize = self.out.len();
        let offset: usize = (p.index as usize) * self.piece_length + (p.begin as usize);
        let blen: usize = p.block.len();
        let mut b: usize = 0;
        while b < blen
            invariant
                b <= blen,
                blen == p.block@.len(),
                offset + blen <= self.out@.len(),
                self.out@.len() <= usize::MAX,
                self.out@.len() == o.out@.len(),
                self.plan@ == o.plan@,
                self.next == o.next,
                self.outstanding@ == o.outstanding@,
                self.answered@ == o.answered@,
                self.window == o.window,
                self.piece_length == o.piece_length,
                self.hashes@ == o.hashes@,
                self.piece_remaining@ == o.piece_remaining@,
                forall|idx: int|
                    0 <= idx < self.out@.len() ==> #[trigger] self.out@[idx] == (if offset <= idx
                        < offset + b {
                        p.block@[idx - offset]
                    } else {
                        o.out@[idx]
                    }),
            decreases blen - b,
        {
            self.out.set(offset + b, p.block[b]);
            b = b + 1;
        }
        proof {
            assert(self.out@ =~= write_at(o.out@, offset as int, p.block@));
        }
        // retire the answered request
        self.answered.set(j, true);
        self.outstanding.remove(ti);
        proof {
            o.outstanding@.remove_ensures(ti as int);
            assert forall|t1: int, t2: int|
                0 <= t1 < t2 < self.outstanding@.len() implies self.outstanding@[t1]
                != self.outstanding@[t2] by {
                let u1 = if t1 < ti {
                    t1
                } else {
                    t1 + 1
                };
                let u2 = if t2 < ti {
                    t2
                } else {
                    t2 + 1
                };
                assert(self.outstanding@[t1] == o.outstanding@[u1]);
                assert(self.outstanding@[t2] == o.outstanding@[u2]);
            }
            assert forall|t: int|
                0 <= t < self.outstanding@.len() implies !(#[trigger] self.answered@[
            self.outstanding@[t] as int]) by {
                let u = if t < ti {
                    t
                } else {
                    t + 1
                };
                assert(self.outstanding@[t] == o.outstanding@[u]);
                assert(u != ti);
                assert(o.outstanding@[u] != o.outstanding@[ti as int]);
            }
        }
        // the piece is missing this block no longer
        let pidx: usize = p.index as usize;
        proof {
            lemma_sum_unanswered_elem(o.plan@, o.answered@, j as int);
        }
        let rem0: usize = self.piece_remaining[pidx];
        let rem: usize = rem0 - blen;
        self.piece_remaining.set(pidx, rem);
        proof {
            assert forall|q: int| true implies sum_unanswered(
                self.plan@,
                self.answered@,
                q,
            ) == sum_unanswered(o.plan@, o.answered@, q) - (if o.plan@[j as int].index == q {
                o.plan@[j as int].length as int
            } else {
                0
            }) by {
                lemma_sum_unanswered_update(o.plan@, o.answered@, j as int, q);
            }
            // the invariant holds again before any new request is issued
            assert forall|j2: int|
                0 <= j2 < self.next && !(#[trigger] self.answered@[j2]) implies exists|t: int|
                0 <= t < self.outstanding@.len() && (#[trigger] self.outstanding@[t]) == j2 by {
                let t0 = choose|t0: int|
                    0 <= t0 < o.outstanding@.len() && (#[trigger] o.outstanding@[t0]) == j2;
                let tn = if t0 < ti {
                    t0
                } else {
                    t0 - 1
                };
                assert(t0 != ti);
                assert(self.outstanding@[tn] == j2);
            }
        }
        let ghost mid = *self;
        // the block that completes its piece triggers the hash check
        let mut completed: Option<u32> = None;
        if rem == 0 {
            let count = self.hashes.len();
            proof {
                lemma_piece_region(
                    self.out@.len() as int,
                    self.piece_length as int,
                    pidx as int,
                );
            }
            let start: usize = pidx * self.piece_length;
            let psize: usize = if pidx + 1 < count {
                self.piece_length
            } else {
                self.out.len() - (count - 1) * self.piece_length
            };
            let region = crate::bencode::bytes_slice(&self.out, start, psize);
            let digest = sha1_digest(&region);
            if !crate::bencode::bytes_eq(&digest, &self.hashes[pidx]) {
                proof {
                    assert(block_transition(*old(self), *self, *p, ti as int, false));
                }
                return Err(BtError::PieceHashMismatch { piece_index: p.index });
            }
            completed = Some(p.index);
        }
        // keep the window full while the plan lasts
        let next_request: Option<Request> = if self.next < self.plan.len() {
            let rq = self.plan[self.next];
            self.outstanding.push(self.next);
            self.next = self.next + 1;
            proof {
                assert forall|j2: int|
                    0 <= j2 < self.next && !(#[trigger] self.answered@[j2]) implies exists|t: int|
                    0 <= t < self.outstanding@.len() && (#[trigger] self.outstanding@[t])
                        == j2 by {
                    if j2 == mid.next {
                        assert(self.outstanding@[self.outstanding@.len() - 1] == j2);
                    } else {
                        let t0 = choose|t0: int|
                            0 <= t0 < mid.outstanding@.len() && (#[trigger] mid.outstanding@[t0])
                                == j2;
                        assert(self.outstanding@[t0] == j2);
                    }
                }
            }
            proof {
                assert(block_transition(*old(self), *self, *p, ti as int, true));
            }
            Some(rq)
        } else {
            proof {
                assert(block_transition(*old(self), *self, *p, ti as int, false));
            }
            None
        };
        Ok(BlockDone { offset, next_request, piece_completed: completed })
    }
}


/// In a full plan, piece indices never fall, and within one piece each
/// later block begins at or after the end of each earlier one.
pub proof fn lemma_plan_monotone(plan: Seq<Request>, total: int, pl: int, j1: int, j2: int)
    requires
        plan_entries_wf(plan, total, pl),
        plan_adjacent(plan, total, pl),
        0 <= j1 < j2 < plan.len(),
    ensures
        plan[j1].index <= plan[j2].index,
        plan[j1].index == plan[j2].index ==> plan[j2].begin >= plan[j1].begin + plan[j1].length,
    decreases j2 - j1,
{
    if j2 == j1 + 1 {
        assert(plan_adjacent(plan, total, pl));
        let a = plan[j1];
        let b = plan[j2];
        if a.begin + a.length < piece_size_of(total, pl, a.index as int) {
            assert(b.index == a.index && b.begin == a.begin + a.length);
        } else {
            assert(b.index == a.index + 1 && b.begin == 0);
        }
    } else {
        lemma_plan_monotone(plan, total, pl, j1, j2 - 1);
        lemma_plan_monotone(plan, total, pl, j2 - 1, j2);
    }
}

/// Two distinct entries of a full plan write disjoint byte ranges of the
/// output stream. With `lemma_disjoint_writes_commute`, the blocks of
/// any two outstanding requests may land in either order and leave the
/// same stream: the window tolerates any permutation of its replies.
pub proof fn lemma_plan_ranges_disjoint(plan: Seq<Request>, total: int, pl: int, j1: int, j2: int)
    requires
        plan_entries_wf(plan, total, pl),
        plan_adjacent(plan, total, pl),
        pl >= 1,
        0 <= j1 < plan.len(),
        0 <= j2 < plan.len(),
        j1 != j2,
    ensures
        ({
            let a = plan[j1];
            let b = plan[j2];
            let o1 = (a.index as int) * pl + a.begin;
            let o2 = (b.index as int) * pl + b.begin;
            o1 + a.length <= o2 || o2 + b.length <= o1
        }),
{
    let lo = if j1 < j2 {
        j1
    } else {
        j2
    };
    let hi = if j1 < j2 {
        j2
    } else {
        j1
    };
    lemma_plan_monotone(plan, total, pl, lo, hi);
    let a = plan[lo];
    let b = plan[hi];
    if a.index == b.index {
        assert((a.index as int) * pl + a.begin + a.length <= (b.index as int) * pl + b.begin);
    } else {
        assert(a.index < b.index);
        lemma_piece_size_bounds(total, pl, a.index as int);
        assert(a.begin + a.length <= piece_size_of(total, pl, a.index as int));
        assert(piece_size_of(total, pl, a.index as int) <= pl);
        assert(((a.index as int) + 1) * pl <= (b.index as int) * pl) by (nonlinear_arith)
            requires
                (a.index as int) + 1 <= b.index as int,
                pl >= 1,
        ;
        assert((a.index as int) * pl + pl == ((a.index as int) + 1) * pl) by (nonlinear_arith);
    }
}

} // verus!
