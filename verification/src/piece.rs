//! Block geometry: the payload of a `Piece` message, and the block
//! requests a piece splits into.
use vstd::prelude::*;

use crate::BtError;
use crate::handshake::Request;
use crate::message::be32_val;

verus! {

/// Largest block carried by one request: 16 KiB.
pub const BLOCK_MAX: usize = 16384;

/// A decoded `Piece` message payload: piece index, byte offset of the
/// block within the piece, and the block bytes.
#[derive(Debug)]
pub struct Piece {
    pub index: u32,
    pub begin: u32,
    pub block: Vec<u8>,
}

impl Piece {
    /// Reads a `Piece` payload: two big-endian 32-bit integers, then the
    /// block. Payloads shorter than the 8-byte header are rejected.
    pub fn from_payload(payload: &Vec<u8>) -> (r: Result<Piece, BtError>)
        ensures
            match r {
                Ok(p) => {
                    &&& payload@.len() >= 8
                    &&& p.index as int == be32_val(payload@.subrange(0, 4))
                    &&& p.begin as int == be32_val(payload@.subrange(4, 8))
                    &&& p.block@ == payload@.skip(8)
                },
                Err(e) => payload@.len() < 8 && e is TruncatedStream,
            },
    {
        if payload.len() < 8 {
            return Err(BtError::TruncatedStream);
        }
        let index = crate::message::read_u32(payload, 0);
        let begin = crate::message::read_u32(payload, 4);
        let block = crate::bencode::bytes_slice(payload, 8, payload.len() - 8);
        proof {
            assert(payload@.subrange(8, payload@.len() as int) =~= payload@.skip(8));
        }
        Ok(Piece { index, begin, block })
    }

    pub fn index(&self) -> (r: u32)
        ensures
            r == self.index,
    {
        self.index
    }

    pub fn begin(&self) -> (r: u32)
        ensures
            r == self.begin,
    {
        self.begin
    }

    pub fn block(&self) -> (r: &Vec<u8>)
        ensures
            r@ == self.block@,
    {
        &self.block
    }
}

/// How many blocks a piece of `size` bytes splits into.
pub open spec fn block_count_of(size: int) -> int {
    if size == 0 {
        0
    } else {
        (size - 1) / (BLOCK_MAX as int) + 1
    }
}

/// The length of block `k` of a piece of `size` bytes: the full block
/// size for every block but the last, the positive remainder for the
/// last.
pub open spec fn block_len_of(size: int, k: int) -> int {
    if k + 1 < block_count_of(size) {
        BLOCK_MAX as int
    } else {
        size - k * (BLOCK_MAX as int)
    }
}

/// Blocks cover the piece: each starts below `size` and ends within it,
/// with a length in `(0, BLOCK_MAX]`.
pub proof fn lemma_block_bounds(size: int, k: int)
    requires
        0 <= k < block_count_of(size),
    ensures
        1 <= block_len_of(size, k) <= BLOCK_MAX,
        k * (BLOCK_MAX as int) + block_len_of(size, k) <= size,
        k * (BLOCK_MAX as int) < size,
{
    let bm = BLOCK_MAX as int;
    let count = block_count_of(size);
    assert(size > 0);
    let q = (size - 1) / bm;
    assert(count == q + 1);
    vstd::arithmetic::div_mod::lemma_fundamental_div_mod(size - 1, bm);
    vstd::arithmetic::div_mod::lemma_mod_bound(size - 1, bm);
    assert(bm * q <= size - 1);
    assert(size - 1 < bm * q + bm);
    if k + 1 < count {
        assert(k + 1 <= q);
        assert((k + 1) * bm <= q * bm) by (nonlinear_arith)
            requires
                k + 1 <= q,
                bm > 0,
        ;
        assert(q * bm == bm * q) by (nonlinear_arith);
        assert((k + 1) * bm == k * bm + bm) by (nonlinear_arith);
    } else {
        assert(k == q);
        assert(k * bm == bm * q) by (nonlinear_arith)
            requires
                k == q,
        ;
    }
}

/// One piece of the torrent, with its expected digest and the block
/// split derived from its size.
pub struct PieceChunked {
    pub index: usize,
    pub hash: Vec<u8>,
    pub size: usize,
    pub number_of_blocks: usize,
}

impl PieceChunked {
    /// Builds the block split of a piece: `ceil(size / BLOCK_MAX)`
    /// blocks.
    pub fn new(index: usize, hash: Vec<u8>, size: usize) -> (r: Self)
        ensures
            r.index == index,
            r.hash@ == hash@,
            r.size == size,
            r.number_of_blocks as int == block_count_of(size as int),
    {
        let number_of_blocks: usize = if size == 0 {
            0
        } else {
            (size - 1) / BLOCK_MAX + 1
        };
        PieceChunked { index, hash, size, number_of_blocks }
    }

    /// The block requests of this piece, in ascending offset order: each
    /// begins at `k * BLOCK_MAX` and carries `BLOCK_MAX` bytes, except
    /// the last, which carries the positive remainder.
    pub fn block_requests(&self) -> (r: Vec<Request>)
        requires
            self.index <= u32::MAX,
            self.size <= u32::MAX,
            self.number_of_blocks as int == block_count_of(self.size as int),
        ensures
            r@.len() == block_count_of(self.size as int),
            forall|k: int|
                0 <= k < r@.len() ==> #[trigger] r@[k] == (Request {
                    index: self.index as u32,
                    begin: (k * (BLOCK_MAX as int)) as u32,
                    length: block_len_of(self.size as int, k) as u32,
                }),
    {
        let mut out: Vec<Request> = Vec::new();
        let mut k: usize = 0;
        while k < self.number_of_blocks
            invariant
                k <= self.number_of_blocks,
                self.index <= u32::MAX,
                self.size <= u32::MAX,
                self.number_of_blocks as int == block_count_of(self.size as int),
                out@.len() == k,
                forall|j: int|
                    0 <= j < k ==> #[trigger] out@[j] == (Request {
                        index: self.index as u32,
                        begin: (j * (BLOCK_MAX as int)) as u32,
                        length: block_len_of(self.size as int, j) as u32,
                    }),
            decreases self.number_of_blocks - k,
        {
            proof {
                lemma_block_bounds(self.size as int, k as int);
            }
            let begin: usize = k * BLOCK_MAX;
            let length: usize = if k + 1 < self.number_of_blocks {
                BLOCK_MAX
            } else {
                self.size - begin
            };
            out.push(Request::new(self.index as u32, begin as u32, length as u32));
            k = k + 1;
        }
        out
    }
}

} // verus!
