//! The peer session state machine: interest and choking, the peer's
//! bitfield, and what each inbound message does to the state.
use vstd::prelude::*;

use crate::BtError;
use crate::message::Message;
use crate::message::MessageTag;
use crate::message::be32_val;

verus! {

/// Bytes a bitfield must have for `n` pieces: one bit per piece, padded
/// to whole bytes.
pub open spec fn bitfield_len(n: int) -> int {
    (n + 7) / 8
}

/// Whether the bitfield claims piece `i`, bits MSB-first.
pub open spec fn has_piece_spec(bitfield: Seq<u8>, i: int) -> bool {
    (bitfield[i / 8] >> (7 - (i % 8)) as u8) & 1 == 1
}

/// What the data phase does with one inbound message.
#[derive(Clone, Copy, PartialEq, Eq, Structural, Debug)]
pub enum SessionAction {
    /// Absorbed by the session; nothing for the caller to do.
    Handled,
    /// A `Piece` payload for the block pipeline.
    Deliver,
}

/// One peer's session: interest, choking, and the pieces the peer
/// claims. Starts uninterested, choked, with an empty bitfield.
pub struct PeerSession {
    pub am_interested: bool,
    pub peer_choking: bool,
    pub bitfield: Vec<u8>,
    pub num_pieces: usize,
}

impl PeerSession {
    /// The bitfield is either still empty or exactly sized for the
    /// torrent's piece count.
    pub open spec fn wf(&self) -> bool {
        self.bitfield@.len() == 0 || self.bitfield@.len() == bitfield_len(self.num_pieces as int)
    }

    /// A fresh session: uninterested, choked by the peer, no bitfield.
    pub fn new(num_pieces: usize) -> (r: PeerSession)
        ensures
            r.am_interested == false,
            r.peer_choking == true,
            r.bitfield@.len() == 0,
            r.num_pieces == num_pieces,
            r.wf(),
    {
        PeerSession { am_interested: false, peer_choking: true, bitfield: Vec::new(), num_pieces }
    }

    /// Accepts the peer's bitfield: exactly `ceil(pieces / 8)` bytes, no
    /// more and no fewer; any other length is a protocol violation and
    /// leaves the session unchanged.
    pub fn recv_bitfield(&mut self, payload: &Vec<u8>) -> (r: Result<(), BtError>)
        ensures
            match r {
                Ok(_) => {
                    &&& payload@.len() == bitfield_len(old(self).num_pieces as int)
                    &&& final(self).bitfield@ == payload@
                    &&& final(self).am_interested == old(self).am_interested
                    &&& final(self).peer_choking == old(self).peer_choking
                    &&& final(self).num_pieces == old(self).num_pieces
                },
                Err(e) => {
                    &&& e is ProtocolViolation
                    &&& payload@.len() != bitfield_len(old(self).num_pieces as int)
                    &&& *final(self) == *old(self)
                },
            },
    {
        let expected: usize = if self.num_pieces > usize::MAX - 7 {
            self.num_pieces / 8 + 1
        } else {
            (self.num_pieces + 7) / 8
        };
        proof {
            if self.num_pieces > usize::MAX - 7 {
                assert(self.num_pieces as int / 8 + 1 == (self.num_pieces + 7) / 8);
            }
        }
        if payload.len() != expected {
            return Err(BtError::ProtocolViolation);
        }
        self.bitfield = crate::bencode::bytes_copy(payload);
        Ok(())
    }

    /// Marks this side interested and hands back the `Interested`
    /// message to send.
    pub fn send_interested(&mut self) -> (r: Message)
        ensures
            final(self).am_interested == true,
            final(self).peer_choking == old(self).peer_choking,
            final(self).bitfield@ == old(self).bitfield@,
            final(self).num_pieces == old(self).num_pieces,
            r.tag == MessageTag::Interested,
            r.payload@.len() == 0,
    {
        self.am_interested = true;
        Message { tag: MessageTag::Interested, payload: Vec::new() }
    }

    /// Takes the peer's `Unchoke`; any other tag, or a non-empty
    /// payload, is a protocol violation and leaves the session unchanged.
    pub fn recv_unchoke(&mut self, m: &Message) -> (r: Result<(), BtError>)
        ensures
            match r {
                Ok(_) => {
                    &&& m.tag == MessageTag::Unchoke
                    &&& m.payload@.len() == 0
                    &&& final(self).peer_choking == false
                    &&& final(self).am_interested == old(self).am_interested
                    &&& final(self).bitfield@ == old(self).bitfield@
                    &&& final(self).num_pieces == old(self).num_pieces
                },
                Err(e) => {
                    &&& e is ProtocolViolation
                    &&& !(m.tag == MessageTag::Unchoke && m.payload@.len() == 0)
                    &&& *final(self) == *old(self)
                },
            },
    {
        if !matches!(m.tag, MessageTag::Unchoke) || m.payload.len() != 0 {
            return Err(BtError::ProtocolViolation);
        }
        self.peer_choking = false;
        Ok(())
    }

    /// Whether this side may send `Request`: interested, and not choked.
    pub fn can_request(&self) -> (r: bool)
        ensures
            r == (self.am_interested && !self.peer_choking),
    {
        self.am_interested && !self.peer_choking
    }

    /// Whether the peer claims piece `i`.
    pub fn has_piece(&self, i: usize) -> (r: bool)
        requires
            (i / 8) < self.bitfield@.len(),
        ensures
            r == has_piece_spec(self.bitfield@, i as int),
    {
        let byte = self.bitfield[i / 8];
        let shift: u8 = 7 - ((i % 8) as u8);
        ((byte >> shift) & 1) == 1
    }

    /// One inbound message during the data-transfer phase. `Choke` is
    /// fatal in this client; `Have` records the piece; `Piece` is handed
    /// to the pipeline; everything else is absorbed.
    pub fn on_data_message(&mut self, m: &Message) -> (r: Result<SessionAction, BtError>)
        ensures
            match r {
                Ok(a) => {
                    &&& !(m.tag is Choke)
                    &&& (a is Deliver <==> m.tag is Piece)
                    &&& final(self).am_interested == old(self).am_interested
                    &&& final(self).peer_choking == old(self).peer_choking
                    &&& final(self).num_pieces == old(self).num_pieces
                    &&& if m.tag is Have {
                        &&& m.payload@.len() == 4
                        &&& 0 <= be32_val(m.payload@.subrange(0, 4)) < old(self).num_pieces
                        &&& {
                            let i = be32_val(m.payload@.subrange(0, 4));
                            &&& 0 <= i / 8 < old(self).bitfield@.len()
                            &&& final(self).bitfield@ == old(self).bitfield@.update(
                                i / 8,
                                old(self).bitfield@[i / 8] | (1u8 << (7 - (i % 8)) as u8),
                            )
                            &&& has_piece_spec(final(self).bitfield@, i)
                        }
                    } else {
                        final(self).bitfield@ == old(self).bitfield@
                    }
                },
                Err(e) => match m.tag {
                    MessageTag::Choke => e is ProtocolViolation && *final(self) == *old(self),
                    MessageTag::Have => {
                        &&& *final(self) == *old(self)
                        &&& (e is TruncatedStream && m.payload@.len() != 4) || (e
                            is ProtocolViolation && m.payload@.len() == 4)
                    },
                    _ => false,
                },
            },
    {
        match m.tag {
            MessageTag::Choke => Err(BtError::ProtocolViolation),
            MessageTag::Piece => Ok(SessionAction::Deliver),
            MessageTag::Have => {
                if m.payload.len() != 4 {
                    return Err(BtError::TruncatedStream);
                }
                let i32v = crate::message::read_u32(&m.payload, 0);
                let i = i32v as usize;
                if i >= self.num_pieces || i / 8 >= self.bitfield.len() {
                    return Err(BtError::ProtocolViolation);
                }
                proof {
                    assert(m.payload@.subrange(0, 4) =~= m.payload@);
                }
                let j = i / 8;
                let mask: u8 = 1u8 << ((7 - (i % 8)) as u8);
                let updated: u8 = self.bitfield[j] | mask;
                self.bitfield.set(j, updated);
                proof {
                    lemma_bitfield_set(old(self).bitfield@[i as int / 8], i as int % 8);
                }
                Ok(SessionAction::Handled)
            },
            _ => Ok(SessionAction::Handled),
        }
    }
}

/// Setting a piece's bit claims that piece and no other.
pub proof fn lemma_bitfield_set(b: u8, i: int)
    requires
        0 <= i < 8,
    ensures
        (b | (1u8 << (7 - (i % 8)) as u8)) >> (7 - (i % 8)) as u8 & 1 == 1,
{
    let s: u8 = (7 - (i % 8)) as u8;
    assert((b | (1u8 << s)) >> s & 1 == 1) by (bit_vector)
        requires
            s < 8,
    ;
}

} // verus!
