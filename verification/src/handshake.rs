//! The fixed 68-byte handshake prologue, and the block request record.
use vstd::prelude::*;

use crate::BtError;
use crate::message::be32_bytes;
use crate::torrent::Torrent;
use crate::torrent::info_bytes;
use crate::torrent::peer_id_bytes;
use crate::torrent::sha1_of;

verus! {

/// The 19 ASCII bytes of "BitTorrent protocol".
pub open spec fn protocol_bytes() -> Seq<u8> {
    seq![
        66u8, 105, 116, 84, 111, 114, 114, 101, 110, 116, 32, 112, 114, 111, 116, 111, 99, 111,
        108,
    ]
}

/// The protocol string as a fresh byte vector.
pub fn protocol_vec() -> (r: Vec<u8>)
    ensures
        r@ == protocol_bytes(),
{
    let r: Vec<u8> = vec![
        66u8, 105, 116, 84, 111, 114, 114, 101, 110, 116, 32, 112, 114, 111, 116, 111, 99, 111,
        108,
    ];
    proof {
        assert(r@ =~= protocol_bytes());
    }
    r
}

/// The handshake record: length byte 19, the protocol string, eight
/// reserved bytes, the info-hash, and the peer id.
#[derive(Debug)]
pub struct Handshake {
    pub length: u8,
    pub bittorrent: Vec<u8>,
    pub reserved: Vec<u8>,
    pub info_hash: Vec<u8>,
    pub peer_id: Vec<u8>,
}

/// The 68 bytes a handshake serializes to.
pub open spec fn hs_bytes(h: Handshake) -> Seq<u8> {
    seq![h.length] + h.bittorrent@ + h.reserved@ + h.info_hash@ + h.peer_id@
}

impl Handshake {
    /// The record has its fixed layout: length byte 19, the protocol
    /// string, eight reserved bytes, and 20-byte hash and id fields.
    pub open spec fn wf(&self) -> bool {
        &&& self.length == 19
        &&& self.bittorrent@ == protocol_bytes()
        &&& self.reserved@.len() == 8
        &&& self.info_hash@.len() == 20
        &&& self.peer_id@.len() == 20
    }

    /// The outbound handshake for a torrent: protocol prologue, zeroed
    /// reserved bytes, the torrent's info-hash, this client's peer id.
    pub fn new(torrent: &Torrent) -> (r: Handshake)
        requires
            torrent.wf(),
        ensures
            r.wf(),
            r.reserved@ == seq![0u8, 0, 0, 0, 0, 0, 0, 0],
            r.info_hash@ == sha1_of(info_bytes(torrent.info)),
            r.peer_id@ == peer_id_bytes(),
    {
        let reserved: Vec<u8> = vec![0u8, 0, 0, 0, 0, 0, 0, 0];
        proof {
            assert(reserved@ =~= seq![0u8, 0, 0, 0, 0, 0, 0, 0]);
        }
        Handshake {
            length: 19,
            bittorrent: protocol_vec(),
            reserved,
            info_hash: torrent.info_hash(),
            peer_id: torrent.peer_id(),
        }
    }

    /// Serializes the 68-byte prologue: `0x13`, "BitTorrent protocol",
    /// the reserved bytes, the info-hash, then the peer id.
    pub fn to_bytes(&self) -> (r: Vec<u8>)
        requires
            self.wf(),
        ensures
            r@ == hs_bytes(*self),
            r@.len() == 68,
            r@[0] == 19,
            r@.subrange(1, 20) == protocol_bytes(),
            r@.subrange(20, 28) == self.reserved@,
            r@.subrange(28, 48) == self.info_hash@,
            r@.subrange(48, 68) == self.peer_id@,
    {
        let mut out: Vec<u8> = Vec::new();
        out.push(self.length);
        out.extend_from_slice(self.bittorrent.as_slice());
        out.extend_from_slice(self.reserved.as_slice());
        out.extend_from_slice(self.info_hash.as_slice());
        out.extend_from_slice(self.peer_id.as_slice());
        proof {
            assert(out@ =~= hs_bytes(*self));
            assert(out@.subrange(1, 20) =~= self.bittorrent@);
            assert(out@.subrange(20, 28) =~= self.reserved@);
            assert(out@.subrange(28, 48) =~= self.info_hash@);
            assert(out@.subrange(48, 68) =~= self.peer_id@);
        }
        out
    }

    /// Validates a peer's 68 reply bytes: exactly 68 bytes beginning
    /// with length byte 19 and the protocol string, and carrying the
    /// expected info-hash. Anything else is `HandshakeRejected`. The
    /// peer's id is recorded, not validated.
    pub fn from_bytes(bytes: &Vec<u8>, expected_info_hash: &Vec<u8>) -> (r: Result<
        Handshake,
        BtError,
    >)
        ensures
            match r {
                Ok(h) => {
                    &&& bytes@.len() == 68
                    &&& bytes@[0] == 19
                    &&& bytes@.subrange(1, 20) == protocol_bytes()
                    &&& bytes@.subrange(28, 48) == expected_info_hash@
                    &&& h.wf()
                    &&& h.reserved@ == bytes@.subrange(20, 28)
                    &&& h.info_hash@ == bytes@.subrange(28, 48)
                    &&& h.peer_id@ == bytes@.subrange(48, 68)
                },
                Err(e) => {
                    &&& e is HandshakeRejected
                    &&& !(bytes@.len() == 68 && bytes@[0] == 19 && bytes@.subrange(1, 20)
                        == protocol_bytes() && bytes@.subrange(28, 48) == expected_info_hash@)
                },
            },
    {
        if bytes.len() != 68 {
            return Err(BtError::HandshakeRejected);
        }
        if bytes[0] != 19 {
            return Err(BtError::HandshakeRejected);
        }
        let proto = crate::bencode::bytes_slice(bytes, 1, 19);
        let expected_proto = protocol_vec();
        if !crate::bencode::bytes_eq(&proto, &expected_proto) {
            return Err(BtError::HandshakeRejected);
        }
        let reserved = crate::bencode::bytes_slice(bytes, 20, 8);
        let info_hash = crate::bencode::bytes_slice(bytes, 28, 20);
        if !crate::bencode::bytes_eq(&info_hash, expected_info_hash) {
            return Err(BtError::HandshakeRejected);
        }
        let peer_id = crate::bencode::bytes_slice(bytes, 48, 20);
        Ok(Handshake { length: 19, bittorrent: proto, reserved, info_hash, peer_id })
    }
}

/// One block request: piece index, byte offset within the piece, and
/// block length, each carried as a big-endian 32-bit integer.
#[derive(Clone, Copy, PartialEq, Eq, Structural, Debug)]
pub struct Request {
    pub index: u32,
    pub begin: u32,
    pub length: u32,
}

impl Request {
    pub fn new(index: u32, begin: u32, length: u32) -> (r: Self)
        ensures
            r.index == index,
            r.begin == begin,
            r.length == length,
    {
        Request { index, begin, length }
    }

    pub fn index(&self) -> (r: u32)
        ensures
            r == self.index,
    {
        self.index
    }

    pub fn begin(&self) -> (r: u32)
        ensures
            r == self.begin,
    {
        self.begin
    }

    pub fn length(&self) -> (r: u32)
        ensures
            r == self.length,
    {
        self.length
    }

    /// The 12-byte wire payload of a `Request` or `Cancel` message.
    pub fn payload(&self) -> (r: Vec<u8>)
        ensures
            r@ == request_payload_bytes(*self),
            r@.len() == 12,
    {
        let mut out: Vec<u8> = Vec::new();
        crate::message::push_be32(&mut out, self.index);
        crate::message::push_be32(&mut out, self.begin);
        crate::message::push_be32(&mut out, self.length);
        proof {
            assert(out@ =~= request_payload_bytes(*self));
        }
        out
    }
}

/// The wire payload bytes of a block request.
pub open spec fn request_payload_bytes(r: Request) -> Seq<u8> {
    be32_bytes(r.index as int) + be32_bytes(r.begin as int) + be32_bytes(r.length as int)
}

} // verus!
