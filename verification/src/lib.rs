//! A single-torrent BitTorrent client core: bencode codec, metainfo model,
//! tracker query building and response parsing, peer-wire handshake and
//! message framing, and the sliding-window block download pipeline.
//!
//! Every algorithm and rule lives here, verified; network and file I/O is
//! left to a thin driver around this crate.
use vstd::prelude::*;

pub mod bencode;
pub mod handshake;
pub mod message;
pub mod piece;
pub mod pipeline;
pub mod session;
pub mod torrent;
pub mod tracker;

verus! {

/// Every failure the core can report. All errors are fatal at this layer:
/// nothing here retries.
#[derive(Debug, Clone)]
pub enum BtError {
    /// Decode failure at a byte offset of the input.
    MalformedBencode { at_offset: usize },
    /// The document decoded, but required keys are missing or inconsistent.
    MetainfoInvalid,
    /// The tracker answered with a `failure reason` string.
    TrackerRejected { reason: Vec<u8> },
    /// The tracker response is not a well-formed answer.
    TrackerMalformed,
    /// The peer's handshake does not match the expected prologue.
    HandshakeRejected,
    /// A frame length prefix exceeds the accepted maximum.
    FrameTooLarge { n: usize },
    /// A frame carries a tag byte outside the assigned range.
    UnknownTag { tag: u8 },
    /// A fixed-layout record is shorter than its layout requires.
    TruncatedStream,
    /// A message arrived that the session state does not allow.
    ProtocolViolation,
    /// A block reply matches no outstanding request, or has the wrong length.
    UnexpectedBlock,
    /// A completed piece does not hash to the digest the metainfo promises.
    PieceHashMismatch { piece_index: u32 },
}

} // verus!
