//! Peer-wire message framing: length-prefixed frames after the handshake,
//! keep-alive absorption, the size cap, and the tag table.
use vstd::prelude::*;

use crate::BtError;

verus! {

/// Largest accepted value of a frame's length prefix (tag plus payload).
pub const MESSAGE_MAX: usize = 65536;

/// The peer-wire message tags.
#[derive(Clone, Copy, PartialEq, Eq, Structural, Debug)]
pub enum MessageTag {
    Choke,
    Unchoke,
    Interested,
    NotInterested,
    Have,
    Bitfield,
    Request,
    Piece,
    Cancel,
}

/// The wire byte of each tag.
pub open spec fn tag_byte(t: MessageTag) -> u8 {
    match t {
        MessageTag::Choke => 0,
        MessageTag::Unchoke => 1,
        MessageTag::Interested => 2,
        MessageTag::NotInterested => 3,
        MessageTag::Have => 4,
        MessageTag::Bitfield => 5,
        MessageTag::Request => 6,
        MessageTag::Piece => 7,
        MessageTag::Cancel => 8,
    }
}

/// The tag a wire byte names; meaningful for bytes up to 8.
pub open spec fn tag_of(b: u8) -> MessageTag {
    if b == 0 {
        MessageTag::Choke
    } else if b == 1 {
        MessageTag::Unchoke
    } else if b == 2 {
        MessageTag::Interested
    } else if b == 3 {
        MessageTag::NotInterested
    } else if b == 4 {
        MessageTag::Have
    } else if b == 5 {
        MessageTag::Bitfield
    } else if b == 6 {
        MessageTag::Request
    } else if b == 7 {
        MessageTag::Piece
    } else {
        MessageTag::Cancel
    }
}

impl MessageTag {
    /// The byte this tag is framed as.
    pub fn to_byte(self) -> (r: u8)
        ensures
            r == tag_byte(self),
    {
        match self {
            MessageTag::Choke => 0,
            MessageTag::Unchoke => 1,
            MessageTag::Interested => 2,
            MessageTag::NotInterested => 3,
            MessageTag::Have => 4,
            MessageTag::Bitfield => 5,
            MessageTag::Request => 6,
            MessageTag::Piece => 7,
            MessageTag::Cancel => 8,
        }
    }

    /// Reads a tag byte; bytes outside the assigned range fail with
    /// `UnknownTag`.
    pub fn from_byte(b: u8) -> (r: Result<MessageTag, BtError>)
        ensures
            match r {
                Ok(t) => b <= 8 && tag_byte(t) == b && t == tag_of(b),
                Err(e) => b > 8 && e == (BtError::UnknownTag { tag: b }),
            },
    {
        if b == 0 {
            Ok(MessageTag::Choke)
        } else if b == 1 {
            Ok(MessageTag::Unchoke)
        } else if b == 2 {
            Ok(MessageTag::Interested)
        } else if b == 3 {
            Ok(MessageTag::NotInterested)
        } else if b == 4 {
            Ok(MessageTag::Have)
        } else if b == 5 {
            Ok(MessageTag::Bitfield)
        } else if b == 6 {
            Ok(MessageTag::Request)
        } else if b == 7 {
            Ok(MessageTag::Piece)
        } else if b == 8 {
            Ok(MessageTag::Cancel)
        } else {
            Err(BtError::UnknownTag { tag: b })
        }
    }
}

/// One framed peer-wire message.
#[derive(Debug)]
pub struct Message {
    pub tag: MessageTag,
    pub payload: Vec<u8>,
}

// ---------------------------------------------------------------------------
// Big-endian 32-bit integers.
// ---------------------------------------------------------------------------

/// The four big-endian bytes of `n`.
pub open spec fn be32_bytes(n: int) -> Seq<u8> {
    seq![
        (n / 0x1000000 % 256) as u8,
        (n / 0x10000 % 256) as u8,
        (n / 0x100 % 256) as u8,
        (n % 256) as u8,
    ]
}

/// The value four big-endian bytes carry.
pub open spec fn be32_val(s: Seq<u8>) -> int {
    s[0] * 0x1000000 + s[1] * 0x10000 + s[2] * 0x100 + s[3]
}

pub proof fn lemma_be32_roundtrip(n: int)
    requires
        0 <= n < 0x100000000,
    ensures
        be32_val(be32_bytes(n)) == n,
{
    let b0 = n / 0x1000000 % 256;
    let b1 = n / 0x10000 % 256;
    let b2 = n / 0x100 % 256;
    let b3 = n % 256;
    assert(b0 * 0x1000000 + b1 * 0x10000 + b2 * 0x100 + b3 == n) by (nonlinear_arith)
        requires
            0 <= n < 0x100000000,
            b0 == n / 0x1000000 % 256,
            b1 == n / 0x10000 % 256,
            b2 == n / 0x100 % 256,
            b3 == n % 256,
    ;
}

/// Reads the big-endian 32-bit integer at `off`.
pub fn read_u32(bytes: &Vec<u8>, off: usize) -> (r: u32)
    requires
        off + 4 <= bytes@.len(),
    ensures
        r as int == be32_val(bytes@.subrange(off as int, off + 4)),
{
    let l: usize = bytes.len();
    let r = (bytes[off] as u32) * 0x1000000 + (bytes[off + 1] as u32) * 0x10000 + (bytes[off + 2]
        as u32) * 0x100 + (bytes[off + 3] as u32);
    proof {
        let s = bytes@.subrange(off as int, off + 4);
        assert(s[0] == bytes@[off as int]);
        assert(s[1] == bytes@[off + 1]);
        assert(s[2] == bytes@[off + 2]);
        assert(s[3] == bytes@[off + 3]);
    }
    r
}

/// Appends the four big-endian bytes of `n`.
pub fn push_be32(out: &mut Vec<u8>, n: u32)
    ensures
        final(out)@ == old(out)@ + be32_bytes(n as int),
{
    out.push((n / 0x1000000 % 256) as u8);
    out.push((n / 0x10000 % 256) as u8);
    out.push((n / 0x100 % 256) as u8);
    out.push((n % 256) as u8);
    proof {
        assert(out@ =~= old(out)@ + be32_bytes(n as int));
    }
}

// ---------------------------------------------------------------------------
// Framing.
// ---------------------------------------------------------------------------

/// The wire frame of a message: big-endian length of tag plus payload,
/// the tag byte, then the payload.
pub open spec fn frame_bytes(tag: MessageTag, payload: Seq<u8>) -> Seq<u8> {
    be32_bytes(1 + payload.len() as int) + seq![tag_byte(tag)] + payload
}

/// What one decoding step yields on a given buffer.
pub enum FramerStep {
    /// Not enough bytes for a frame yet.
    NeedMore,
    /// One message, and how many buffer bytes it consumed, leading
    /// keep-alives included.
    Frame { tag: MessageTag, payload: Seq<u8>, consumed: int },
    /// The length prefix exceeds the cap.
    TooLarge { n: int },
    /// The tag byte is not assigned.
    BadTag { tag: u8 },
}

/// How many leading keep-alive bytes the decoder absorbs: 4 for every
/// zero length prefix, as long as a fifth byte shows the stream continues.
pub open spec fn ka_skip(s: Seq<u8>) -> int
    decreases s.len(),
{
    if s.len() >= 5 && be32_val(s.take(4)) == 0 {
        4 + ka_skip(s.skip(4))
    } else {
        0
    }
}

/// The one step the decoder takes on `s`: absorb keep-alives, then either
/// ask for more bytes, fail on an oversized length or unknown tag, or
/// yield exactly one message and the byte count it consumed.
pub open spec fn framer_step(s: Seq<u8>) -> FramerStep {
    let k = ka_skip(s);
    let t = s.skip(k);
    if t.len() < 5 {
        FramerStep::NeedMore
    } else {
        let n = be32_val(t.take(4));
        if n > MESSAGE_MAX {
            FramerStep::TooLarge { n }
        } else if 4 + n > t.len() {
            FramerStep::NeedMore
        } else if t[4] > 8 {
            FramerStep::BadTag { tag: t[4] }
        } else {
            FramerStep::Frame {
                tag: tag_of(t[4]),
                payload: t.subrange(5, 4 + n),
                consumed: k + 4 + n,
            }
        }
    }
}

pub proof fn lemma_ka_skip_bounds(s: Seq<u8>)
    ensures
        0 <= ka_skip(s) <= s.len(),
        ka_skip(s) % 4 == 0,
    decreases s.len(),
{
    if s.len() >= 5 && be32_val(s.take(4)) == 0 {
        lemma_ka_skip_bounds(s.skip(4));
    }
}

/// The length-prefixed framer. Stateless: each call reads one frame off
/// the front of the caller's buffer.
pub struct MessageFramer;

impl MessageFramer {
    /// Incremental decoding: absorbs leading keep-alives, then returns at
    /// most one fully framed message together with the total number of
    /// buffer bytes consumed, or `None` when more bytes must arrive
    /// first. Oversized frames and unknown tags fail. The result is
    /// exactly `framer_step` of the buffer.
    pub fn decode(src: &Vec<u8>) -> (r: Result<Option<(Message, usize)>, BtError>)
        ensures
            match r {
                Ok(None) => framer_step(src@) is NeedMore,
                Ok(Some((m, used))) => framer_step(src@) == (FramerStep::Frame {
                    tag: m.tag,
                    payload: m.payload@,
                    consumed: used as int,
                }),
                Err(e) => match e {
                    BtError::FrameTooLarge { n } => framer_step(src@) == (FramerStep::TooLarge {
                        n: n as int,
                    }),
                    BtError::UnknownTag { tag } => framer_step(src@) == (FramerStep::BadTag {
                        tag,
                    }),
                    _ => false,
                },
            },
    {
        let mut pos: usize = 0;
        proof {
            assert(src@.skip(0) =~= src@);
        }
        loop
            invariant
                pos <= src@.len(),
                ka_skip(src@) == pos + ka_skip(src@.skip(pos as int)),
                framer_step(src@) == framer_step_shift(src@, pos as int),
            decreases src@.len() - pos,
        {
            if src.len() - pos < 5 {
                proof {
                    assert(ka_skip(src@.skip(pos as int)) == 0);
                    assert(src@.skip(ka_skip(src@)) =~= src@.skip(pos as int));
                }
                return Ok(None);
            }
            let n32 = read_u32(src, pos);
            proof {
                assert(src@.skip(pos as int).take(4) =~= src@.subrange(pos as int, pos + 4));
            }
            if n32 == 0 {
                proof {
                    let s1 = src@.skip(pos as int);
                    let s2 = src@.skip(pos + 4);
                    assert(be32_val(s1.take(4)) == 0);
                    assert(s2 =~= s1.skip(4));
                    lemma_ka_skip_bounds(s2);
                    assert(ka_skip(s1) == 4 + ka_skip(s2));
                    assert(s1.skip(ka_skip(s1)) =~= s2.skip(ka_skip(s2)));
                    assert(framer_step_shift(src@, pos as int) == framer_step_shift(
                        src@,
                        pos + 4,
                    ));
                }
                pos = pos + 4;
                continue ;
            }
            proof {
                assert(ka_skip(src@.skip(pos as int)) == 0);
                assert(src@.skip(ka_skip(src@)) =~= src@.skip(pos as int));
            }
            let n = n32 as usize;
            if n > MESSAGE_MAX {
                return Err(BtError::FrameTooLarge { n });
            }
            if n > src.len() - pos - 4 {
                return Ok(None);
            }
            let tag_b = src[pos + 4];
            proof {
                assert(src@.skip(pos as int)[4] == src@[pos + 4]);
            }
            let tag = match MessageTag::from_byte(tag_b) {
                Ok(t) => t,
                Err(e) => {
                    return Err(e);
                },
            };
            let payload = crate::bencode::bytes_slice(src, pos + 5, n - 1);
            proof {
                assert(src@.skip(pos as int).subrange(5, 4 + n as int) =~= src@.subrange(
                    pos + 5,
                    pos + 4 + n as int,
                ));
            }
            return Ok(Some((Message { tag, payload }, pos + 4 + n)));
        }
    }

    /// Frames one message onto `dst`: the length prefix `1 + payload`,
    /// the tag byte, then the payload. Refuses a message whose tag and
    /// payload together exceed the cap, leaving `dst` unchanged.
    pub fn encode(item: &Message, dst: &mut Vec<u8>) -> (r: Result<(), BtError>)
        ensures
            match r {
                Ok(_) => 1 + item.payload@.len() <= MESSAGE_MAX && final(dst)@ == old(dst)@
                    + frame_bytes(item.tag, item.payload@),
                Err(e) => 1 + item.payload@.len() > MESSAGE_MAX && e == (BtError::FrameTooLarge {
                    n: if item.payload@.len() < usize::MAX {
                        (1 + item.payload@.len()) as usize
                    } else {
                        usize::MAX
                    },
                }) && final(dst)@ == old(dst)@,
            },
    {
        if item.payload.len() >= MESSAGE_MAX {
            let n: usize = if item.payload.len() < usize::MAX {
                item.payload.len() + 1
            } else {
                usize::MAX
            };
            return Err(BtError::FrameTooLarge { n });
        }
        let n: u32 = (item.payload.len() + 1) as u32;
        push_be32(dst, n);
        dst.push(item.tag.to_byte());
        dst.extend_from_slice(item.payload.as_slice());
        proof {
            assert(dst@ =~= old(dst)@ + frame_bytes(item.tag, item.payload@));
        }
        Ok(())
    }
}

/// `framer_step` on the suffix at `pos`, with consumed counts shifted
/// back to the whole buffer; the decoder's loop invariant.
pub open spec fn framer_step_shift(s: Seq<u8>, pos: int) -> FramerStep {
    match framer_step(s.skip(pos)) {
        FramerStep::Frame { tag, payload, consumed } => FramerStep::Frame {
            tag,
            payload,
            consumed: consumed + pos,
        },
        other => other,
    }
}

/// Decoding inverts framing: a legal frame at the head of any stream
/// decodes to exactly its own tag and payload, consuming exactly its own
/// bytes. With `framer_step` a function of the buffer, every buffer has
/// one determined outcome: a message with its exact length, a need for
/// more bytes, or a definite failure.
pub proof fn lemma_frame_roundtrip(tag: MessageTag, payload: Seq<u8>, rest: Seq<u8>)
    requires
        1 + payload.len() <= MESSAGE_MAX,
    ensures
        framer_step(frame_bytes(tag, payload) + rest) == (FramerStep::Frame {
            tag,
            payload,
            consumed: 5 + payload.len() as int,
        }),
{
    let s = frame_bytes(tag, payload) + rest;
    let n = 1 + payload.len() as int;
    lemma_be32_roundtrip(n);
    assert(s.take(4) =~= be32_bytes(n));
    assert(be32_val(s.take(4)) == n);
    assert(s.len() >= 5);
    assert(ka_skip(s) == 0);
    assert(s.skip(0) =~= s);
    assert(s[4] == tag_byte(tag));
    assert(tag_of(tag_byte(tag)) == tag);
    assert(s.subrange(5, 4 + n) =~= payload);
}

} // verus!
