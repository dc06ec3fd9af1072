//! The tracker exchange at its interface: the announce URL with its query
//! string, and the bencoded response with the compact peer list.
use vstd::prelude::*;

use crate::BtError;
use crate::bencode::Bencode;
use crate::bencode::dec_digits;
use crate::bencode::dict_find;
use crate::bencode::push_digits;
use crate::torrent::Torrent;
use crate::torrent::get_bytes;
use crate::torrent::get_int;
use crate::torrent::info_bytes;
use crate::torrent::peer_id_bytes;
use crate::torrent::sha1_of;
use crate::torrent::total_len_int;

verus! {

/// "interval"
pub open spec fn k_interval() -> Seq<u8> {
    seq![105u8, 110, 116, 101, 114, 118, 97, 108]
}

/// "peers"
pub open spec fn k_peers() -> Seq<u8> {
    seq![112u8, 101, 101, 114, 115]
}

/// "failure reason"
pub open spec fn k_failure_reason() -> Seq<u8> {
    seq![102u8, 97, 105, 108, 117, 114, 101, 32, 114, 101, 97, 115, 111, 110]
}

pub fn key_interval() -> (r: Vec<u8>)
    ensures
        r@ == k_interval(),
{
    let r: Vec<u8> = vec![105u8, 110, 116, 101, 114, 118, 97, 108];
    proof {
        assert(r@ =~= k_interval());
    }
    r
}

pub fn key_peers() -> (r: Vec<u8>)
    ensures
        r@ == k_peers(),
{
    let r: Vec<u8> = vec![112u8, 101, 101, 114, 115];
    proof {
        assert(r@ =~= k_peers());
    }
    r
}

pub fn key_failure_reason() -> (r: Vec<u8>)
    ensures
        r@ == k_failure_reason(),
{
    let r: Vec<u8> = vec![102u8, 97, 105, 108, 117, 114, 101, 32, 114, 101, 97, 115, 111, 110];
    proof {
        assert(r@ =~= k_failure_reason());
    }
    r
}

// ---------------------------------------------------------------------------
// The announce URL.
// ---------------------------------------------------------------------------

/// The lowercase hex digit of a nibble.
pub open spec fn hex_digit(n: u8) -> u8 {
    if n < 10 {
        (48 + n) as u8
    } else {
        (87 + n) as u8
    }
}

/// A byte that travels unescaped in a query value.
pub open spec fn is_unreserved(b: u8) -> bool {
    ||| 48 <= b <= 57
    ||| 65 <= b <= 90
    ||| 97 <= b <= 122
    ||| b == 45
    ||| b == 46
    ||| b == 95
    ||| b == 126
}

/// Percent-escaping that keeps unreserved bytes.
pub open spec fn pct(bytes: Seq<u8>) -> Seq<u8>
    decreases bytes.len(),
{
    if bytes.len() == 0 {
        Seq::empty()
    } else {
        (if is_unreserved(bytes[0]) {
            seq![bytes[0]]
        } else {
            seq![37u8, hex_digit(bytes[0] / 16), hex_digit(bytes[0] % 16)]
        }) + pct(bytes.drop_first())
    }
}

/// Percent-escaping of every byte, unconditionally: `%HH` for each.
pub open spec fn pct_all(bytes: Seq<u8>) -> Seq<u8>
    decreases bytes.len(),
{
    if bytes.len() == 0 {
        Seq::empty()
    } else {
        seq![37u8, hex_digit(bytes[0] / 16), hex_digit(bytes[0] % 16)] + pct_all(
            bytes.drop_first(),
        )
    }
}

pub proof fn lemma_pct_push(bytes: Seq<u8>, b: u8)
    ensures
        pct(bytes.push(b)) == pct(bytes) + (if is_unreserved(b) {
            seq![b]
        } else {
            seq![37u8, hex_digit(b / 16), hex_digit(b % 16)]
        }),
    decreases bytes.len(),
{
    if bytes.len() == 0 {
        assert(bytes.push(b).drop_first() =~= Seq::<u8>::empty());
        assert(bytes.push(b)[0] == b);
        assert(pct(Seq::<u8>::empty()) == Seq::<u8>::empty());
        assert(pct(bytes.push(b)) =~= pct(bytes) + (if is_unreserved(b) {
            seq![b]
        } else {
            seq![37u8, hex_digit(b / 16), hex_digit(b % 16)]
        }));
    } else {
        lemma_pct_push(bytes.drop_first(), b);
        assert(bytes.push(b).drop_first() =~= bytes.drop_first().push(b));
        assert(bytes.push(b)[0] == bytes[0]);
        assert(pct(bytes.push(b)) =~= pct(bytes) + (if is_unreserved(b) {
            seq![b]
        } else {
            seq![37u8, hex_digit(b / 16), hex_digit(b % 16)]
        }));
    }
}

pub proof fn lemma_pct_all_push(bytes: Seq<u8>, b: u8)
    ensures
        pct_all(bytes.push(b)) == pct_all(bytes) + seq![37u8, hex_digit(b / 16), hex_digit(
            b % 16,
        )],
    decreases bytes.len(),
{
    if bytes.len() == 0 {
        assert(bytes.push(b).drop_first() =~= Seq::<u8>::empty());
        assert(bytes.push(b)[0] == b);
        assert(pct_all(Seq::<u8>::empty()) == Seq::<u8>::empty());
        assert(pct_all(bytes.push(b)) =~= pct_all(bytes) + seq![37u8, hex_digit(b / 16),
            hex_digit(b % 16)]);
    } else {
        lemma_pct_all_push(bytes.drop_first(), b);
        assert(bytes.push(b).drop_first() =~= bytes.drop_first().push(b));
        assert(bytes.push(b)[0] == bytes[0]);
        assert(pct_all(bytes.push(b)) =~= pct_all(bytes) + seq![37u8, hex_digit(b / 16),
            hex_digit(b % 16)]);
    }
}

/// Appends the percent-escaped form of `bytes`, keeping unreserved bytes.
fn push_pct(out: &mut Vec<u8>, bytes: &Vec<u8>)
    ensures
        final(out)@ == old(out)@ + pct(bytes@),
{
    let mut i: usize = 0;
    proof {
        assert(bytes@.take(0) =~= Seq::<u8>::empty());
        assert(out@ =~= old(out)@ + pct(bytes@.take(0)));
    }
    while i < bytes.len()
        invariant
            i <= bytes@.len(),
            out@ == old(out)@ + pct(bytes@.take(i as int)),
        decreases bytes.len() - i,
    {
        let b = bytes[i];
        let unreserved = (48 <= b && b <= 57) || (65 <= b && b <= 90) || (97 <= b && b <= 122)
            || b == 45 || b == 46 || b == 95 || b == 126;
        if unreserved {
            out.push(b);
        } else {
            out.push(37);
            let hi = b / 16;
            let lo = b % 16;
            out.push(if hi < 10 {
                48 + hi
            } else {
                87 + hi
            });
            out.push(if lo < 10 {
                48 + lo
            } else {
                87 + lo
            });
        }
        proof {
            lemma_pct_push(bytes@.take(i as int), bytes@[i as int]);
            assert(bytes@.take(i + 1) =~= bytes@.take(i as int).push(bytes@[i as int]));
            assert(out@ =~= old(out)@ + pct(bytes@.take(i + 1)));
        }
        i = i + 1;
    }
    proof {
        assert(bytes@.take(bytes@.len() as int) =~= bytes@);
    }
}

/// Appends `%HH` for every byte, unconditionally.
fn push_pct_all(out: &mut Vec<u8>, bytes: &Vec<u8>)
    ensures
        final(out)@ == old(out)@ + pct_all(bytes@),
{
    let mut i: usize = 0;
    proof {
        assert(bytes@.take(0) =~= Seq::<u8>::empty());
        assert(out@ =~= old(out)@ + pct_all(bytes@.take(0)));
    }
    while i < bytes.len()
        invariant
            i <= bytes@.len(),
            out@ == old(out)@ + pct_all(bytes@.take(i as int)),
        decreases bytes.len() - i,
    {
        let b = bytes[i];
        out.push(37);
        let hi = b / 16;
        let lo = b % 16;
        out.push(if hi < 10 {
            48 + hi
        } else {
            87 + hi
        });
        out.push(if lo < 10 {
            48 + lo
        } else {
            87 + lo
        });
        proof {
            lemma_pct_all_push(bytes@.take(i as int), bytes@[i as int]);
            assert(bytes@.take(i + 1) =~= bytes@.take(i as int).push(bytes@[i as int]));
            assert(out@ =~= old(out)@ + pct_all(bytes@.take(i + 1)));
        }
        i = i + 1;
    }
    proof {
        assert(bytes@.take(bytes@.len() as int) =~= bytes@);
    }
}

/// "?peer_id="
pub open spec fn lit_peer_id() -> Seq<u8> {
    seq![63u8, 112, 101, 101, 114, 95, 105, 100, 61]
}

/// "&port="
pub open spec fn lit_port() -> Seq<u8> {
    seq![38u8, 112, 111, 114, 116, 61]
}

/// "&uploaded="
pub open spec fn lit_uploaded() -> Seq<u8> {
    seq![38u8, 117, 112, 108, 111, 97, 100, 101, 100, 61]
}

/// "&downloaded="
pub open spec fn lit_downloaded() -> Seq<u8> {
    seq![38u8, 100, 111, 119, 110, 108, 111, 97, 100, 101, 100, 61]
}

/// "&left="
pub open spec fn lit_left() -> Seq<u8> {
    seq![38u8, 108, 101, 102, 116, 61]
}

/// "&compact="
pub open spec fn lit_compact() -> Seq<u8> {
    seq![38u8, 99, 111, 109, 112, 97, 99, 116, 61]
}

/// "&info_hash="
pub open spec fn lit_info_hash() -> Seq<u8> {
    seq![38u8, 105, 110, 102, 111, 95, 104, 97, 115, 104, 61]
}

/// One GET announce: the query parameters in a fixed order, the raw
/// info-hash bytes `%HH`-escaped byte for byte at the end.
pub open spec fn url_spec(announce: Seq<u8>, rq: TrackerRequest) -> Seq<u8> {
    announce + lit_peer_id() + pct(rq.peer_id@) + lit_port() + dec_digits(rq.port as nat)
        + lit_uploaded() + dec_digits(rq.uploaded as nat) + lit_downloaded() + dec_digits(
        rq.downloaded as nat,
    ) + lit_left() + dec_digits(rq.left as nat) + lit_compact() + dec_digits(rq.compact as nat)
        + lit_info_hash() + pct_all(rq.info_hash@)
}

/// What one announce asks the tracker, before it becomes a URL.
#[derive(Debug)]
pub struct TrackerRequest {
    /// The torrent's 20-byte identity, sent raw and `%HH`-escaped.
    pub info_hash: Vec<u8>,
    /// This client's 20-byte identifier.
    pub peer_id: Vec<u8>,
    /// The port this client would accept peers on.
    pub port: u16,
    /// Bytes uploaded so far.
    pub uploaded: usize,
    /// Bytes downloaded so far.
    pub downloaded: usize,
    /// Bytes still missing.
    pub left: usize,
    /// Whether the compact peer list form is requested; always 1 here.
    pub compact: u8,
}

impl TrackerRequest {
    /// Renders the full GET URL for an announce base: query parameters
    /// in fixed order, then the raw info-hash bytes escaped `%HH` each.
    pub fn url_params(&self, url: &Vec<u8>) -> (r: Vec<u8>)
        ensures
            r@ == url_spec(url@, *self),
    {
        let mut out: Vec<u8> = Vec::new();
        out.extend_from_slice(url.as_slice());
        let q1: Vec<u8> = vec![63u8, 112, 101, 101, 114, 95, 105, 100, 61];
        proof {
            assert(q1@ =~= lit_peer_id());
        }
        out.extend_from_slice(q1.as_slice());
        push_pct(&mut out, &self.peer_id);
        let q2: Vec<u8> = vec![38u8, 112, 111, 114, 116, 61];
        proof {
            assert(q2@ =~= lit_port());
        }
        out.extend_from_slice(q2.as_slice());
        push_digits(&mut out, self.port as u64);
        let q3: Vec<u8> = vec![38u8, 117, 112, 108, 111, 97, 100, 101, 100, 61];
        proof {
            assert(q3@ =~= lit_uploaded());
        }
        out.extend_from_slice(q3.as_slice());
        push_digits(&mut out, self.uploaded as u64);
        let q4: Vec<u8> = vec![38u8, 100, 111, 119, 110, 108, 111, 97, 100, 101, 100, 61];
        proof {
            assert(q4@ =~= lit_downloaded());
        }
        out.extend_from_slice(q4.as_slice());
        push_digits(&mut out, self.downloaded as u64);
        let q5: Vec<u8> = vec![38u8, 108, 101, 102, 116, 61];
        proof {
            assert(q5@ =~= lit_left());
        }
        out.extend_from_slice(q5.as_slice());
        push_digits(&mut out, self.left as u64);
        let q6: Vec<u8> = vec![38u8, 99, 111, 109, 112, 97, 99, 116, 61];
        proof {
            assert(q6@ =~= lit_compact());
        }
        out.extend_from_slice(q6.as_slice());
        push_digits(&mut out, self.compact as u64);
        let q7: Vec<u8> = vec![38u8, 105, 110, 102, 111, 95, 104, 97, 115, 104, 61];
        proof {
            assert(q7@ =~= lit_info_hash());
        }
        out.extend_from_slice(q7.as_slice());
        push_pct_all(&mut out, &self.info_hash);
        proof {
            assert(out@ =~= url_spec(url@, *self));
        }
        out
    }
}

impl Torrent {
    /// The announce request for this torrent: its info-hash and this
    /// client's identity, port 6881, nothing transferred yet, the whole
    /// stream still wanted, compact peer lists requested.
    pub fn tracker_request(&self) -> (r: TrackerRequest)
        requires
            self.wf(),
        ensures
            r.info_hash@ == sha1_of(info_bytes(self.info)),
            r.peer_id@ == peer_id_bytes(),
            r.port == 6881,
            r.uploaded == 0,
            r.downloaded == 0,
            r.left as int == total_len_int(self.info.keys),
            r.compact == 1,
    {
        TrackerRequest {
            info_hash: self.info_hash(),
            peer_id: self.peer_id(),
            port: 6881,
            uploaded: 0,
            downloaded: 0,
            left: self.file_length(),
            compact: 1,
        }
    }
}

// ---------------------------------------------------------------------------
// The tracker's answer.
// ---------------------------------------------------------------------------

/// One peer endpoint from the compact list: an IPv4 address and a port.
#[derive(Clone, Copy, PartialEq, Eq, Structural, Debug)]
pub struct PeerAddr {
    pub ip0: u8,
    pub ip1: u8,
    pub ip2: u8,
    pub ip3: u8,
    pub port: u16,
}

/// The peer endpoints a tracker answered with.
#[derive(Debug)]
pub struct Peers(pub Vec<PeerAddr>);

/// The parsed tracker answer.
#[derive(Debug)]
pub struct TrackerResponse {
    /// Seconds the tracker asks clients to wait between requests.
    pub interval: usize,
    /// The peer list, six bytes each on the wire.
    pub peers: Peers,
}

/// The endpoint the `k`-th six-byte group encodes: four address bytes,
/// then the port, big-endian.
pub open spec fn peer_at(pb: Seq<u8>, k: int) -> PeerAddr {
    PeerAddr {
        ip0: pb[6 * k],
        ip1: pb[6 * k + 1],
        ip2: pb[6 * k + 2],
        ip3: pb[6 * k + 3],
        port: (pb[6 * k + 4] * 256 + pb[6 * k + 5]) as u16,
    }
}

/// A decoded tracker answer carries what the model needs.
pub open spec fn tracker_parseable(v: Bencode) -> bool {
    &&& v is Dict
    &&& (get_int(v->Dict_0@, k_interval()) matches Option::Some(iv) && 0 <= iv <= usize::MAX)
    &&& (get_bytes(v->Dict_0@, k_peers()) matches Option::Some(pb) && pb.len() % 6 == 0)
}

/// The parsed peer list reads back the `peers` byte string, six bytes
/// per endpoint.
pub open spec fn peers_list_matches(v: Bencode, resp: TrackerResponse) -> bool {
    let pb = get_bytes(v->Dict_0@, k_peers())->Some_0;
    &&& resp.peers.0@.len() * 6 == pb.len()
    &&& (forall|k: int|
        0 <= k < resp.peers.0@.len() ==> #[trigger] resp.peers.0@[k] == peer_at(pb, k))
}

/// Reads the tracker's decoded answer. An answer carrying a
/// `failure reason` string is the tracker's rejection and fails with
/// that reason; otherwise the answer must carry an `interval` integer
/// and a `peers` byte string of six-byte groups.
pub fn parse_tracker_value(v: &Bencode) -> (r: Result<TrackerResponse, BtError>)
    ensures
        match r {
            Ok(resp) => {
                &&& v is Dict
                &&& get_bytes(v->Dict_0@, k_failure_reason()) is None
                &&& tracker_parseable(*v)
                &&& get_int(v->Dict_0@, k_interval()) == Option::Some(resp.interval as int)
                &&& peers_list_matches(*v, resp)
            },
            Err(e) => match e {
                BtError::TrackerRejected { reason } => v is Dict && get_bytes(
                    v->Dict_0@,
                    k_failure_reason(),
                ) == Option::Some(reason@),
                BtError::TrackerMalformed => !tracker_parseable(*v) && (!(v is Dict)
                    || get_bytes(v->Dict_0@, k_failure_reason()) is None),
                _ => false,
            },
        },
{
    let es: &Vec<(Vec<u8>, Bencode)> = match v {
        Bencode::Dict(es) => es,
        _ => {
            return Err(BtError::TrackerMalformed);
        },
    };
    let kfr = key_failure_reason();
    match dict_find(es, &kfr) {
        Some(Bencode::Bytes(b)) => {
            return Err(BtError::TrackerRejected { reason: crate::bencode::bytes_copy(b) });
        },
        _ => {},
    }
    let kiv = key_interval();
    let interval_i: i64 = match dict_find(es, &kiv) {
        Some(Bencode::Int(x)) => *x,
        _ => {
            return Err(BtError::TrackerMalformed);
        },
    };
    if interval_i < 0 || (interval_i as u64) > (usize::MAX as u64) {
        return Err(BtError::TrackerMalformed);
    }
    let kps = key_peers();
    let pb: &Vec<u8> = match dict_find(es, &kps) {
        Some(Bencode::Bytes(b)) => b,
        _ => {
            return Err(BtError::TrackerMalformed);
        },
    };
    if pb.len() % 6 != 0 {
        return Err(BtError::TrackerMalformed);
    }
    let n = pb.len() / 6;
    let mut list: Vec<PeerAddr> = Vec::new();
    let mut k: usize = 0;
    while k < n
        invariant
            k <= n,
            n * 6 == pb@.len(),
            pb@.len() <= usize::MAX,
            list@.len() == k,
            forall|j: int| 0 <= j < k ==> #[trigger] list@[j] == peer_at(pb@, j),
        decreases n - k,
    {
        proof {
            assert((k as int) * 6 + 6 <= (n as int) * 6) by (nonlinear_arith)
                requires
                    k < n,
            ;
        }
        let base = k * 6;
        let port: u16 = (pb[base + 4] as u16) * 256 + (pb[base + 5] as u16);
        list.push(
            PeerAddr {
                ip0: pb[base],
                ip1: pb[base + 1],
                ip2: pb[base + 2],
                ip3: pb[base + 3],
                port,
            },
        );
        k = k + 1;
    }
    proof {
        assert((list@.len() as int) * 6 == pb@.len());
    }
    Ok(TrackerResponse { interval: interval_i as usize, peers: Peers(list) })
}

/// What a parsed answer says of the decoded document it came from.
pub open spec fn tracker_resp_matches(v: Bencode, resp: TrackerResponse) -> bool {
    &&& v is Dict
    &&& get_bytes(v->Dict_0@, k_failure_reason()) is None
    &&& tracker_parseable(v)
    &&& get_int(v->Dict_0@, k_interval()) == Option::Some(resp.interval as int)
    &&& peers_list_matches(v, resp)
}

/// Decodes and reads a tracker answer from its body bytes. Failure is
/// conditioned all the way down: the decoder's error comes exactly when
/// the body encodes no well-formed document; a document carrying
/// `failure reason` is the tracker's rejection, surfaced with that
/// reason; anything else that fails is a document that is not a
/// tracker answer.
pub fn parse_tracker_response(input: &Vec<u8>) -> (r: Result<TrackerResponse, BtError>)
    ensures
        match r {
            Ok(resp) => exists|v: Bencode|
                input@ == crate::bencode::enc(v) && #[trigger] tracker_resp_matches(v, resp),
            Err(e) => match e {
                BtError::MalformedBencode { .. } => !crate::bencode::some_document(input@),
                BtError::TrackerRejected { reason } => exists|v: Bencode|
                    #![trigger crate::bencode::enc(v)]
                    input@ == crate::bencode::enc(v) && v is Dict && get_bytes(
                        v->Dict_0@,
                        k_failure_reason(),
                    ) == Option::Some(reason@),
                BtError::TrackerMalformed => exists|v: Bencode|
                    #![trigger crate::bencode::enc(v)]
                    input@ == crate::bencode::enc(v) && crate::bencode::nodup_deep(v)
                        && !tracker_parseable(v) && (!(v is Dict) || get_bytes(
                        v->Dict_0@,
                        k_failure_reason(),
                    ) is None),
                _ => false,
            },
        },
{
    let v = match crate::bencode::decode(input) {
        Ok(v) => v,
        Err(e) => {
            return Err(e);
        },
    };
    match parse_tracker_value(&v) {
        Ok(resp) => {
            proof {
                assert(input@ == crate::bencode::enc(v) && tracker_resp_matches(v, resp));
            }
            Ok(resp)
        },
        Err(e) => {
            proof {
                match &e {
                    BtError::TrackerRejected { reason } => {
                        assert(input@ == crate::bencode::enc(v) && v is Dict && get_bytes(
                            v->Dict_0@,
                            k_failure_reason(),
                        ) == Option::Some(reason@));
                    },
                    BtError::TrackerMalformed => {
                        assert(input@ == crate::bencode::enc(v)
                            && crate::bencode::nodup_deep(v) && !tracker_parseable(v));
                    },
                    _ => {},
                }
            }
            Err(e)
        },
    }
}

} // verus!
