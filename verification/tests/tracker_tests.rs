use bittorrent::BtError;
use bittorrent::tracker::TrackerRequest;
use bittorrent::tracker::parse_tracker_response;

fn bytes(s: &str) -> Vec<u8> {
    s.as_bytes().to_vec()
}

#[test]
fn announce_url_escapes_every_info_hash_byte() {
    let info_hash: Vec<u8> = vec![
        0x12, 0x34, 0x56, 0x78, 0x9a, 0xbc, 0xde, 0xf0, 0x11, 0x22, 0x33, 0x44, 0x55, 0x66,
        0x77, 0x88, 0x99, 0xaa, 0xbb, 0x01,
    ];
    let rq = TrackerRequest {
        info_hash,
        peer_id: bytes("11111111111111111111"),
        port: 6881,
        uploaded: 0,
        downloaded: 0,
        left: 12345,
        compact: 1,
    };
    let url = rq.url_params(&bytes("http://t/x"));
    let expected = "http://t/x?peer_id=11111111111111111111&port=6881&uploaded=0&downloaded=0\
&left=12345&compact=1\
&info_hash=%12%34%56%78%9a%bc%de%f0%11%22%33%44%55%66%77%88%99%aa%bb%01";
    assert_eq!(url, bytes(expected));
}

#[test]
fn announce_url_escapes_reserved_peer_id_bytes() {
    let rq = TrackerRequest {
        info_hash: vec![0u8; 20],
        peer_id: bytes("-AB1234-  zz..~~!!##"),
        port: 1,
        uploaded: 2,
        downloaded: 3,
        left: 4,
        compact: 1,
    };
    let url = rq.url_params(&bytes("http://t/a"));
    let s = String::from_utf8(url).expect("the URL is ASCII");
    assert!(s.contains("?peer_id=-AB1234-%20%20zz..~~%21%21%23%23&"));
}

#[test]
fn tracker_response_parses_compact_peers() {
    let mut body = bytes("d8:intervali1800e5:peers12:");
    body.extend_from_slice(&[10, 0, 0, 1, 0x1a, 0xe1, 192, 168, 1, 2, 0x00, 0x50]);
    body.extend_from_slice(b"e");
    let resp = parse_tracker_response(&body).expect("tracker answer parses");
    assert_eq!(resp.interval, 1800);
    assert_eq!(resp.peers.0.len(), 2);
    let p0 = resp.peers.0[0];
    assert_eq!((p0.ip0, p0.ip1, p0.ip2, p0.ip3, p0.port), (10, 0, 0, 1, 6881));
    let p1 = resp.peers.0[1];
    assert_eq!((p1.ip0, p1.ip1, p1.ip2, p1.ip3, p1.port), (192, 168, 1, 2, 80));
}

#[test]
fn tracker_failure_reason_is_surfaced() {
    let body = bytes("d14:failure reason9:gone awaye");
    match parse_tracker_response(&body) {
        Err(BtError::TrackerRejected { reason }) => assert_eq!(reason, bytes("gone away")),
        other => panic!("expected the tracker's rejection, got {:?}", other),
    }
}

#[test]
fn tracker_response_rejects_ragged_peer_list() {
    let mut body = bytes("d8:intervali1800e5:peers4:");
    body.extend_from_slice(&[10, 0, 0, 1]);
    body.extend_from_slice(b"e");
    assert!(matches!(
        parse_tracker_response(&body),
        Err(BtError::TrackerMalformed)
    ));
}

#[test]
fn tracker_response_rejects_missing_interval() {
    let mut body = bytes("d5:peers6:");
    body.extend_from_slice(&[10, 0, 0, 1, 0, 80]);
    body.extend_from_slice(b"e");
    assert!(matches!(
        parse_tracker_response(&body),
        Err(BtError::TrackerMalformed)
    ));
}

#[test]
fn tracker_request_of_a_torrent() {
    let mut doc = bytes("d8:announce10:http://t/x4:info");
    doc.extend_from_slice(b"d6:lengthi12345e4:name5:hello12:piece lengthi16384e6:pieces20:");
    doc.extend_from_slice(&[7u8; 20]);
    doc.extend_from_slice(b"ee");
    let t = bittorrent::torrent::Torrent::parse(&doc).expect("metainfo parses");
    let rq = t.tracker_request();
    assert_eq!(rq.info_hash, t.info_hash());
    assert_eq!(rq.peer_id, t.peer_id());
    assert_eq!(rq.port, 6881);
    assert_eq!(rq.uploaded, 0);
    assert_eq!(rq.downloaded, 0);
    assert_eq!(rq.left, 12345);
    assert_eq!(rq.compact, 1);
}
