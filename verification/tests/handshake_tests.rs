use bittorrent::BtError;
use bittorrent::handshake::Handshake;
use bittorrent::torrent::Torrent;

fn bytes(s: &str) -> Vec<u8> {
    s.as_bytes().to_vec()
}

fn sample_torrent() -> Torrent {
    let mut doc = bytes("d8:announce10:http://t/x4:info");
    doc.extend_from_slice(b"d6:lengthi12345e4:name5:hello12:piece lengthi16384e6:pieces20:");
    doc.extend_from_slice(&[7u8; 20]);
    doc.extend_from_slice(b"ee");
    Torrent::parse(&doc).expect("metainfo parses")
}

#[test]
fn outbound_prologue_has_the_fixed_layout() {
    let t = sample_torrent();
    let hs = Handshake::new(&t);
    let wire = hs.to_bytes();
    assert_eq!(wire.len(), 68);
    assert_eq!(wire[0], 19);
    assert_eq!(&wire[1..20], b"BitTorrent protocol");
    assert_eq!(&wire[20..28], &[0u8; 8]);
    assert_eq!(&wire[28..48], t.info_hash().as_slice());
    assert_eq!(&wire[48..68], t.peer_id().as_slice());
}

#[test]
fn matching_reply_is_accepted_and_records_the_peer_id() {
    let t = sample_torrent();
    let local = Handshake::new(&t);
    let mut reply = local.to_bytes();
    // the peer answers with its own identity
    for b in reply[48..68].iter_mut() {
        *b = 0x61;
    }
    let peer = Handshake::from_bytes(&reply, &t.info_hash()).expect("a matching reply passes");
    assert_eq!(peer.peer_id, vec![0x61u8; 20]);
    assert_eq!(peer.info_hash, t.info_hash());
}

#[test]
fn reply_with_wrong_info_hash_is_rejected() {
    let t = sample_torrent();
    let mut reply = Handshake::new(&t).to_bytes();
    reply[30] ^= 0x01;
    assert!(matches!(
        Handshake::from_bytes(&reply, &t.info_hash()),
        Err(BtError::HandshakeRejected)
    ));
}

#[test]
fn reply_with_wrong_prologue_is_rejected() {
    let t = sample_torrent();
    let good = Handshake::new(&t).to_bytes();
    let mut wrong_len = good.clone();
    wrong_len.pop();
    assert!(matches!(
        Handshake::from_bytes(&wrong_len, &t.info_hash()),
        Err(BtError::HandshakeRejected)
    ));
    let mut wrong_first = good.clone();
    wrong_first[0] = 18;
    assert!(matches!(
        Handshake::from_bytes(&wrong_first, &t.info_hash()),
        Err(BtError::HandshakeRejected)
    ));
    let mut wrong_proto = good.clone();
    wrong_proto[1] = b'b';
    assert!(matches!(
        Handshake::from_bytes(&wrong_proto, &t.info_hash()),
        Err(BtError::HandshakeRejected)
    ));
}
