use bittorrent::BtError;
use bittorrent::handshake::Request;
use bittorrent::message::Message;
use bittorrent::message::MessageFramer;
use bittorrent::message::MessageTag;
use bittorrent::piece::Piece;

#[test]
fn keep_alive_then_interested_consumes_all_nine_bytes() {
    let src = vec![0u8, 0, 0, 0, 0, 0, 0, 1, 2];
    let (m, used) = MessageFramer::decode(&src)
        .expect("the stream is well formed")
        .expect("one full frame is present");
    assert_eq!(used, 9);
    assert_eq!(m.tag, MessageTag::Interested);
    assert!(m.payload.is_empty());
}

#[test]
fn short_buffers_ask_for_more() {
    assert!(MessageFramer::decode(&vec![]).unwrap().is_none());
    assert!(MessageFramer::decode(&vec![0u8, 0, 0, 0]).unwrap().is_none());
    // length names five payload bytes; only two are here
    assert!(MessageFramer::decode(&vec![0u8, 0, 0, 5, 4, 1, 2]).unwrap().is_none());
}

#[test]
fn oversized_frame_is_refused() {
    // length prefix 65537
    let src = vec![0u8, 1, 0, 1, 4];
    assert!(matches!(
        MessageFramer::decode(&src),
        Err(BtError::FrameTooLarge { n: 65537 })
    ));
}

#[test]
fn unknown_tag_is_refused() {
    let src = vec![0u8, 0, 0, 1, 9];
    assert!(matches!(
        MessageFramer::decode(&src),
        Err(BtError::UnknownTag { tag: 9 })
    ));
}

#[test]
fn encode_then_decode_returns_the_same_message() {
    let payload: Vec<u8> = (0u8..=255).collect();
    let m = Message { tag: MessageTag::Piece, payload: payload.clone() };
    let mut wire: Vec<u8> = Vec::new();
    MessageFramer::encode(&m, &mut wire).expect("a small frame encodes");
    assert_eq!(wire.len(), 4 + 1 + payload.len());
    // trailing bytes of a following frame do not disturb the decode
    wire.extend_from_slice(&[0, 0, 0, 1]);
    let (back, used) = MessageFramer::decode(&wire)
        .expect("the stream is well formed")
        .expect("one full frame is present");
    assert_eq!(used, 4 + 1 + payload.len());
    assert_eq!(back.tag, MessageTag::Piece);
    assert_eq!(back.payload, payload);
}

#[test]
fn encode_refuses_a_frame_over_the_cap() {
    let m = Message { tag: MessageTag::Bitfield, payload: vec![0u8; 65536] };
    let mut wire: Vec<u8> = Vec::new();
    assert!(matches!(
        MessageFramer::encode(&m, &mut wire),
        Err(BtError::FrameTooLarge { n: 65537 })
    ));
    assert!(wire.is_empty());
}

#[test]
fn largest_legal_frame_round_trips() {
    let m = Message { tag: MessageTag::Bitfield, payload: vec![0xabu8; 65535] };
    let mut wire: Vec<u8> = Vec::new();
    MessageFramer::encode(&m, &mut wire).expect("the largest legal frame encodes");
    let (back, used) = MessageFramer::decode(&wire).unwrap().unwrap();
    assert_eq!(used, wire.len());
    assert_eq!(back.payload.len(), 65535);
}

#[test]
fn tag_bytes_round_trip() {
    for b in 0u8..=8 {
        let t = MessageTag::from_byte(b).expect("assigned tags read back");
        assert_eq!(t.to_byte(), b);
    }
    assert!(matches!(
        MessageTag::from_byte(42),
        Err(BtError::UnknownTag { tag: 42 })
    ));
}

#[test]
fn request_payload_is_three_big_endian_words() {
    let rq = Request::new(1, 0x4000, 0x4000);
    assert_eq!(
        rq.payload(),
        vec![0u8, 0, 0, 1, 0, 0, 0x40, 0, 0, 0, 0x40, 0]
    );
    assert_eq!(rq.index(), 1);
    assert_eq!(rq.begin(), 0x4000);
    assert_eq!(rq.length(), 0x4000);
}

#[test]
fn piece_payload_reads_back_its_header() {
    let mut payload = vec![0u8, 0, 0, 2, 0, 0, 0x40, 0];
    payload.extend_from_slice(b"blockdata");
    let p = Piece::from_payload(&payload).expect("an eight-byte header suffices");
    assert_eq!(p.index(), 2);
    assert_eq!(p.begin(), 0x4000);
    assert_eq!(p.block(), &b"blockdata".to_vec());
}

#[test]
fn short_piece_payload_is_refused() {
    let payload = vec![0u8, 0, 0, 2, 0, 0, 0x40];
    assert!(matches!(
        Piece::from_payload(&payload),
        Err(BtError::TruncatedStream)
    ));
}
