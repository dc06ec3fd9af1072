use bittorrent::BtError;
use bittorrent::message::Message;
use bittorrent::message::MessageTag;
use bittorrent::session::PeerSession;
use bittorrent::session::SessionAction;

#[test]
fn session_starts_choked_and_uninterested() {
    let s = PeerSession::new(11);
    assert!(!s.am_interested);
    assert!(s.peer_choking);
    assert!(s.bitfield.is_empty());
    assert!(!s.can_request());
}

#[test]
fn bitfield_of_exact_length_is_accepted() {
    // 11 pieces need ceil(11 / 8) == 2 bytes
    let mut s = PeerSession::new(11);
    assert!(s.recv_bitfield(&vec![0xff, 0xe0]).is_ok());
    assert_eq!(s.bitfield, vec![0xff, 0xe0]);
}

#[test]
fn longer_or_shorter_bitfields_are_rejected() {
    let mut s = PeerSession::new(11);
    assert!(matches!(
        s.recv_bitfield(&vec![0xff]),
        Err(BtError::ProtocolViolation)
    ));
    assert!(matches!(
        s.recv_bitfield(&vec![0xff, 0xe0, 0x00]),
        Err(BtError::ProtocolViolation)
    ));
    assert!(s.bitfield.is_empty());
}

#[test]
fn interest_and_unchoke_allow_requests() {
    let mut s = PeerSession::new(4);
    s.recv_bitfield(&vec![0xf0]).expect("a one-byte bitfield fits four pieces");
    let m = s.send_interested();
    assert_eq!(m.tag, MessageTag::Interested);
    assert!(m.payload.is_empty());
    assert!(!s.can_request());
    s.recv_unchoke(&Message { tag: MessageTag::Unchoke, payload: vec![] })
        .expect("an unchoke with empty payload is accepted");
    assert!(s.can_request());
}

#[test]
fn wrong_message_is_no_unchoke() {
    let mut s = PeerSession::new(4);
    assert!(matches!(
        s.recv_unchoke(&Message { tag: MessageTag::Choke, payload: vec![] }),
        Err(BtError::ProtocolViolation)
    ));
    assert!(s.peer_choking);
}

#[test]
fn bitfield_bits_are_most_significant_first() {
    let mut s = PeerSession::new(11);
    s.recv_bitfield(&vec![0b1010_0000, 0b0110_0000]).expect("exact length");
    assert!(s.has_piece(0));
    assert!(!s.has_piece(1));
    assert!(s.has_piece(2));
    assert!(!s.has_piece(8));
    assert!(s.has_piece(9));
    assert!(s.has_piece(10));
}

#[test]
fn have_records_a_piece() {
    let mut s = PeerSession::new(11);
    s.recv_bitfield(&vec![0x00, 0x00]).expect("exact length");
    let have = Message { tag: MessageTag::Have, payload: vec![0, 0, 0, 9] };
    assert!(matches!(s.on_data_message(&have), Ok(SessionAction::Handled)));
    assert!(s.has_piece(9));
    assert!(!s.has_piece(8));
    assert!(!s.has_piece(10));
}

#[test]
fn have_with_short_payload_is_refused() {
    let mut s = PeerSession::new(11);
    s.recv_bitfield(&vec![0x00, 0x00]).expect("exact length");
    let have = Message { tag: MessageTag::Have, payload: vec![0, 0, 9] };
    assert!(matches!(s.on_data_message(&have), Err(BtError::TruncatedStream)));
}

#[test]
fn have_beyond_the_piece_count_is_refused() {
    let mut s = PeerSession::new(11);
    s.recv_bitfield(&vec![0x00, 0x00]).expect("exact length");
    let have = Message { tag: MessageTag::Have, payload: vec![0, 0, 0, 11] };
    assert!(matches!(s.on_data_message(&have), Err(BtError::ProtocolViolation)));
}

#[test]
fn choke_mid_download_is_fatal() {
    let mut s = PeerSession::new(4);
    s.recv_bitfield(&vec![0xf0]).expect("exact length");
    let choke = Message { tag: MessageTag::Choke, payload: vec![] };
    assert!(matches!(s.on_data_message(&choke), Err(BtError::ProtocolViolation)));
}

#[test]
fn piece_messages_are_delivered_and_chatter_is_absorbed() {
    let mut s = PeerSession::new(4);
    s.recv_bitfield(&vec![0xf0]).expect("exact length");
    let piece = Message { tag: MessageTag::Piece, payload: vec![0u8; 16] };
    assert!(matches!(s.on_data_message(&piece), Ok(SessionAction::Deliver)));
    let cancel = Message { tag: MessageTag::Cancel, payload: vec![0u8; 12] };
    assert!(matches!(s.on_data_message(&cancel), Ok(SessionAction::Handled)));
    let ni = Message { tag: MessageTag::NotInterested, payload: vec![] };
    assert!(matches!(s.on_data_message(&ni), Ok(SessionAction::Handled)));
}
