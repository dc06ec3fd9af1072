use bittorrent::BtError;
use bittorrent::torrent::Keys;
use bittorrent::torrent::Torrent;

fn bytes(s: &str) -> Vec<u8> {
    s.as_bytes().to_vec()
}

fn sha1(data: &[u8]) -> Vec<u8> {
    let d = <sha1::Sha1 as sha1::Digest>::digest(data);
    d.to_vec()
}

fn sample_info_bytes(piece_hash: &[u8]) -> Vec<u8> {
    let mut info = bytes("d6:lengthi12345e4:name5:hello12:piece lengthi16384e6:pieces20:");
    info.extend_from_slice(piece_hash);
    info.extend_from_slice(b"e");
    info
}

fn sample_metainfo(piece_hash: &[u8]) -> Vec<u8> {
    let mut doc = bytes("d8:announce10:http://t/x4:info");
    doc.extend_from_slice(&sample_info_bytes(piece_hash));
    doc.extend_from_slice(b"e");
    doc
}

#[test]
fn info_hash_is_sha1_of_info_slice() {
    let piece_hash = [7u8; 20];
    let doc = sample_metainfo(&piece_hash);
    let t = Torrent::parse(&doc).expect("metainfo parses");
    assert_eq!(t.announce, bytes("http://t/x"));
    assert_eq!(t.info.name, bytes("hello"));
    assert_eq!(t.info.piece_length, 16384);
    assert!(matches!(t.info.keys, Keys::SingleFile { length: 12345 }));
    assert_eq!(t.info_hash(), sha1(&sample_info_bytes(&piece_hash)));
}

#[test]
fn info_hash_ignores_root_key_order() {
    let piece_hash = [9u8; 20];
    // announce first
    let doc1 = sample_metainfo(&piece_hash);
    // info first
    let mut doc2 = bytes("d4:info");
    doc2.extend_from_slice(&sample_info_bytes(&piece_hash));
    doc2.extend_from_slice(b"8:announce10:http://t/x");
    doc2.extend_from_slice(b"e");
    let t1 = Torrent::parse(&doc1).expect("first ordering parses");
    let t2 = Torrent::parse(&doc2).expect("second ordering parses");
    assert_eq!(t1.info_hash(), t2.info_hash());
}

#[test]
fn parse_rejects_missing_announce() {
    let mut doc = bytes("d4:info");
    doc.extend_from_slice(&sample_info_bytes(&[1u8; 20]));
    doc.extend_from_slice(b"e");
    assert!(matches!(Torrent::parse(&doc), Err(BtError::MetainfoInvalid)));
}

#[test]
fn parse_rejects_pieces_not_multiple_of_twenty() {
    let mut doc = bytes("d8:announce10:http://t/x4:info");
    doc.extend_from_slice(
        b"d6:lengthi12345e4:name5:hello12:piece lengthi16384e6:pieces3:abce",
    );
    doc.extend_from_slice(b"e");
    assert!(matches!(Torrent::parse(&doc), Err(BtError::MetainfoInvalid)));
}

#[test]
fn parse_rejects_both_length_and_files() {
    let mut doc = bytes("d8:announce10:http://t/x4:info");
    doc.extend_from_slice(b"d5:filesld6:lengthi5e4:pathl1:aeee6:lengthi12345e4:name5:hello");
    doc.extend_from_slice(b"12:piece lengthi16384e6:pieces20:");
    doc.extend_from_slice(&[3u8; 20]);
    doc.extend_from_slice(b"ee");
    assert!(matches!(Torrent::parse(&doc), Err(BtError::MetainfoInvalid)));
}

#[test]
fn parse_rejects_wrong_piece_count() {
    // 12345 bytes at 16384 per piece is one piece, not two
    let mut doc = bytes("d8:announce10:http://t/x4:info");
    doc.extend_from_slice(b"d6:lengthi12345e4:name5:hello12:piece lengthi16384e6:pieces40:");
    doc.extend_from_slice(&[4u8; 40]);
    doc.extend_from_slice(b"ee");
    assert!(matches!(Torrent::parse(&doc), Err(BtError::MetainfoInvalid)));
}

#[test]
fn multi_file_total_length_is_the_sum() {
    let mut doc = bytes("d8:announce10:http://t/x4:info");
    doc.extend_from_slice(b"d5:filesl");
    doc.extend_from_slice(b"d6:lengthi10000e4:pathl3:dir5:a.txtee");
    doc.extend_from_slice(b"d6:lengthi6384e4:pathl5:b.binee");
    doc.extend_from_slice(b"e4:name3:top12:piece lengthi16384e6:pieces20:");
    doc.extend_from_slice(&[5u8; 20]);
    doc.extend_from_slice(b"ee");
    let t = Torrent::parse(&doc).expect("multi-file metainfo parses");
    assert_eq!(t.file_length(), 16384);
    assert_eq!(t.piece_count(), 1);
    match &t.info.keys {
        Keys::MultiFile { files } => {
            assert_eq!(files.len(), 2);
            assert_eq!(files[0].length, 10000);
            assert_eq!(files[0].path, vec![bytes("dir"), bytes("a.txt")]);
            assert_eq!(files[1].length, 6384);
        },
        _ => panic!("expected the multi-file form"),
    }
}

#[test]
fn piece_sizes_cover_the_stream() {
    // 40000 bytes at 16384: pieces of 16384, 16384, 7232
    let mut doc = bytes("d8:announce10:http://t/x4:info");
    doc.extend_from_slice(b"d6:lengthi40000e4:name1:f12:piece lengthi16384e6:pieces60:");
    doc.extend_from_slice(&[6u8; 60]);
    doc.extend_from_slice(b"ee");
    let t = Torrent::parse(&doc).expect("metainfo parses");
    assert_eq!(t.piece_count(), 3);
    assert_eq!(t.piece_size(0), 16384);
    assert_eq!(t.piece_size(1), 16384);
    assert_eq!(t.piece_size(2), 7232);
    assert_eq!(t.piece_hash(1), &vec![6u8; 20]);
}

#[test]
fn peer_id_is_twenty_bytes() {
    let piece_hash = [8u8; 20];
    let doc = sample_metainfo(&piece_hash);
    let t = Torrent::parse(&doc).expect("metainfo parses");
    assert_eq!(t.peer_id(), bytes("12345611111111111112"));
}
