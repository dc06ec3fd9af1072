use bittorrent::BtError;
use bittorrent::piece::Piece;
use bittorrent::pipeline::Pipeline;
use bittorrent::torrent::Hashes;
use bittorrent::torrent::Info;
use bittorrent::torrent::Keys;
use bittorrent::torrent::Torrent;

fn sha1(data: &[u8]) -> Vec<u8> {
    let d = <sha1::Sha1 as sha1::Digest>::digest(data);
    d.to_vec()
}

/// A two-piece torrent: 32 KiB pieces, 48 KiB in all, content pinned.
fn small_torrent() -> (Torrent, Vec<u8>) {
    let total: usize = 49152;
    let piece_length: usize = 32768;
    let source: Vec<u8> = (0..total).map(|i| (i % 251) as u8).collect();
    let hashes = vec![
        sha1(&source[..piece_length]),
        sha1(&source[piece_length..]),
    ];
    let t = Torrent {
        announce: b"http://t/x".to_vec(),
        info: Info {
            name: b"small".to_vec(),
            piece_length,
            pieces: Hashes(hashes),
            keys: Keys::SingleFile { length: total },
        },
    };
    (t, source)
}

fn reply_for(source: &[u8], piece_length: usize, rq: &bittorrent::handshake::Request) -> Piece {
    let offset = rq.index() as usize * piece_length + rq.begin() as usize;
    Piece {
        index: rq.index(),
        begin: rq.begin(),
        block: source[offset..offset + rq.length() as usize].to_vec(),
    }
}

#[test]
fn plan_covers_both_pieces_in_order() {
    let (t, _) = small_torrent();
    let (p, initial) = Pipeline::new(&t, 5);
    assert_eq!(p.plan.len(), 3);
    assert_eq!(initial.len(), 3);
    assert_eq!(
        (initial[0].index(), initial[0].begin(), initial[0].length()),
        (0, 0, 16384)
    );
    assert_eq!(
        (initial[1].index(), initial[1].begin(), initial[1].length()),
        (0, 16384, 16384)
    );
    assert_eq!(
        (initial[2].index(), initial[2].begin(), initial[2].length()),
        (1, 0, 16384)
    );
    assert!(!p.done());
}

#[test]
fn window_bounds_the_initial_requests() {
    let (t, _) = small_torrent();
    let (p, initial) = Pipeline::new(&t, 2);
    assert_eq!(p.plan.len(), 3);
    assert_eq!(initial.len(), 2);
    assert_eq!(p.outstanding.len(), 2);
}

#[test]
fn in_order_replies_rebuild_the_file() {
    let (t, source) = small_torrent();
    let (mut p, initial) = Pipeline::new(&t, 5);
    let mut to_send: Vec<bittorrent::handshake::Request> = initial;
    let mut completed: Vec<u32> = Vec::new();
    let mut at: usize = 0;
    while at < to_send.len() {
        let rq = to_send[at];
        at += 1;
        let reply = reply_for(&source, 32768, &rq);
        let done = p.on_block(&reply).expect("a scripted peer answers correctly");
        assert_eq!(done.offset, rq.index() as usize * 32768 + rq.begin() as usize);
        if let Some(next) = done.next_request {
            to_send.push(next);
        }
        if let Some(i) = done.piece_completed {
            completed.push(i);
        }
    }
    assert!(p.done());
    assert_eq!(p.out, source);
    assert_eq!(completed, vec![0, 1]);
}

#[test]
fn reordered_replies_rebuild_the_same_file() {
    let (t, source) = small_torrent();
    let (mut p, initial) = Pipeline::new(&t, 5);
    // answer the window in reverse order
    let replies: Vec<Piece> = initial.iter().rev().map(|rq| reply_for(&source, 32768, rq)).collect();
    let mut completed: Vec<u32> = Vec::new();
    for reply in &replies {
        let done = p.on_block(reply).expect("reordered replies still match");
        assert!(done.next_request.is_none());
        if let Some(i) = done.piece_completed {
            completed.push(i);
        }
    }
    assert!(p.done());
    assert_eq!(p.out, source);
    // the lone block of piece one lands first, then piece zero finishes
    assert_eq!(completed, vec![1, 0]);
}

#[test]
fn unmatched_reply_is_refused() {
    let (t, source) = small_torrent();
    let (mut p, _) = Pipeline::new(&t, 5);
    let stray = Piece { index: 0, begin: 5, block: source[5..16389].to_vec() };
    assert!(matches!(p.on_block(&stray), Err(BtError::UnexpectedBlock)));
    // a matching offset with the wrong amount of data is refused too
    let short = Piece { index: 0, begin: 0, block: source[..100].to_vec() };
    assert!(matches!(p.on_block(&short), Err(BtError::UnexpectedBlock)));
    assert!(!p.done());
}

#[test]
fn corrupt_piece_fails_its_hash() {
    let (t, source) = small_torrent();
    let (mut p, initial) = Pipeline::new(&t, 5);
    // answer piece one's lone block with altered bytes
    let rq = initial[2];
    let mut data = source[32768..49152].to_vec();
    data[0] ^= 0xff;
    let reply = Piece { index: rq.index(), begin: rq.begin(), block: data };
    assert!(matches!(
        p.on_block(&reply),
        Err(BtError::PieceHashMismatch { piece_index: 1 })
    ));
}

#[test]
fn single_block_torrent_downloads() {
    let total: usize = 100;
    let source: Vec<u8> = (0..total).map(|i| (i * 7 % 256) as u8).collect();
    let t = Torrent {
        announce: b"http://t/x".to_vec(),
        info: Info {
            name: b"tiny".to_vec(),
            piece_length: 16384,
            pieces: Hashes(vec![sha1(&source)]),
            keys: Keys::SingleFile { length: total },
        },
    };
    let (mut p, initial) = Pipeline::new(&t, 5);
    assert_eq!(initial.len(), 1);
    assert_eq!(initial[0].length(), 100);
    let reply = Piece { index: 0, begin: 0, block: source.clone() };
    let done = p.on_block(&reply).expect("the only block matches");
    assert_eq!(done.piece_completed, Some(0));
    assert!(done.next_request.is_none());
    assert!(p.done());
    assert_eq!(p.out, source);
}
