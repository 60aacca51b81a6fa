use o_torrent::meta_info::File;
use o_torrent::meta_info::TorrentInfo;
use o_torrent::peer::Peer;
use o_torrent::piece::Piece;
use o_torrent::tracker::Tracker;
use o_torrent::utils::random_string;

#[test]
fn descriptor_validation() {
    // a sound single-file descriptor
    let ok = TorrentInfo::new(
        String::from("a"),
        vec![0u8; 40],
        16384,
        None,
        Some(20000),
        None,
        None,
        None,
        None,
        None,
        None,
    );
    assert!(ok.is_ok());
    // a piece count that does not match the total is refused
    let bad_total = TorrentInfo::new(
        String::from("a"),
        vec![0u8; 40],
        16384,
        None,
        Some(16384),
        None,
        None,
        None,
        None,
        None,
        None,
    );
    assert!(bad_total.is_err());
    // a ragged hash table is refused
    let bad_pieces = TorrentInfo::new(
        String::from("a"),
        vec![0u8; 41],
        16384,
        None,
        Some(20000),
        None,
        None,
        None,
        None,
        None,
        None,
    );
    assert!(bad_pieces.is_err());
    // a zero piece length is refused
    let bad_len = TorrentInfo::new(
        String::from("a"),
        vec![0u8; 40],
        0,
        None,
        Some(20000),
        None,
        None,
        None,
        None,
        None,
        None,
    );
    assert!(bad_len.is_err());
}

#[test]
fn accessors_follow_the_descriptor() {
    let files = vec![
        File { path: vec![String::from("a"), String::from("b")], length: 20000, md5sum: None },
        File { path: vec![String::from("c")], length: 12768, md5sum: None },
    ];
    let t = TorrentInfo::new(
        String::from("multi"),
        vec![9u8; 40],
        16384,
        None,
        None,
        Some(files),
        None,
        None,
        None,
        Some(String::from("udp://tracker.example:6969")),
        None,
    )
    .unwrap();
    assert_eq!(t.get_number_of_pieces(), 2);
    assert_eq!(t.get_total_length(), 32768);
    assert_eq!(t.get_piece_length(0), 16384);
    assert_eq!(t.get_piece_length(1), 16384);
    assert_eq!(t.get_torrent_name(), "multi");
    assert_eq!(t.get_piece_hash(1), [9u8; 20]);
    let announce = t.get_announce();
    assert_eq!(announce, vec![String::from("udp://tracker.example:6969")]);
}

#[test]
fn announce_tiers_flatten_in_order() {
    let t = TorrentInfo::new(
        String::from("a"),
        vec![0u8; 20],
        16384,
        None,
        Some(10000),
        None,
        None,
        None,
        None,
        Some(String::from("ignored")),
        Some(vec![
            vec![String::from("u1"), String::from("u2")],
            vec![],
            vec![String::from("u3")],
        ]),
    )
    .unwrap();
    assert_eq!(
        t.get_announce(),
        vec![String::from("u1"), String::from("u2"), String::from("u3")]
    );
}

#[test]
fn info_hash_matches_a_hand_written_dictionary() {
    let t = TorrentInfo::new(
        String::from("t"),
        vec![1u8; 20],
        16384,
        None,
        Some(10000),
        None,
        None,
        None,
        None,
        None,
        None,
    )
    .unwrap();
    // the same dictionary, bencoded by hand, keys sorted
    let mut expected: Vec<u8> = Vec::new();
    expected.extend_from_slice(b"d6:lengthi10000e4:name1:t12:piece lengthi16384e6:pieces20:");
    expected.extend_from_slice(&[1u8; 20]);
    expected.extend_from_slice(b"e");
    let want = sha1::Sha1::from(&expected).digest().bytes();
    assert_eq!(t.get_info_hash(), want);
}

#[test]
fn piece_splits_into_blocks() {
    let p = Piece::new(40000, [0u8; 20]);
    let next = p.get_next_block().unwrap();
    assert_eq!(next.get_index(), 0);
    assert_eq!(next.get_length(), 16384);
}

#[test]
fn handshake_layout() {
    let peer = Peer::new("10.0.0.1:1");
    let info_hash = [5u8; 20];
    let peer_id = [7u8; 20];
    let hs = peer.handshake_bytes(&peer_id, &info_hash);
    assert_eq!(hs.len(), 68);
    assert_eq!(hs[0], 19);
    assert_eq!(&hs[1..20], b"BitTorrent protocol");
    assert_eq!(&hs[20..28], &[0u8; 8]);
    assert_eq!(&hs[28..48], &info_hash);
    assert_eq!(&hs[48..68], &peer_id);
    assert!(peer.handshake_matches(&hs, &info_hash));
    assert!(!peer.handshake_matches(&hs, &[6u8; 20]));
    let short: Vec<u8> = vec![19u8; 10];
    assert!(!peer.handshake_matches(&short, &info_hash));
}

#[test]
fn tracker_connect_round() {
    let req = Tracker::connect_request_bytes(0xAABBCCDD);
    assert_eq!(
        req,
        vec![0x00, 0x00, 0x04, 0x17, 0x27, 0x10, 0x19, 0x80, 0, 0, 0, 0, 0xAA, 0xBB, 0xCC, 0xDD]
    );
    let mut tr = Tracker::new();
    assert!(tr.get_connection_id().is_none());
    // a response with the right action and transaction id is kept
    let mut resp: Vec<u8> = vec![0, 0, 0, 0, 0xAA, 0xBB, 0xCC, 0xDD];
    resp.extend_from_slice(&[0, 0, 0, 0, 0, 0, 0x12, 0x34]);
    assert!(tr.apply_connect_response(&resp, 0xAABBCCDD));
    assert_eq!(tr.get_connection_id(), Some(0x1234));
    // a stale transaction id is refused
    let mut tr2 = Tracker::new();
    assert!(!tr2.apply_connect_response(&resp, 1));
    assert!(tr2.get_connection_id().is_none());
}

#[test]
fn random_string_has_the_asked_length() {
    assert_eq!(random_string(0).len(), 0);
    assert_eq!(random_string(20).chars().count(), 20);
}

#[test]
fn random_string_is_alphanumeric() {
    let s = random_string(64);
    assert!(s.chars().all(|c| c.is_ascii_alphanumeric()));
}
