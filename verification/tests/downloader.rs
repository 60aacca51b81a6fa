use o_torrent::downloader::Downloader;
use o_torrent::meta_info::TorrentInfo;
use o_torrent::peer::Action;
use o_torrent::peer::Peer;
use o_torrent::message::Message;
use o_torrent::message::MessagePlayload;

fn digest_of(data: &[u8]) -> [u8; 20] {
    sha1::Sha1::from(data).digest().bytes()
}

/// A descriptor with the given per-piece digests, each piece `piece_len`
/// bytes and the last taking `last_len`.
fn make_info(hashes: &[[u8; 20]], piece_len: i64, last_len: i64) -> TorrentInfo {
    let mut pieces: Vec<u8> = Vec::new();
    for h in hashes {
        pieces.extend_from_slice(h);
    }
    let total = piece_len * (hashes.len() as i64 - 1) + last_len;
    TorrentInfo::new(
        String::from("t"),
        pieces,
        piece_len,
        None,
        Some(total),
        None,
        None,
        None,
        None,
        None,
        None,
    )
    .unwrap()
}

#[test]
fn block_pipelining_stops_at_the_piece_end() {
    // one piece of two blocks; an unchoked peer with the piece
    let info = make_info(&[[0u8; 20]], 32768, 32768);
    let mut manager = Downloader::new(info);
    let mut peer = Peer::new("10.0.0.1:6881");
    let bf = bit_vec::BitVec::from_bytes(&[0b1000_0000]);
    let bf_msg = Message::new(2, Some(5), MessagePlayload::BitField(bf));
    let actions = peer.handle_message(bf_msg, &mut manager);
    // still choked: only the interest declaration goes out
    assert_eq!(actions.len(), 1);
    let unchoke = Message::new(1, Some(1), MessagePlayload::UnChoke);
    let actions2 = peer.handle_message(unchoke, &mut manager);
    // exactly the piece's two blocks are requested, then it stops
    assert_eq!(actions2.len(), 2);
    let mut begins: Vec<u32> = Vec::new();
    for a in &actions2 {
        match a {
            Action::Send(m) => match &m.payload {
                MessagePlayload::Request(p, begin, len) => {
                    assert_eq!(*p, 0);
                    assert_eq!(*len, 16384);
                    begins.push(*begin);
                }
                _ => panic!("expected a request"),
            },
            _ => panic!("expected a send"),
        }
    }
    assert_eq!(begins, vec![0, 16384]);
    // a received block does not trigger another request: nothing is left
    let data: Vec<u8> = vec![1u8; 16384];
    let piece_msg = Message::new(9 + 16384, Some(7), MessagePlayload::Piece(0, 0, data));
    let actions3 = peer.handle_message(piece_msg, &mut manager);
    assert_eq!(actions3.len(), 1);
    assert!(matches!(
        actions3[0],
        Action::Write { piece: 0, offset: 0, piece_complete: false, .. }
    ));
}

#[test]
fn verify_resume_marks_only_the_good_piece() {
    // piece 0 pre-filled correctly, piece 1 garbage
    let good: Vec<u8> = vec![7u8; 16384];
    let garbage: Vec<u8> = vec![9u8; 16384];
    let info = make_info(&[digest_of(&good), [0u8; 20]], 16384, 16384);
    let mut manager = Downloader::new(info);
    assert!(manager.verify_piece(0, &good));
    assert!(!manager.verify_piece(1, &garbage));
    // piece 0 is HAVE, so only piece 1 is offered
    let all = bit_vec::BitVec::from_bytes(&[0b1100_0000]);
    assert_eq!(manager.pick_next_piece(&all), Some(1));
    // running the pass again changes nothing
    assert!(manager.verify_piece(0, &good));
    assert!(!manager.verify_piece(1, &garbage));
}

#[test]
fn write_and_finish_a_piece() {
    let block0: Vec<u8> = vec![1u8; 16384];
    let block1: Vec<u8> = vec![2u8; 16384];
    let mut whole: Vec<u8> = block0.clone();
    whole.extend_from_slice(&block1);
    let info = make_info(&[digest_of(&whole)], 32768, 32768);
    let mut manager = Downloader::new(info);
    let all = bit_vec::BitVec::from_bytes(&[0b1000_0000]);
    let (p0, b0, l0) = manager.pick_next_block(&all).unwrap();
    let (p1, b1, l1) = manager.pick_next_block(&all).unwrap();
    assert_eq!((p0, b0, l0), (0, 0, 16384));
    assert_eq!((p1, b1, l1), (0, 16384, 16384));
    assert!(manager.pick_next_block(&all).is_none());
    let (off0, done0) = manager.write_block(0, 0, &block0).unwrap();
    assert_eq!(off0, 0);
    assert!(!done0);
    // the same block cannot be written twice
    assert!(manager.write_block(0, 0, &block0).is_none());
    let (off1, done1) = manager.write_block(0, 16384, &block1).unwrap();
    assert_eq!(off1, 16384);
    assert!(done1);
    assert!(manager.piece_all_finished(0));
    let (verified, all_done) = manager.finish_piece(0, &whole);
    assert!(verified);
    assert!(all_done);
}

#[test]
fn hash_mismatch_reopens_the_piece() {
    let block: Vec<u8> = vec![1u8; 16384];
    let info = make_info(&[[0u8; 20]], 16384, 16384);
    let mut manager = Downloader::new(info);
    let all = bit_vec::BitVec::from_bytes(&[0b1000_0000]);
    let _ = manager.pick_next_block(&all).unwrap();
    let (_, done) = manager.write_block(0, 0, &block).unwrap();
    assert!(done);
    // the table holds a zero digest, so verification fails and the block
    // returns to Open
    let (verified, all_done) = manager.finish_piece(0, &block);
    assert!(!verified);
    assert!(!all_done);
    let again = manager.pick_next_block(&all).unwrap();
    assert_eq!(again, (0, 0, 16384));
}

#[test]
fn refused_writes_change_nothing() {
    let block: Vec<u8> = vec![1u8; 16384];
    let info = make_info(&[[0u8; 20], [0u8; 20]], 16384, 16384);
    let mut manager = Downloader::new(info);
    // nothing picked yet: no downloading entry
    assert!(manager.write_block(0, 0, &block).is_none());
    let all = bit_vec::BitVec::from_bytes(&[0b1100_0000]);
    let _ = manager.pick_next_block(&all).unwrap();
    // misaligned offset
    assert!(manager.write_block(0, 1, &block).is_none());
    // wrong data size
    let short: Vec<u8> = vec![1u8; 100];
    assert!(manager.write_block(0, 0, &short).is_none());
}

#[test]
fn downloading_list_is_bounded() {
    // eleven single-block pieces; the eleventh pick hits the bound
    let hashes: Vec<[u8; 20]> = vec![[0u8; 20]; 11];
    let info = make_info(&hashes, 16384, 16384);
    let mut manager = Downloader::new(info);
    let all = bit_vec::BitVec::from_bytes(&[0xff, 0xff]);
    for k in 0..10 {
        assert!(manager.pick_next_block(&all).is_some(), "pick {} failed", k);
    }
    assert!(manager.pick_next_block(&all).is_none());
}

#[test]
fn availability_steers_the_pick() {
    let info = make_info(&[[0u8; 20], [1u8; 20], [2u8; 20]], 16384, 16384);
    let mut manager = Downloader::new(info);
    let common = bit_vec::BitVec::from_bytes(&[0b1100_0000]);
    manager.update_priority(&common);
    manager.apply_have(0);
    // counts are now [2, 1, 0]: among the peer's pieces, 1 is rarer
    let (p, _, _) = manager.pick_next_block(&common).unwrap();
    assert_eq!(p, 1);
}

#[test]
fn block_sizes_sum_to_the_piece_length() {
    // a single 40000-byte piece: blocks of 16384, 16384 and 7232
    let info = make_info(&[[0u8; 20]], 40000, 40000);
    let manager = Downloader::new(info);
    let sizes: Vec<u32> = (0..3).map(|b| manager.get_block_size(0, b)).collect();
    assert_eq!(sizes, vec![16384, 16384, 7232]);
    assert_eq!(sizes.iter().sum::<u32>(), 40000);
}

#[test]
fn pipeline_refills_after_a_block_arrives() {
    // 21 single-block pieces: the downloading list holds ten pieces at a
    // time, so ten requests go out; finishing one makes room for one more
    let data: Vec<u8> = vec![5u8; 16384];
    let hashes: Vec<[u8; 20]> = vec![digest_of(&data); 21];
    let info = make_info(&hashes, 16384, 16384);
    let mut manager = Downloader::new(info);
    let mut peer = Peer::new("10.0.0.2:6881");
    let bf = bit_vec::BitVec::from_elem(21, true);
    let bf_msg = Message::new(4, Some(5), MessagePlayload::BitField(bf));
    let actions = peer.handle_message(bf_msg, &mut manager);
    assert_eq!(actions.len(), 1);
    let unchoke = Message::new(1, Some(1), MessagePlayload::UnChoke);
    let actions2 = peer.handle_message(unchoke, &mut manager);
    assert_eq!(actions2.len(), 10);
    let mut pieces_requested: Vec<u32> = Vec::new();
    for a in &actions2 {
        if let Action::Send(m) = a {
            if let MessagePlayload::Request(p, _, _) = m.payload {
                pieces_requested.push(p);
            }
        }
    }
    pieces_requested.dedup();
    assert_eq!(pieces_requested.len(), 10);
    // one requested piece arrives whole; its entry still occupies the list
    let target = pieces_requested[0];
    let piece_msg = Message::new(
        9 + 16384,
        Some(7),
        MessagePlayload::Piece(target, 0, data.clone()),
    );
    let actions3 = peer.handle_message(piece_msg, &mut manager);
    assert_eq!(actions3.len(), 1);
    match &actions3[0] {
        Action::Write { piece, piece_complete, .. } => {
            assert_eq!(*piece, target);
            assert!(*piece_complete);
        }
        _ => panic!("expected a write"),
    }
    // verifying it frees the slot, and the next round requests one more
    let (verified, all_done) = manager.finish_piece(target as usize, &data);
    assert!(verified);
    assert!(!all_done);
    let actions4 = peer.handle_message(
        Message::new(1, Some(1), MessagePlayload::UnChoke),
        &mut manager,
    );
    assert_eq!(actions4.len(), 1);
    assert!(matches!(actions4[0], Action::Send(_)));
}

#[test]
fn a_departing_peer_takes_its_counts_along() {
    let info = make_info(&[[0u8; 20], [1u8; 20]], 16384, 16384);
    let mut manager = Downloader::new(info);
    let both = bit_vec::BitVec::from_bytes(&[0b1100_0000]);
    let only_first = bit_vec::BitVec::from_bytes(&[0b1000_0000]);
    manager.update_priority(&both);
    manager.update_priority(&only_first);
    // counts [2, 1]; the peer holding both leaves: [1, 0]
    manager.apply_disconnect(&both);
    // piece 1 is no longer reported by anyone, but it can still be picked
    // from a peer that claims it now
    let second = bit_vec::BitVec::from_bytes(&[0b0100_0000]);
    assert_eq!(manager.pick_next_piece(&second), Some(1));
    // dropping a count below zero is refused quietly
    manager.apply_disconnect(&both);
    manager.apply_disconnect(&both);
    assert_eq!(manager.pick_next_piece(&only_first), Some(0));
}
