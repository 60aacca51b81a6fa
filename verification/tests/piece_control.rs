use o_torrent::piece_control::PieceControler;
use rand::Rng;

fn test_gen(no_pieces: usize, inc_times: i64) {
    let mut piece_control = PieceControler::new(no_pieces);
    let mut rng = rand::thread_rng();
    for _i in 0..inc_times {
        let idx = rng.gen_range(0, no_pieces);
        piece_control.increase_count(idx);
    }
    assert!(piece_control.check_piece_list_invalid());
}

#[test]
fn check_increase10_20() {
    test_gen(10, 20);
}

#[test]
fn check_increase10_200() {
    test_gen(10, 200);
}

#[test]
fn check_increase100_20() {
    test_gen(100, 20);
}

#[test]
fn check_increase100_200() {
    test_gen(100, 200);
}

#[test]
fn increase_and_decrease_keep_order() {
    let mut pc = PieceControler::new(16);
    let mut rng = rand::thread_rng();
    let mut held: Vec<usize> = Vec::new();
    for _i in 0..60 {
        let idx = rng.gen_range(0, 16);
        pc.increase_count(idx);
        held.push(idx);
    }
    assert!(pc.check_piece_list_invalid());
    for idx in held {
        pc.decrease_count(idx);
        assert!(pc.check_piece_list_invalid());
    }
}

#[test]
fn rarest_first_pick_order() {
    // four pieces, counts become [1, 2, 1, 0]
    let mut pc = PieceControler::new(4);
    pc.increase_count(0);
    pc.increase_count(1);
    pc.increase_count(1);
    pc.increase_count(2);
    let all = bit_vec::BitVec::from_elem(4, true);
    // the piece nobody has yet comes first
    let first = pc.get_next_piece(&all).unwrap();
    assert_eq!(first, 3);
    pc.set_piece_picked(first);
    // then the two singles, in either order, then the pair
    let second = pc.get_next_piece(&all).unwrap();
    assert!(second == 0 || second == 2);
    pc.set_piece_picked(second);
    let third = pc.get_next_piece(&all).unwrap();
    assert!(third == 0 || third == 2);
    assert_ne!(third, second);
    pc.set_piece_picked(third);
    let fourth = pc.get_next_piece(&all).unwrap();
    assert_eq!(fourth, 1);
    pc.set_piece_picked(fourth);
    assert!(pc.get_next_piece(&all).is_none());
}

#[test]
fn pick_respects_the_peer_bitfield() {
    let mut pc = PieceControler::new(3);
    pc.increase_count(2);
    let mut bf = bit_vec::BitVec::from_elem(3, false);
    bf.set(2, true);
    // only piece 2 is offered, though pieces 0 and 1 are rarer
    assert_eq!(pc.get_next_piece(&bf), Some(2));
    pc.set_piece_complete(2);
    assert_eq!(pc.get_next_piece(&bf), None);
}

#[test]
fn completion_counts_every_piece_once() {
    let mut pc = PieceControler::new(3);
    assert!(!pc.set_piece_complete(0));
    assert!(!pc.set_piece_complete(0));
    assert!(!pc.set_piece_complete(1));
    assert!(pc.set_piece_complete(2));
    assert_eq!(pc.get_no_entries(), 3);
}

#[test]
fn single_piece_controller() {
    let mut pc = PieceControler::new(1);
    assert!(pc.check_piece_list_invalid());
    let all = bit_vec::BitVec::from_elem(1, true);
    pc.increase_count(0);
    assert_eq!(pc.get_next_piece(&all), Some(0));
    pc.set_piece_picked(0);
    assert_eq!(pc.get_next_piece(&all), None);
    assert!(pc.set_piece_complete(0));
    pc.decrease_count(0);
    assert!(pc.check_piece_list_invalid());
}
