use kalah::board::new_board;
use kalah::board::Board;
use kalah::side::Side;

fn board_of(holes: usize, south: &[u8], south_store: u8, north: &[u8], north_store: u8) -> Board {
    let mut b = new_board(holes, 0);
    for (i, s) in south.iter().enumerate() {
        b.set_seeds(Side::South, i + 1, *s).unwrap();
    }
    for (i, s) in north.iter().enumerate() {
        b.set_seeds(Side::North, i + 1, *s).unwrap();
    }
    b.set_seeds_in_store(Side::South, south_store);
    b.set_seeds_in_store(Side::North, north_store);
    b
}

fn row(b: &Board, side: Side) -> Vec<u8> {
    (1..=b.get_no_of_holes()).map(|h| b.get_seeds(side, h).unwrap()).collect()
}

fn total(b: &Board) -> u32 {
    let mut t = b.get_seeds_in_store(Side::South) as u32 + b.get_seeds_in_store(Side::North) as u32;
    for h in 1..=b.get_no_of_holes() {
        t += b.get_seeds(Side::South, h).unwrap() as u32 + b.get_seeds(Side::North, h).unwrap() as u32;
    }
    t
}

#[test]
fn side_opposite_and_index() {
    assert_eq!(Side::South.opposite(), Side::North);
    assert_eq!(Side::North.opposite(), Side::South);
    assert_eq!(Side::South.index(), 0);
    assert_eq!(Side::North.index(), 1);
}

#[test]
fn new_board_fills_pits_and_empties_stores() {
    let b = new_board(7, 7);
    assert_eq!(b.get_no_of_holes(), 7);
    assert_eq!(row(&b, Side::South), vec![7; 7]);
    assert_eq!(row(&b, Side::North), vec![7; 7]);
    assert_eq!(b.get_seeds_in_store(Side::South), 0);
    assert_eq!(b.get_seeds_in_store(Side::North), 0);
    assert_eq!(total(&b), 98);
}

#[test]
fn accessors_reject_invalid_holes() {
    let mut b = new_board(3, 2);
    assert!(b.get_seeds(Side::South, 0).is_err());
    assert!(b.get_seeds(Side::South, 4).is_err());
    assert!(b.get_seeds_op(Side::North, 0).is_err());
    assert!(b.set_seeds(Side::North, 4, 1).is_err());
    assert!(b.set_seeds_op(Side::South, 0, 1).is_err());
    assert!(b.make_move(Side::South, 0).is_err());
    assert!(b.make_move(Side::South, 4).is_err());
    assert_eq!(row(&b, Side::South), vec![2, 2, 2]);
    assert_eq!(row(&b, Side::North), vec![2, 2, 2]);
}

#[test]
fn mirrored_accessors_address_the_pit_across() {
    let mut b = board_of(3, &[1, 2, 3], 0, &[4, 5, 6], 0);
    assert_eq!(b.get_seeds_op(Side::South, 1).unwrap(), 6);
    assert_eq!(b.get_seeds_op(Side::North, 3).unwrap(), 1);
    b.set_seeds_op(Side::South, 2, 9).unwrap();
    assert_eq!(b.get_seeds(Side::North, 2).unwrap(), 9);
}

#[test]
fn legality_follows_range_and_seeds() {
    let b = board_of(3, &[0, 2, 1], 0, &[1, 0, 0], 0);
    assert!(!b.is_legal(Side::South, 0));
    assert!(!b.is_legal(Side::South, 1));
    assert!(b.is_legal(Side::South, 2));
    assert!(b.is_legal(Side::South, 3));
    assert!(!b.is_legal(Side::South, 4));
    assert!(b.is_legal(Side::North, 1));
    assert!(!b.is_legal(Side::North, 2));
}

#[test]
fn game_over_when_a_row_is_empty() {
    assert!(!new_board(3, 1).game_over());
    assert!(board_of(3, &[0, 0, 0], 5, &[1, 0, 0], 0).game_over());
    assert!(board_of(3, &[0, 1, 0], 5, &[0, 0, 0], 0).game_over());
}

#[test]
fn clone_is_independent() {
    let b = new_board(3, 3);
    let mut c = b.clone();
    c.make_move(Side::South, 1).unwrap();
    assert_eq!(row(&b, Side::South), vec![3, 3, 3]);
    assert_ne!(row(&c, Side::South), vec![3, 3, 3]);
}

#[test]
fn wraparound_without_capture() {
    let mut b = board_of(3, &[3, 3, 3], 0, &[3, 3, 3], 0);
    let next = b.make_move(Side::South, 3).unwrap();
    assert_eq!(row(&b, Side::South), vec![3, 3, 0]);
    assert_eq!(b.get_seeds_in_store(Side::South), 1);
    assert_eq!(row(&b, Side::North), vec![4, 4, 3]);
    assert_eq!(b.get_seeds_in_store(Side::North), 0);
    assert_eq!(next, Side::North);
}

#[test]
fn last_seed_in_store_gives_free_turn() {
    let mut b = board_of(3, &[3, 3, 1], 0, &[3, 3, 3], 0);
    let next = b.make_move(Side::South, 3).unwrap();
    assert_eq!(b.get_seeds(Side::South, 3).unwrap(), 0);
    assert_eq!(b.get_seeds_in_store(Side::South), 1);
    assert_eq!(next, Side::South);
}

#[test]
fn capture_of_the_mirror_pit() {
    let mut b = board_of(3, &[1, 0, 2], 0, &[1, 5, 1], 0);
    let next = b.make_move(Side::South, 1).unwrap();
    assert_eq!(b.get_seeds_in_store(Side::South), 6);
    assert_eq!(b.get_seeds(Side::South, 2).unwrap(), 0);
    assert_eq!(b.get_seeds(Side::North, 2).unwrap(), 0);
    assert_eq!(next, Side::North);
}

#[test]
fn no_capture_when_mirror_is_empty() {
    let mut b = board_of(3, &[1, 0, 2], 0, &[1, 0, 1], 0);
    let next = b.make_move(Side::South, 1).unwrap();
    assert_eq!(row(&b, Side::South), vec![0, 1, 2]);
    assert_eq!(b.get_seeds_in_store(Side::South), 0);
    assert_eq!(next, Side::North);
}

#[test]
fn multi_lap_sowing_skips_the_opponent_store() {
    // 7 receiving places per lap on a 3-pit board: 9 seeds make one lap and 2 more.
    let mut b = board_of(3, &[9, 0, 0], 0, &[1, 1, 1], 4);
    let before = total(&b);
    let next = b.make_move(Side::South, 1).unwrap();
    assert_eq!(row(&b, Side::South), vec![1, 2, 2]);
    assert_eq!(b.get_seeds_in_store(Side::South), 1);
    assert_eq!(row(&b, Side::North), vec![2, 2, 2]);
    assert_eq!(b.get_seeds_in_store(Side::North), 4);
    assert_eq!(next, Side::North);
    assert_eq!(total(&b), before);
}

#[test]
fn exactly_one_lap_can_capture_in_the_played_pit() {
    // 7 seeds on a 3-pit board come back round to the played pit.
    let mut b = board_of(3, &[0, 0, 7], 0, &[2, 0, 0], 0);
    let next = b.make_move(Side::South, 3).unwrap();
    // The mirror of pit 3 is North pit 1, which held 2 and got one more.
    assert_eq!(b.get_seeds_in_store(Side::South), 1 + 1 + 3);
    assert_eq!(b.get_seeds(Side::South, 3).unwrap(), 0);
    assert_eq!(b.get_seeds(Side::North, 1).unwrap(), 0);
    assert_eq!(next, Side::North);
}

#[test]
fn terminal_collection_moves_remaining_pits_to_store() {
    let mut b = board_of(3, &[0, 0, 1], 2, &[1, 2, 3], 4);
    let next = b.make_move(Side::South, 3).unwrap();
    assert_eq!(next, Side::South);
    assert_eq!(row(&b, Side::South), vec![0, 0, 0]);
    assert_eq!(row(&b, Side::North), vec![0, 0, 0]);
    assert_eq!(b.get_seeds_in_store(Side::South), 3);
    assert_eq!(b.get_seeds_in_store(Side::North), 4 + 6);
    assert!(b.game_over());
}

#[test]
fn conservation_over_a_game_line() {
    let mut b = new_board(7, 7);
    let mut side = Side::South;
    for _ in 0..40 {
        if b.game_over() {
            break;
        }
        let hole = (1..=7).find(|h| b.is_legal(side, *h)).unwrap();
        side = b.make_move(side, hole).unwrap();
        assert_eq!(total(&b), 98);
    }
}
