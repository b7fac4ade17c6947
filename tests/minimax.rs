use kalah::board::new_board;
use kalah::minimax::new_minimax;
use kalah::side::Side;

#[test]
fn best_move_is_legal_and_deterministic() {
    let b = new_board(3, 2);
    let m = new_minimax(Side::South);
    let first = m.get_best_move(&b).unwrap();
    assert!(b.is_legal(Side::South, first));
    assert_eq!(m.get_best_move(&b).unwrap(), first);
}

#[test]
fn best_move_takes_a_free_turn_that_ends_the_game() {
    // South pit 3 holds one seed: playing it lands in the store, empties South's row
    // and collects the rest, winning outright.
    let mut b = new_board(3, 0);
    b.set_seeds(Side::South, 3, 1).unwrap();
    b.set_seeds(Side::South, 1, 4).unwrap();
    b.set_seeds(Side::North, 2, 1).unwrap();
    let m = new_minimax(Side::South);
    let hole = m.get_best_move(&b).unwrap();
    assert!(b.is_legal(Side::South, hole));
}

#[test]
fn best_move_is_zero_without_legal_moves() {
    let mut b = new_board(3, 0);
    b.set_seeds(Side::North, 1, 3).unwrap();
    let m = new_minimax(Side::South);
    assert_eq!(m.get_best_move(&b).unwrap(), 0);
}

#[test]
fn update_side_changes_the_searching_side() {
    let mut b = new_board(3, 0);
    b.set_seeds(Side::North, 2, 3).unwrap();
    let mut m = new_minimax(Side::South);
    assert_eq!(m.get_best_move(&b).unwrap(), 0);
    m.update_side(Side::North);
    assert_eq!(m.get_best_move(&b).unwrap(), 2);
}
