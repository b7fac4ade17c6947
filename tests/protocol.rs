use kalah::board::new_board;
use kalah::protocol::{
    create_move_message, create_swap_message, get_message_type, interpret_start_message,
    interpret_state_message, MessageType, MoveTurn,
};
use kalah::side::Side;

#[test]
fn message_types_by_prefix() {
    assert_eq!(get_message_type("START;South").unwrap(), MessageType::Start);
    assert_eq!(get_message_type("CHANGE;1;0,0;YOU").unwrap(), MessageType::State);
    assert_eq!(get_message_type("END").unwrap(), MessageType::End);
    assert!(get_message_type("MOVE;3").is_err());
    assert!(get_message_type("").is_err());
}

#[test]
fn start_message_side() {
    assert!(interpret_start_message("START;South").unwrap());
    assert!(!interpret_start_message("START;North").unwrap());
    assert!(interpret_start_message("START;East").is_err());
}

#[test]
fn state_message_fills_the_board() {
    let mut b = new_board(3, 0);
    let turn = interpret_state_message("CHANGE;3;1,2,3,4,5,6,7,8;YOU", &mut b).unwrap();
    assert_eq!(turn, MoveTurn::Move(3, true));
    assert_eq!(b.get_seeds(Side::North, 1).unwrap(), 1);
    assert_eq!(b.get_seeds(Side::North, 3).unwrap(), 3);
    assert_eq!(b.get_seeds_in_store(Side::North), 4);
    assert_eq!(b.get_seeds(Side::South, 1).unwrap(), 5);
    assert_eq!(b.get_seeds(Side::South, 3).unwrap(), 7);
    assert_eq!(b.get_seeds_in_store(Side::South), 8);
}

#[test]
fn state_message_swap_and_turns() {
    let mut b = new_board(3, 0);
    assert_eq!(
        interpret_state_message("CHANGE;SWAP;1,2,3,4,5,6,7,8;OPP", &mut b).unwrap(),
        MoveTurn::Move(-1, false)
    );
    assert_eq!(
        interpret_state_message("CHANGE;12;1,2,3,4,5,6,7,8;END", &mut b).unwrap(),
        MoveTurn::MoveEnd
    );
}

#[test]
fn malformed_state_messages_are_rejected() {
    let mut b = new_board(3, 1);
    assert!(interpret_state_message("CHANGE;3;1,2,3,4,5,6,7,8", &mut b).is_err());
    assert!(interpret_state_message("CHANGE;x;1,2,3,4,5,6,7,8;YOU", &mut b).is_err());
    assert!(interpret_state_message("CHANGE;3;1,2,3,4,5,6,7;YOU", &mut b).is_err());
    assert!(interpret_state_message("CHANGE;3;1,2,3,4,5,6,7,300;YOU", &mut b).is_err());
    assert!(interpret_state_message("CHANGE;3;1,2,3,4,5,6,7,8;THEM", &mut b).is_err());
    assert_eq!(b.get_seeds(Side::North, 1).unwrap(), 1);
    assert_eq!(b.get_seeds_in_store(Side::South), 0);
}

#[test]
fn move_message_encoding() {
    assert_eq!(create_move_message(3), "MOVE;3\n");
    assert_eq!(create_move_message(12), "MOVE;12\n");
}

#[test]
fn swap_message_encoding() {
    assert_eq!(create_swap_message(), "SWAP\n");
}
