use games::children::ActionEnvironmentIter;
use games::environment::Environment;
use games::tictactoe::{is_filled, is_winning, filled_positions, ActionIter, AgentId, Board};

#[test]
fn it_works() {
    assert_eq!(2 + 2, 4);
}

/// Plays a manual game and check that the board updates accordingly.
#[test]
fn mod_manual_game() {
    let mut board = Board::initial_state();
    assert_eq!(board.moves_x, 0);
    assert_eq!(board.moves_o, 0);
    assert_eq!(board.turn(), AgentId::X);

    assert_eq!(board.update(&4), true);
    assert_eq!(board.moves_x, 0b10000);
    assert_eq!(board.turn, AgentId::O);

    assert_eq!(board.update(&5), true);
    assert_eq!(board.moves_o, 0b100000);
    assert_eq!(board.turn, AgentId::X);

    assert_eq!(board.update(&0), true);
    assert_eq!(board.moves_x, 0b10001);
    assert_eq!(board.turn, AgentId::O);

    assert_eq!(board.update(&0), false);

    assert_eq!(board.update(&1), true);
    assert_eq!(board.moves_o, 0b100010);
    assert_eq!(board.turn, AgentId::X);

    assert_eq!(board.update(&8), true);
    assert_eq!(board.moves_x, 0b100010001);
    assert_eq!(board.turn, AgentId::O);

    assert_eq!(is_filled(&board), false);
    assert_eq!(is_winning(board.moves_o), false);
    assert_eq!(is_winning(board.moves_x), true);
    assert_eq!(board.is_terminal(), true);
}

#[test]
fn environment_manual_game() {
    let mut board = Board::initial_state();
    assert_eq!(board.moves_x, 0);
    assert_eq!(board.moves_o, 0);
    assert_eq!(board.turn(), AgentId::X);

    assert_eq!(board.update(&4), true);
    assert_eq!(board.moves_x, 0b10000);
    assert_eq!(board.turn, AgentId::O);

    assert_eq!(board.update(&5), true);
    assert_eq!(board.moves_o, 0b100000);
    assert_eq!(board.turn, AgentId::X);

    assert_eq!(board.update(&0), true);
    assert_eq!(board.moves_x, 0b10001);
    assert_eq!(board.turn, AgentId::O);

    assert_eq!(board.update(&0), false);

    assert_eq!(board.update(&1), true);
    assert_eq!(board.moves_o, 0b100010);
    assert_eq!(board.turn, AgentId::X);

    assert_eq!(board.update(&8), true);
    assert_eq!(board.moves_x, 0b100010001);
    assert_eq!(board.turn, AgentId::O);

    assert_eq!(is_filled(&board), false);
    assert_eq!(is_winning(board.moves_o), false);
    assert_eq!(is_winning(board.moves_x), true);
    assert_eq!(board.is_terminal(), true);
}

fn play_moves(moves: &[u8]) -> Board {
    let mut board = Board::initial_state();
    for m in moves {
        assert!(board.update(m));
    }
    board
}

#[test]
fn empty_board_offers_all_nine_cells() {
    let mut board = Board::initial_state();
    assert_eq!(board.valid_actions(), vec![0u8, 1, 2, 3, 4, 5, 6, 7, 8]);
    assert!(board.update(&0));
    assert_eq!(board.cell(0), Some(AgentId::X));
    assert_eq!(board.turn(), AgentId::O);
    assert_eq!(board.valid_actions(), vec![1u8, 2, 3, 4, 5, 6, 7, 8]);
}

#[test]
fn four_moves_without_a_line_go_on() {
    let board = play_moves(&[0, 1, 3, 4]);
    assert!(!board.is_terminal());
    assert_eq!(board.winner(), None);
    assert_eq!(board.turn(), AgentId::X);
}

#[test]
fn a_full_column_wins() {
    let board = play_moves(&[0, 1, 3, 4, 6]);
    assert!(board.is_terminal());
    assert_eq!(board.winner(), Some(AgentId::X));
    assert!(board.valid_actions().is_empty());
}

#[test]
fn rejected_moves_change_nothing() {
    let mut board = play_moves(&[4]);
    let before = board;
    assert!(!board.update(&4));
    assert!(!board.update(&9));
    assert!(!board.update(&200));
    assert_eq!(board, before);
    assert!(!board.is_valid(&9));
    assert!(board.is_valid(&0));
}

#[test]
fn what_if_leaves_the_board_alone() {
    let board = play_moves(&[4]);
    let next = board.what_if(&0);
    assert_eq!(board.moves_o, 0);
    assert_eq!(next.moves_o, 1);
    assert_eq!(next.turn(), AgentId::X);
}

#[test]
fn a_full_board_without_a_line_is_a_draw() {
    // X O X / X O O / O X X
    let board = play_moves(&[0, 1, 2, 4, 3, 5, 7, 6, 8]);
    assert!(is_filled(&board));
    assert!(board.is_terminal());
    assert_eq!(board.winner(), None);
    assert_eq!(filled_positions(&board), 0b111111111);
}

#[test]
fn every_line_wins() {
    for mask in [0b111u16, 0b111000, 0b111000000, 0b1001001, 0b10010010, 0b100100100, 0b100010001, 0b1010100] {
        assert!(is_winning(mask));
        assert!(is_winning(mask | 0b1000000000));
    }
    assert!(!is_winning(0b11));
    assert!(!is_winning(0b110101010 & 0b010101010));
}

#[test]
fn action_iter_skips_taken_cells() {
    let board = play_moves(&[0, 4, 8]);
    let mut it = ActionIter::new(&board);
    let mut seen = Vec::new();
    while let Some(a) = it.next() {
        seen.push(a);
    }
    assert_eq!(seen, vec![1u8, 2, 3, 5, 6, 7]);
    assert_eq!(it.next(), None);
}

#[test]
fn keys_tell_positions_apart() {
    let a = play_moves(&[0, 1]);
    let b = play_moves(&[1, 0]);
    let c = play_moves(&[0]);
    assert_ne!(a.key(), b.key());
    assert_ne!(a.key(), c.key());
    assert_eq!(a.key(), play_moves(&[0, 1]).key());
    assert_eq!(c.key(), 1 | (1u64 << 32));
}

#[test]
fn agent_names() {
    assert_eq!(AgentId::X.name(), "X");
    assert_eq!(AgentId::O.name(), "O");
}

#[test]
fn children_are_replayed_after_reset() {
    let board = play_moves(&[0, 1, 2, 3, 4, 5]);
    let mut it = ActionEnvironmentIter::new(&board);
    let (a, child) = it.next().unwrap();
    assert_eq!(a, 6);
    assert_eq!(child, board.what_if(&6));
    let (b, _) = it.next().unwrap();
    assert_eq!(b, 7);
    it.reset();
    assert_eq!(it.next().unwrap().0, 6);
    assert_eq!(it.next().unwrap().0, 7);
    assert_eq!(it.next().unwrap().0, 8);
    assert!(it.next().is_none());
    assert!(it.next().is_none());
}
