use games::agents::{AlphabetaAgent, HumanPlayer, MctsUctAgent, MinmaxAgent};
use games::alphabeta::{alphabeta, alphabeta_search};
use games::cache::{CacheEntry, TranspositionTable, DEPTH_TERMINAL};
use games::environment::Environment;
use games::intmath::{ilog2, isqrt};
use games::mcts::{add_value, find_terminal_value, mcts, read_cache, uct, Statistics, StatsTable, Uct};
use games::minmax::{depth_first, minmax, DepthFirst};
use games::ordering::sort_children;
use games::play::{apply_answer, play, play_game, play_game_2players, Agent};
use games::rebase::{find_descendants, update_tree};
use games::tictactoe::{AgentId, Board, OpenLines};
use games::values::{terminal_score, LOSS_SCORE, WIN_SCORE};

fn play_moves(moves: &[u8]) -> Board {
    let mut board = Board::initial_state();
    for m in moves {
        assert!(board.update(m));
    }
    board
}

#[test]
fn minmax_sanity_check() {
    let mut board = Board::initial_state();
    let id_x = AgentId::X;
    let id_o = AgentId::O;

    board.update(&0);
    board.update(&1);
    board.update(&3);
    board.update(&4);

    let value_x = depth_first(&board, &id_x);
    let value_o = depth_first(&board, &id_o);

    // A win scores above every other score and a loss below.
    assert_eq!(WIN_SCORE, value_x);
    assert_eq!(LOSS_SCORE, value_o);

    let mut cache_x = TranspositionTable::new();
    let mut cache_y = TranspositionTable::new();

    let (value_x, _) = minmax(&board, &id_x, &DepthFirst, 1, &mut cache_x);
    let (value_o, _) = minmax(&board, &id_o, &DepthFirst, 3, &mut cache_y);

    assert_eq!(WIN_SCORE, value_x);
    assert_eq!(LOSS_SCORE, value_o);
}

#[test]
fn minmax_finds_the_winning_move() {
    let board = play_moves(&[0, 1, 3, 4]);
    let mut cache = TranspositionTable::new();
    let (value, action) = minmax(&board, &AgentId::X, &DepthFirst, 1, &mut cache);
    assert_eq!(value, WIN_SCORE);
    assert_eq!(action, Some(6));
}

#[test]
fn terminal_position_scores_without_search() {
    let board = play_moves(&[0, 1, 3, 4, 6]);
    assert_eq!(terminal_score(&board, &AgentId::X), i64::MAX);
    assert_eq!(terminal_score(&board, &AgentId::O), -i64::MAX);
    assert_eq!(terminal_score(&board, &AgentId::O), -terminal_score(&board, &AgentId::X));
    for depth in [1u64, 2, 5, 9] {
        let mut cx = TranspositionTable::new();
        let mut co = TranspositionTable::new();
        assert_eq!(minmax(&board, &AgentId::X, &DepthFirst, depth, &mut cx), (WIN_SCORE, None));
        assert_eq!(minmax(&board, &AgentId::O, &DepthFirst, depth, &mut co), (LOSS_SCORE, None));
        assert_eq!(cx.get(board.key()).unwrap().depth, DEPTH_TERMINAL);
        let mut ax = TranspositionTable::new();
        assert_eq!(alphabeta_search(&board, &AgentId::X, &DepthFirst, depth, &mut ax), (WIN_SCORE, None));
        let mut aw = TranspositionTable::new();
        // Even with a window that excludes it, an ended game gets its exact score.
        assert_eq!(alphabeta(&board, &AgentId::O, &DepthFirst, depth, 5, 9, &mut aw), (LOSS_SCORE, None));
    }
    let draw = play_moves(&[0, 1, 2, 4, 3, 5, 7, 6, 8]);
    assert_eq!(terminal_score(&draw, &AgentId::X), 0);
}

#[test]
fn empty_board_is_a_draw_with_perfect_play() {
    let board = Board::initial_state();
    let mut cache = TranspositionTable::new();
    let (value, action) = minmax(&board, &AgentId::X, &DepthFirst, 9, &mut cache);
    assert_eq!(value, 0);
    // Every opening draws, so the first cell is the first best move.
    assert_eq!(action, Some(0));
    let mut cache = TranspositionTable::new();
    let (value, action) = alphabeta_search(&board, &AgentId::O, &DepthFirst, 9, &mut cache);
    assert_eq!(value, 0);
    assert_eq!(action, Some(0));
    assert_eq!(depth_first(&board, &AgentId::X), 0);
}

#[test]
fn alphabeta_agrees_with_minmax() {
    let positions = [
        play_moves(&[]),
        play_moves(&[4]),
        play_moves(&[0, 1]),
        play_moves(&[0, 1, 3, 4]),
        play_moves(&[4, 0, 8]),
        play_moves(&[2, 4, 6, 0]),
    ];
    for board in positions.iter() {
        for depth in 0u64..6 {
            for agent in [AgentId::X, AgentId::O] {
                let mut c1 = TranspositionTable::new();
                let mut c2 = TranspositionTable::new();
                let (v1, a1) = minmax(board, &agent, &OpenLines, depth, &mut c1);
                let (v2, a2) = alphabeta_search(board, &agent, &OpenLines, depth, &mut c2);
                assert_eq!(v1, v2);
                // Both pick the first best move in enumeration order.
                assert_eq!(a1, a2);
                if let Some(a) = a2 {
                    let mut c3 = TranspositionTable::new();
                    let child = board.what_if(&a);
                    let (cv, _) = minmax(&child, &agent, &OpenLines, depth - 1, &mut c3);
                    assert_eq!(cv, v1);
                }
            }
        }
    }
}

#[test]
fn deeper_than_the_game_gives_the_exact_value() {
    let board = play_moves(&[0, 1]);
    let exact = depth_first(&board, &AgentId::X);
    for depth in [7u64, 8, 12] {
        let mut cache = TranspositionTable::new();
        let (v, _) = minmax(&board, &AgentId::X, &OpenLines, depth, &mut cache);
        assert_eq!(v, exact);
    }
    assert_eq!(exact, WIN_SCORE);
}

#[test]
fn alphabeta_window_bounds() {
    let board = play_moves(&[0, 1, 3, 4]);
    let mut cache = TranspositionTable::new();
    let (v, _) = alphabeta(&board, &AgentId::X, &DepthFirst, 2, -5, -2, &mut cache);
    // The true value (a win) lies above the window, so the result bounds it from below.
    assert!(v >= -2);
}

#[test]
fn open_lines_scores_both_sides() {
    let board = Board::initial_state();
    assert_eq!(games::values::Reward::reward(&OpenLines, &board, &AgentId::X), 0);
    // X in the centre closes four lines to O.
    let board = play_moves(&[4]);
    assert_eq!(games::values::Reward::reward(&OpenLines, &board, &AgentId::X), 4);
    assert_eq!(games::values::Reward::reward(&OpenLines, &board, &AgentId::O), -4);
    // O in a corner closes three lines to X.
    let board = play_moves(&[4, 0]);
    assert_eq!(games::values::Reward::reward(&OpenLines, &board, &AgentId::X), 1);
}

#[test]
fn cache_entries_answer_only_their_depth() {
    let e = CacheEntry { value: 3, depth: 2, action: Some(4u8) };
    assert!(e.answers(2));
    assert!(!e.answers(3));
    assert!(!e.answers(1));
    let t = CacheEntry::<u8> { value: 1, depth: DEPTH_TERMINAL, action: None };
    assert!(t.answers(0));
    assert!(t.answers(40));
}

#[test]
fn cache_is_reused_and_kept_sound() {
    let board = play_moves(&[4]);
    let mut cache = TranspositionTable::new();
    let first = minmax(&board, &AgentId::O, &OpenLines, 3, &mut cache);
    let len = cache.len();
    assert!(len > 1);
    let again = minmax(&board, &AgentId::O, &OpenLines, 3, &mut cache);
    assert_eq!(first, again);
    assert_eq!(cache.len(), len);
    let e = cache.get(board.key()).unwrap();
    assert_eq!(e.depth, 3);
    assert_eq!(e.value, first.0);
    cache.clear();
    assert_eq!(cache.len(), 0);
}

#[test]
fn sort_children_ranks_best_first() {
    let keys = vec![Some(1), None, Some(5), Some(1), Some(-3)];
    assert_eq!(sort_children(&keys, true), vec![2usize, 0, 3, 4, 1]);
    assert_eq!(sort_children(&keys, false), vec![4usize, 0, 3, 2, 1]);
    assert_eq!(sort_children(&vec![], true), Vec::<usize>::new());
}

#[test]
fn rebase_keeps_reachable_entries() {
    let root = Board::initial_state();
    let mut cache = TranspositionTable::new();
    minmax(&root, &AgentId::X, &OpenLines, 2, &mut cache);
    let before = cache.len();
    assert_eq!(before, 1 + 9 + 72);
    let after_move = root.what_if(&4);
    update_tree(&after_move, 1, &mut cache);
    // The position after the move and its eight children stay.
    assert_eq!(cache.len(), 9);
    assert!(cache.get(after_move.key()).is_some());
    assert!(cache.get(root.key()).is_none());
    let keys = find_descendants(&after_move, 1);
    assert_eq!(keys.len(), 9);
    assert_eq!(find_descendants(&play_moves(&[0, 1, 3, 4, 6]), 3).len(), 1);
}

#[test]
fn terminal_samples() {
    let won = play_moves(&[0, 1, 3, 4, 6]);
    assert_eq!(find_terminal_value(&won, &AgentId::X), Statistics { score: 1, visits: 1 });
    assert_eq!(find_terminal_value(&won, &AgentId::O), Statistics { score: -1, visits: 1 });
    let draw = play_moves(&[0, 1, 2, 4, 3, 5, 7, 6, 8]);
    assert_eq!(find_terminal_value(&draw, &AgentId::X), Statistics { score: 0, visits: 1 });
}

#[test]
fn simulation_backs_up_the_sample() {
    let board = play_moves(&[0, 1, 3, 4]);
    let mut stats = StatsTable::new();
    let r = mcts(&board, &AgentId::X, &Uct { exploration: 1 }, &mut stats);
    assert_eq!(r.visits, 1);
    assert_eq!(read_cache(&board, &stats), r);
    let again = mcts(&board, &AgentId::X, &Uct { exploration: 1 }, &mut stats);
    assert_eq!(read_cache(&board, &stats).visits, 2);
    assert_eq!(read_cache(&board, &stats).score, r.score + again.score);
}

#[test]
fn unvisited_moves_come_first() {
    let board = Board::initial_state();
    let mut stats = StatsTable::new();
    for a in 0u8..9 {
        if a != 5 && a != 7 {
            add_value(&board.what_if(&a), &Statistics { score: 9, visits: 10 }, &mut stats);
        }
    }
    for exploration in [0u32, 1, 1000] {
        assert_eq!(uct(&board, &AgentId::X, &stats, exploration), Some(5));
    }
    add_value(&board.what_if(&5), &Statistics { score: -10, visits: 10 }, &mut stats);
    assert_eq!(uct(&board, &AgentId::X, &stats, 1000), Some(7));
}

#[test]
fn uct_exploits_the_best_mean() {
    let board = Board::initial_state();
    let mut stats = StatsTable::new();
    for a in 0u8..9 {
        let score = if a == 2 { 8 } else if a == 6 { -9 } else { 1 };
        add_value(&board.what_if(&a), &Statistics { score, visits: 10 }, &mut stats);
    }
    // X to move: X maximizes its own mean.
    assert_eq!(uct(&board, &AgentId::X, &stats, 0), Some(2));
    // From O's point of view the scores are flipped.
    assert_eq!(uct(&board, &AgentId::O, &stats, 0), Some(6));
    // A heavily visited child loses against a rarely visited one once exploration counts.
    let mut skew = StatsTable::new();
    for a in 0u8..9 {
        let (score, visits) = if a == 0 { (60, 100) } else { (1, 2) };
        add_value(&board.what_if(&a), &Statistics { score, visits }, &mut skew);
    }
    assert_eq!(uct(&board, &AgentId::X, &skew, 0), Some(0));
    assert_eq!(uct(&board, &AgentId::X, &skew, 256), Some(1));
    assert_eq!(uct(&play_moves(&[0, 1, 3, 4, 6]), &AgentId::X, &skew, 0), None);
}

#[test]
fn integer_roots_and_logs() {
    assert_eq!(isqrt(0), 0);
    assert_eq!(isqrt(15), 3);
    assert_eq!(isqrt(16), 4);
    assert_eq!(isqrt(u64::MAX), 0xFFFF_FFFF);
    assert_eq!(ilog2(0), 0);
    assert_eq!(ilog2(1), 0);
    assert_eq!(ilog2(1023), 9);
    assert_eq!(ilog2(1024), 10);
    assert_eq!(ilog2(u128::MAX), 127);
}

#[test]
fn mcts_agent_opens_with_a_legal_move() {
    let board = Board::initial_state();
    let mut agent: MctsUctAgent<Board> = MctsUctAgent::new(AgentId::X, 362, 1000);
    assert_eq!(agent.identity(), AgentId::X);
    let a = agent.best_action(&board).unwrap();
    assert!(a < 9);
    assert!(board.is_valid(&a));
}

#[test]
fn agents_pick_the_winning_move() {
    let board = play_moves(&[0, 1, 3, 4]);
    let mut mm = MinmaxAgent::new(AgentId::X, OpenLines, 1);
    assert_eq!(mm.action(&board), Some(6));
    let mut ab = AlphabetaAgent::new(AgentId::X, OpenLines, 1);
    assert_eq!(ab.action(&board), Some(6));
    let mut uc: MctsUctAgent<Board> = MctsUctAgent::new(AgentId::X, 362, 300);
    assert_eq!(uc.action(&board), Some(6));
    let done = play_moves(&[0, 1, 3, 4, 6]);
    assert_eq!(mm.action(&done), None);
}

#[test]
fn two_perfect_players_draw() {
    let mut board = Board::initial_state();
    let mut x = AlphabetaAgent::new(AgentId::X, DepthFirst, 10);
    let mut o = AlphabetaAgent::new(AgentId::O, DepthFirst, 10);
    let log = play(&mut board, &mut x, &mut o);
    assert!(board.is_terminal());
    assert_eq!(board.winner(), None);
    assert_eq!(log.len(), 9);
    assert_eq!(log[0].0, AgentId::X);
    assert_eq!(log[1].0, AgentId::O);
    let mut replay = Board::initial_state();
    for (agent, a) in &log {
        assert_eq!(replay.turn(), *agent);
        assert!(replay.update(a));
    }
    assert_eq!(replay, board);
}

#[test]
fn minmax_beats_a_careless_player() {
    struct FirstFree(AgentId);
    impl Agent<Board> for FirstFree {
        fn identity(&self) -> AgentId {
            self.0
        }
        fn action(&mut self, env: &Board) -> Option<u8> {
            env.valid_actions().first().copied()
        }
    }
    let mut board = Board::initial_state();
    let mut o = MinmaxAgent::new(AgentId::O, DepthFirst, 9);
    let mut x = FirstFree(AgentId::X);
    let log = play_game_2players(&mut board, &mut x, &mut o);
    assert_eq!(board.winner(), Some(AgentId::O));
    assert!(log.len() < 9);

    let mut board = Board::initial_state();
    let mut agents = vec![FirstFree(AgentId::O), FirstFree(AgentId::X)];
    let log = play_game(&mut board, &mut agents);
    // X takes 0, 2, 4, 6 while O takes 1, 3, 5: X completes the diagonal 2-4-6.
    assert_eq!(board.winner(), Some(AgentId::X));
    assert_eq!(log.len(), 7);
}

#[test]
fn play_stops_when_no_agent_can_move() {
    let mut board = Board::initial_state();
    let mut x = MinmaxAgent::new(AgentId::O, DepthFirst, 1);
    let mut o = MinmaxAgent::new(AgentId::O, DepthFirst, 1);
    let log = play(&mut board, &mut x, &mut o);
    assert!(log.is_empty());
    assert_eq!(board, Board::initial_state());
    let human = HumanPlayer::new(AgentId::X);
    assert_eq!(human.identity(), AgentId::X);
}

#[test]
fn answers_are_applied_only_when_legal() {
    let mut board = Board::initial_state();
    let mut log = Vec::new();
    assert!(!apply_answer(&mut board, AgentId::O, Some(4), &mut log));
    assert!(!apply_answer(&mut board, AgentId::X, None, &mut log));
    assert!(!apply_answer(&mut board, AgentId::X, Some(9), &mut log));
    assert_eq!(board, Board::initial_state());
    assert!(log.is_empty());
    assert!(apply_answer(&mut board, AgentId::X, Some(4), &mut log));
    assert_eq!(log, vec![(AgentId::X, 4u8)]);
    assert_eq!(board.turn(), AgentId::O);
    assert!(!apply_answer(&mut board, AgentId::O, Some(4), &mut log));
    assert_eq!(log.len(), 1);
}

#[test]
fn depth_zero_agents_offer_no_move() {
    let board = Board::initial_state();
    let mut mm = MinmaxAgent::new(AgentId::X, OpenLines, 0);
    assert_eq!(mm.action(&board), None);
    let mut ab = AlphabetaAgent::new(AgentId::X, OpenLines, 0);
    assert_eq!(ab.action(&board), None);
}

#[test]
fn minmax_agent_breaks_ties_by_enumeration_order() {
    // Every opening draws with perfect play, so the first cell is chosen.
    let board = Board::initial_state();
    let mut mm = MinmaxAgent::new(AgentId::X, DepthFirst, 9);
    assert_eq!(mm.action(&board), Some(0));
    let mut ab = AlphabetaAgent::new(AgentId::X, DepthFirst, 9);
    assert_eq!(ab.action(&board), Some(0));
}

#[test]
fn mcts_agent_counts_its_simulations() {
    let board = play_moves(&[4]);
    let mut agent: MctsUctAgent<Board> = MctsUctAgent::new(AgentId::O, 362, 50);
    let a = agent.action(&board).unwrap();
    assert!(board.is_valid(&a));
    // Each simulation visits the root and exactly one of its children.
    let mut child_visits = 0;
    let mut stats = StatsTable::new();
    for _ in 0..50 {
        mcts(&board, &AgentId::O, &Uct { exploration: 362 }, &mut stats);
    }
    assert_eq!(read_cache(&board, &stats).visits, 50);
    for c in board.valid_actions() {
        child_visits += read_cache(&board.what_if(&c), &stats).visits;
    }
    assert_eq!(child_visits, 50);
}
