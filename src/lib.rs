//! Adversarial game-tree search over an abstract two-player game: minmax
//! and alpha-beta search with a transposition table, Monte-Carlo tree search
//! with UCT selection, and agents that wrap them.
pub mod environment;
pub mod tictactoe;
pub mod values;
pub mod cache;
pub mod minmax;
pub mod ordering;
pub mod alphabeta;
pub mod intmath;
pub mod mcts;
pub mod play;
pub mod rebase;
pub mod agents;
pub mod children;
