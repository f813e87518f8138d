//! A verified engine for the vertical-drop connect-four board game:
//! the board state machine with its reversible move stack, the strategy
//! interface, a bounded-depth minimax searcher, and the decision logic of
//! the reinforcement-learning agents.

pub mod ai_gen_player;
pub mod ai_q_player;
pub mod ai_qoff_player;
pub mod ai_value_player;
pub mod field;
pub mod game;
pub mod io_player;
pub mod minimax_player;
pub mod player;
pub mod random_player;
mod rng;
