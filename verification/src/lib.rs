//! Monte Carlo tree search over a transposition table, with the shared-memory
//! protocol, the board encodings and the self-play rules built around it.

pub mod scalar;
pub mod environment;
pub mod node;
pub mod fxtable;
pub mod tree;
pub mod inference;
pub mod mcts;
pub mod advance;
pub mod puct_laws;
pub mod policy;
pub mod pruning_laws;
pub mod search;
pub mod flight;
pub mod value_laws;
pub mod trace;
pub mod run;
pub mod search_laws;
pub mod history;
pub mod rounds;
pub mod matrix;
pub mod boards;
pub mod unpack;
pub mod board_laws;
pub mod ring;
pub mod observation;
pub mod comms;
pub mod slot;
pub mod text;
pub mod arena;
pub mod tilers_obs;
pub mod tilers_slot;
pub mod client;
pub mod reward;
pub mod gatherer;
pub mod moves;
pub mod move_laws;
pub mod climb;
pub mod grading;
pub mod reward_laws;
pub mod episode;
pub mod episode_laws;
pub mod records;
pub mod playthrough;
pub mod writing;
pub mod generation;
pub mod session;
pub mod session_laws;
pub mod json_text;
pub mod evaluator;
pub mod game_laws;
pub mod gathering_laws;
pub mod trace_laws;
pub mod assessment;
pub mod inspect;
pub mod inspect_laws;
pub mod runner;
pub mod agent;
pub mod core_agent;
pub mod serving;
pub mod wire_laws;
pub mod selfplay;
pub mod scoring;
pub mod token_play;
pub mod heuristic;
pub mod play_laws;
pub mod walk;
pub mod dashtable;
pub mod shared_node;
pub mod shared_mcts;
pub mod chance;
pub mod par_node;
pub mod par_graph;
pub mod par_mcts;
pub mod engine_laws;
pub mod mocks;
