//! Two parts of a chess engine's search: the staged move picker ([`movepick`], with the scores of
//! [`scoring`]) and the time manager ([`time`]).

pub mod accuracy;
pub mod binary64;
pub mod bitboard;
pub mod board;
pub mod duration;
pub mod lookup;
pub mod mirror;
pub mod movepick;
pub mod movepick_laws;
pub mod movepick_runs;
pub mod rounding;
pub mod scoring;
pub mod scoring_laws;
pub mod search;
pub mod thread;
pub mod time;
pub mod time_accuracy;
pub mod time_laws;
pub mod types;
