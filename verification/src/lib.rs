//! A generalized k-in-a-row board game together with a tabular, per-state
//! move policy trained by self-play.
//!
//! The crate is organised around three cores: line detection on an arbitrary
//! grid ([`state`]), an append-only policy table keyed by exact board state
//! ([`weighted_state`]), and the post-episode credit-assignment rule that
//! nudges the table's weights ([`credit`]). Episodes are driven by [`game`],
//! moves are drawn by [`sampler`], and outcomes are tallied by
//! [`games_stats`].

pub mod credit;
pub mod finished_game;
pub mod game;
pub mod games_stats;
pub mod players;
pub mod sampler;
pub mod state;
pub mod weighted_state;
