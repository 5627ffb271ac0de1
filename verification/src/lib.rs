//! A game of go: the board and its rules, game records, engine replies,
//! the built-in engine's tree bookkeeping and the settings of the terminal client.
pub mod geometry;
pub mod game;
mod walk;
pub mod text;
pub mod sgf;
pub mod record_laws;
pub mod gtp;
pub mod analysis;
pub mod config;
pub mod app;
pub mod board_view;
pub mod ai;
pub mod laws;
pub mod play_laws;
pub mod session;
pub mod review;
pub mod keys;
pub mod session_laws;
pub mod config_laws;
pub mod panels;
