//! A live quiz with one clock for everyone. The server decides when a question
//! opens and closes, accepts answers while it is open, and only then reveals
//! which choice was right.
//!
//! - `quiz` reads questions, `names` hands out names.
//! - `state` is the game as mathematics, `game` the game that runs; `upkeep`,
//!   `laws`, `promises` and `history` say what holds of it whatever is played.
//! - `html` renders it and `pages` says what stands on every page; `slides`
//!   keeps the break slides of the livestream, `web` replies to requests,
//!   `cli` reads the arguments; `calls` says what callers can rely on.
//! - `text`, `sort` and `count` are what these share, `random` is chance.
//!
//! Nothing here reads a file, a clock or a socket: times, file contents and
//! requests are arguments, and what is to be sent is a result.

pub mod calls;
pub mod cli;
pub mod count;
pub mod game;
pub mod history;
pub mod html;
pub mod laws;
pub mod names;
pub mod pages;
pub mod promises;
pub mod quiz;
pub mod random;
pub mod slides;
pub mod sort;
pub mod state;
pub mod text;
pub mod upkeep;
pub mod web;
