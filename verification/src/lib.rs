//! A trivia game for one operator and any number of players.
//!
//! The questions come from a bank, a text file with one question and its
//! answer on each line, and the scores go to a leaderboard, a text file
//! with one player on each line. [`pools`] and [`leaderboard`] read and
//! write the two, [`session`] plays the rounds as a machine that takes the
//! operator's lines one by one, and [`runs`] states what holds of a game
//! after any sequence of lines. The library touches no file and no
//! terminal: it takes the text that was read and hands back the text that
//! is to be written.

pub mod decimal;
pub mod error;
pub mod leaderboard;
pub mod order;
pub mod pools;
pub mod question;
mod random;
pub mod ranking;
pub mod response;
pub mod runs;
pub mod session;
pub mod text;
