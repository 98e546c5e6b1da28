//! A solver for 5x5 letter-tile word boards: a dictionary tree, a board parser, word scoring, a
//! bounded collector of the best words, and a search over the board guided by the dictionary.

pub mod board;
pub mod word;
pub mod collector;
pub mod dictionary;
pub mod search;
pub mod args;
pub mod output;
pub mod driver;
