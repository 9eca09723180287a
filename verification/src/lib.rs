pub mod text;
pub mod word;
pub mod pattern;
pub mod solver;
pub mod ranking;
pub mod word_lists;
pub mod cli;
pub mod session;
