//! Candidate filtering and letter-frequency ranking for Wordle hints.
pub mod feedback;
pub mod filter;
pub mod scoring;
pub mod rank;
pub mod command;
pub mod session;

