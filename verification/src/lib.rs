//! Tools for the word game Waffle: the shortest run of letter swaps that
//! turns one filled grid into another, and the bookkeeping for filling a
//! grid with words under a fixed budget of letters.

pub mod board;
pub mod constraints;
pub mod letters;
pub mod moves;
pub mod search;
pub mod search_descent;
pub mod search_ends;
pub mod search_proofs;
pub mod search_spec;
pub mod solver;
pub mod text;
