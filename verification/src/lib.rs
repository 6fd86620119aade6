//! Puzzle solvers for seed almanacs, camel card hands and increasing runs,
//! with their parsers, all verified.
pub mod almanac;
pub mod camel_cards;
pub mod camel_cards_better;
pub mod hands;
pub mod jokers;
pub mod max_seq_len;
pub mod sort;
pub mod text;
