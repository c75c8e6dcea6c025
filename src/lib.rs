//! Word frequency counting: tokenizing bytes into lowercase ASCII words,
//! tallying them, and ranking the tally.
pub mod hash;
pub mod lex;
pub mod token;
pub mod table;
pub mod rank;
pub mod number;
pub mod stats;
pub mod report;
