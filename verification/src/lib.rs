//! Approximate suffix-prefix overlap discovery among a set of reads.

pub mod index;
pub mod modes;
pub mod order;
pub mod output;
pub mod prepare;
pub mod progress;
pub mod ranks;
pub mod search;
pub mod solve;
pub mod structs;
pub mod text;
pub mod verification;
