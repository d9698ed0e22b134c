//! Data carried through a run: overlap records and the immutable corpus.

pub mod run_config;
pub mod solutions;
