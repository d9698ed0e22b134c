//! Search modes: how a pattern is cut into blocks and when a partial match
//! becomes a candidate.

pub mod kucherov;

use crate::modes::kucherov::{
    admissible, as_ints, block_lengths, block_lengths_fit, filtered, KucherovMode,
};
use crate::structs::run_config::ErrorRate;
use vstd::prelude::*;

verus! {

/// The mode of a run, chosen once at its start.
#[derive(Debug)]
pub enum Mode {
    Kucherov(KucherovMode),
}

impl Mode {
    /// The parameter S of the mode.
    pub open spec fn s(&self) -> int {
        match self {
            Mode::Kucherov(mode) => mode.s(),
        }
    }

    /// The blocks to walk beyond the completed ones before positions are
    /// looked up.
    pub fn get_guaranteed_extra_blocks(&self) -> (blocks: i32)
        ensures
            blocks == self.s(),
            blocks >= 1,
    {
        match self {
            Mode::Kucherov(mode) => mode.get_guaranteed_extra_blocks(),
        }
    }

    /// The fewest blocks that a suffix is cut into.
    pub fn get_fewest_suff_blocks(&self) -> (blocks: i32)
        ensures
            blocks == self.s(),
            blocks >= 1,
    {
        match self {
            Mode::Kucherov(mode) => mode.get_fewest_suff_blocks(),
        }
    }

    /// The smaller of the completed blocks and the pattern blocks less S.
    pub fn filter_func(&self, completed_blocks: i32, patt_blocks: i32, blind_blocks: i32) -> (blocks:
        i32)
        requires
            patt_blocks - self.s() >= i32::MIN,
        ensures
            blocks == filtered(self.s(), completed_blocks as int, patt_blocks as int),
    {
        match self {
            Mode::Kucherov(mode) => mode.filter_func(completed_blocks, patt_blocks, blind_blocks),
        }
    }

    /// The block lengths of a pattern of length `patt_len`.
    pub fn get_block_lengths(&self, patt_len: i32, err_rate: ErrorRate, thresh: i32) -> (lengths:
        Vec<i32>)
        requires
            err_rate.wf(),
            thresh >= 1,
            block_lengths_fit(self.s(), patt_len as int, err_rate, thresh as int),
        ensures
            as_ints(lengths@) == block_lengths(
                self.s(),
                patt_len as int,
                err_rate,
                thresh as int,
            ),
    {
        match self {
            Mode::Kucherov(mode) => mode.get_block_lengths(patt_len, err_rate, thresh),
        }
    }

    /// Whether a partial match may be looked up as a candidate.
    pub fn candidate_condition(
        &self,
        generous_overlap_len: i32,
        completed_blocks: i32,
        thresh: i32,
        errors: i32,
    ) -> (candidate: bool)
        ensures
            candidate == admissible(
                self.s(),
                generous_overlap_len as int,
                completed_blocks as int,
                thresh as int,
                errors as int,
            ),
    {
        match self {
            Mode::Kucherov(mode) => mode.candidate_condition(
                generous_overlap_len,
                completed_blocks,
                thresh,
                errors,
            ),
        }
    }

    /// The name of the mode with its parameter.
    pub fn to_string(&self) -> (text: String)
        ensures
            text@ == "Kucherov S="@ + crate::text::signed_decimal(self.s()),
    {
        match self {
            Mode::Kucherov(mode) => mode.to_string(),
        }
    }
}

} // verus!
