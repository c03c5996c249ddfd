//! Settlement core of an era-based point-to-token exchange.
//!
//! Participants accumulate points from activity; once per era (a fixed-length
//! window of block heights) those points can be exchanged for a fixed pool of
//! minted tokens. The engine admits applications into a ranked,
//! capacity-bounded waiting list, refreshes stale point snapshots at most once
//! per block, and distributes a fixed mint amount across ranked applicants so
//! that the payouts are guaranteed to sum exactly to the minted amount despite
//! fixed-point rounding.

use vstd::prelude::*;

pub mod exchange;
pub mod math;
pub mod points;
pub mod proportion;
pub mod round;

verus! {

use vstd::string::StringSliceAdditionalSpecFns;

/// Identifies a participant. Account identities are opaque to the engine;
/// only equality matters.
pub type AccountId = u64;

/// A refreshable point balance, sourced from the external point ledger.
pub type PointAmount = u64;

/// A token payout amount.
pub type TokenAmount = u64;

/// An era index: `block_height / era_length`. Era 0 is reserved and never
/// accepts applications or settlement.
pub type Era = u64;

/// The external block-height counter; it only advances between calls.
pub type BlockNumber = u64;

/// Why an application or a settlement was rejected. Every rejection is
/// detected by validation before the round's membership or settlement state
/// is changed.
#[derive(Clone, Copy, Debug, PartialEq, Eq, Structural)]
pub enum ExchangeError {
    /// The genesis era (era 0) never pays rewards.
    InvalidEra,
    /// The previous era still has an open, unsettled round.
    PreviousEraUnsettled,
    /// The applicant has no points, or does not strictly outrank the
    /// lowest-ranked entry of the round.
    InsufficientPoints,
    /// The account already applied to this era's round.
    DuplicateApplication,
    /// Only fully elapsed eras can be settled.
    EraNotEnded,
    /// No round exists for the requested era.
    EmptyRound,
    /// The era (or a later one) has already been settled.
    AlreadySettled,
}

/// Copies a string's UTF-8 bytes into an owned byte vector.
#[allow(non_snake_case)]
pub fn toVec(to_str: &str) -> (r: Vec<u8>)
    ensures
        r@ == to_str.spec_bytes(),
{
    vstd::slice::slice_to_vec(to_str.as_bytes())
}

} // verus!
