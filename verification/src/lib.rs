pub mod circuit;
pub mod epoch;
pub mod ivp;
pub mod peer;
pub mod scalar;
pub mod utils;

use vstd::prelude::*;

verus! {

/// Protocol-wide error taxonomy.
#[derive(Debug, PartialEq, Eq)]
pub enum EigenError {
    MaxNeighboursReached,
    NeighbourNotFound,
    OpinionNotFound,
    EpochError,
    ParsingError(String),
    ProvingError,
    VerificationError,
    InvalidBootstrapPubkey,
}

} // verus!
