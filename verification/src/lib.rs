//! Discrete Bayesian networks compiled to weighted CNF.
//!
//! A [`BayesianNetwork`](bayesian_network::BayesianNetwork) holds variables with
//! finite value domains, parent lists and flattened conditional probability
//! tables.  The compiler in [`compiler`] turns such a network into a CNF clause
//! set with per-literal weights, suitable for exact inference by weighted model
//! counting.

use vstd::prelude::*;

pub mod bayesian_network;
pub mod compiler;
pub mod text;

pub use bayesian_network::BayesianNetwork;
pub use compiler::BayesianNetworkCNF;

verus! {

/// The numeric payload of a probability: the IEEE 754 bit pattern of a 64-bit
/// float.  The library never does arithmetic on probabilities — it only looks
/// them up in tables and copies them into weight maps — so it carries them as
/// opaque bit patterns and leaves numeric interpretation to the caller.
#[derive(Clone, Copy, Debug, PartialEq, Eq, Structural, Hash)]
pub struct Prob {
    /// IEEE 754 bit pattern of the probability value.
    pub bits: u64,
}

/// IEEE 754 bit pattern of the 64-bit float `1.0`.
pub const PROB_ONE_BITS: u64 = 0x3FF0_0000_0000_0000;

impl DeepView for Prob {
    type V = Prob;

    open spec fn deep_view(&self) -> Prob {
        *self
    }
}

impl Prob {
    /// The probability one, the multiplicative unit of a weighted model count.
    pub fn one() -> (r: Prob)
        ensures
            r.bits == PROB_ONE_BITS,
    {
        Prob { bits: PROB_ONE_BITS }
    }
}

/// The ways a lookup or a construction can fail.  Every operation of the
/// library reports failure through this type; none panics or aborts.
#[derive(Clone, Copy, Debug, PartialEq, Eq, Structural)]
pub enum NetworkError {
    /// A field of the structured description is missing or its dimensions are
    /// inconsistent.
    MalformedNetwork,
    /// A variable name is not one of the network's variables.
    UnknownVariable,
    /// A value label is not in the named variable's domain.
    UnknownValue,
    /// A parent assignment omits an entry for a declared parent.
    MissingAssignment,
    /// The parent graph admits no topological order.
    CyclicGraph,
}

} // verus!
