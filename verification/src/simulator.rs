//! The pre-flight simulator's settings and what a simulation reports.
use vstd::prelude::*;
use crate::pipeline_error::PipelineError;

verus! {

/// Pre-flight simulator: before a batch is submitted on-chain it is run
/// locally, and its gas is held to a limit.
pub struct Simulator {
    /// Maximum gas a simulated batch may consume.
    gas_limit: u64,
}

/// Gas estimation result from a local simulation.
#[derive(Debug)]
pub struct SimulationResult {
    /// Estimated gas the transaction will consume.
    pub gas_used: u64,
    /// Whether the simulation succeeded.
    pub success: bool,
    /// Revert reason bytes, if the call reverted.
    pub revert_data: Option<Vec<u8>>,
}

impl Simulator {
    pub closed spec fn limit(&self) -> u64 {
        self.gas_limit
    }

    pub fn new(gas_limit: u64) -> (r: Simulator)
        ensures
            r.limit() == gas_limit,
    {
        Simulator { gas_limit }
    }

    /// A simulated batch whose gas estimate exceeds the limit is refused.
    pub fn check_gas(&self, estimated: u64) -> (r: Result<(), PipelineError>)
        ensures
            estimated <= self.limit() ==> r is Ok,
            estimated > self.limit() ==> (r matches Err(PipelineError::GasLimitExceeded {
                estimated: e,
                limit: l,
            }) && e == estimated && l == self.limit()),
    {
        if estimated > self.gas_limit {
            Err(PipelineError::GasLimitExceeded { estimated, limit: self.gas_limit })
        } else {
            Ok(())
        }
    }

    /// The gas limit a simulated batch is held to.
    pub fn gas_limit(&self) -> (r: u64)
        ensures
            r == self.limit(),
    {
        self.gas_limit
    }
}

} // verus!
