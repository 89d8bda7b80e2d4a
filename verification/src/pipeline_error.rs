//! Errors of the settlement pipeline, and how the pipeline reacts to them.
use vstd::prelude::*;

verus! {

#[derive(Debug)]
pub enum PipelineError {
    // Batch errors
    /// The batch is empty: nothing to settle.
    EmptyBatch,
    /// The batch size (first) exceeds the maximum (second).
    BatchTooLarge(usize, usize),
    // Simulation errors
    SimulationFailed { reason: String },
    SimulationReverted { revert_data: String },
    GasLimitExceeded { estimated: u64, limit: u64 },
    // Submission errors
    SubmissionFailed(String),
    TransactionReverted { tx_hash: String, reason: String },
    ConfirmationTimeout { seconds: u64, tx_hash: String },
    /// Nonce too low: likely a race, retry.
    NonceTooLow,
    // Gas errors
    GasPriceTooHigh { current_wei: u128, max_wei: u128 },
    GasOracleError(String),
    // Reconciliation errors
    ReconciliationMismatch { on_chain: usize, expected: usize },
    MissingOnChainFill { fill_id: String },
    // Provider errors
    ProviderError(String),
    AbiError(String),
    // Config errors
    InvalidConfig(String),
}

/// Errors that an automatic retry may cure.
pub open spec fn retryable(e: PipelineError) -> bool {
    ||| e is NonceTooLow
    ||| e is ConfirmationTimeout
    ||| e is ProviderError
    ||| e is GasOracleError
}

/// Errors that pause the pipeline.
pub open spec fn trips_circuit_breaker(e: PipelineError) -> bool {
    ||| e is GasPriceTooHigh
    ||| e is TransactionReverted
    ||| e is ReconciliationMismatch
}

impl PipelineError {
    /// Should this error trigger an automatic retry?
    pub fn is_retryable(&self) -> (r: bool)
        ensures
            r == retryable(*self),
    {
        match self {
            PipelineError::NonceTooLow
            | PipelineError::ConfirmationTimeout { .. }
            | PipelineError::ProviderError(_)
            | PipelineError::GasOracleError(_) => true,
            _ => false,
        }
    }

    /// Should this error pause the pipeline (circuit breaker)?
    pub fn is_circuit_breaker(&self) -> (r: bool)
        ensures
            r == trips_circuit_breaker(*self),
    {
        match self {
            PipelineError::GasPriceTooHigh { .. }
            | PipelineError::TransactionReverted { .. }
            | PipelineError::ReconciliationMismatch { .. } => true,
            _ => false,
        }
    }
}

/// Only transient errors are retried: a nonce that was too low, a
/// confirmation that timed out, a provider or a gas-oracle failure. An
/// error that a resubmission would meet again (a batch, simulation, gas
/// limit, ABI or configuration error), or that settles the batch's fate (a
/// revert, a refused or mismatched settlement), is never retried.
pub proof fn lemma_retryable_errors(e: PipelineError)
    ensures
        retryable(e) <==> (e is NonceTooLow || e is ConfirmationTimeout || e is ProviderError
            || e is GasOracleError),
        (e is EmptyBatch || e is BatchTooLarge || e is SimulationFailed || e is SimulationReverted
            || e is GasLimitExceeded || e is SubmissionFailed || e is TransactionReverted
            || e is GasPriceTooHigh || e is ReconciliationMismatch || e is MissingOnChainFill
            || e is AbiError || e is InvalidConfig) ==> !retryable(e),
{
}

/// Only fatal errors open the circuit breaker: a gas price above the
/// maximum, a transaction reverted on-chain, or a settlement that does not
/// reconcile. Every other error, an ordinary failed submission among them,
/// leaves the pipeline running.
pub proof fn lemma_circuit_breaker_errors(e: PipelineError)
    ensures
        trips_circuit_breaker(e) <==> (e is GasPriceTooHigh || e is TransactionReverted
            || e is ReconciliationMismatch),
        (e is EmptyBatch || e is BatchTooLarge || e is SimulationFailed || e is SimulationReverted
            || e is GasLimitExceeded || e is SubmissionFailed || e is ConfirmationTimeout
            || e is NonceTooLow || e is GasOracleError || e is MissingOnChainFill
            || e is ProviderError || e is AbiError || e is InvalidConfig) ==> !trips_circuit_breaker(e),
{
}

/// No error both asks for a retry and trips the circuit breaker.
pub proof fn lemma_retry_and_breaker_disjoint(e: PipelineError)
    ensures
        !(retryable(e) && trips_circuit_breaker(e)),
{
}

} // verus!
