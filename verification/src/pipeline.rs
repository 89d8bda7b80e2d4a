//! The decisions of the settlement pipeline: what it does with an incoming
//! fill, with a flush tick and with the outcome of a submission, and when a
//! failed submission is retried. The pipeline's event loop, which performs
//! the network calls, hands these functions the events.
use vstd::prelude::*;
use vstd::arithmetic::power2::pow2;
use crate::pipeline_error::{PipelineError, retryable, trips_circuit_breaker};
use crate::settlement::{PipelineStatus, SettlementReceipt, system_now};

verus! {

/// The pipeline's health state.
#[derive(Debug)]
pub struct PipelineState {
    /// Once open, the pipeline drops incoming fills and stops flushing.
    pub circuit_breaker: bool,
    pub batches_submitted: u64,
    pub last_tx_hash: Option<String>,
}

impl PipelineState {
    pub fn new() -> (r: PipelineState)
        ensures
            !r.circuit_breaker,
            r.batches_submitted == 0,
            r.last_tx_hash is None,
    {
        PipelineState { circuit_breaker: false, batches_submitted: 0, last_tx_hash: None }
    }

    /// Whether an incoming fill is batched (otherwise it is dropped).
    pub fn accepts_fill(&self) -> (r: bool)
        ensures
            r == !self.circuit_breaker,
    {
        !self.circuit_breaker
    }

    /// Whether a flush tick checks the flush conditions.
    pub fn checks_flush(&self) -> (r: bool)
        ensures
            r == !self.circuit_breaker,
    {
        !self.circuit_breaker
    }

    /// A batch was settled on-chain in the given transaction.
    pub fn on_settled(&mut self, tx_hash: &String)
        requires
            old(self).batches_submitted < u64::MAX,
        ensures
            final(self).batches_submitted == old(self).batches_submitted + 1,
            final(self).last_tx_hash matches Some(h) && h@ == tx_hash@,
            final(self).circuit_breaker == old(self).circuit_breaker,
    {
        self.batches_submitted = self.batches_submitted + 1;
        self.last_tx_hash = Some(tx_hash.clone());
    }

    /// The settled batch did not reconcile with the chain: the circuit
    /// breaker opens.
    pub fn on_reconciliation_failed(&mut self)
        ensures
            final(self).circuit_breaker,
            final(self).batches_submitted == old(self).batches_submitted,
            final(self).last_tx_hash == old(self).last_tx_hash,
    {
        self.circuit_breaker = true;
    }

    /// A submission failed. An error of the circuit-breaker kind opens the
    /// breaker; any other error leaves the state as it is. Returns whether
    /// the breaker was opened.
    pub fn on_submit_error(&mut self, e: &PipelineError) -> (opened: bool)
        ensures
            opened == trips_circuit_breaker(*e),
            final(self).circuit_breaker == (old(self).circuit_breaker || trips_circuit_breaker(*e)),
            final(self).batches_submitted == old(self).batches_submitted,
            final(self).last_tx_hash == old(self).last_tx_hash,
    {
        if e.is_circuit_breaker() {
            self.circuit_breaker = true;
            true
        } else {
            false
        }
    }

    /// Snapshot of the pipeline state for health checks.
    pub fn status(&self, pending_fills: usize, current_gas_wei: u128) -> (r: PipelineStatus)
        ensures
            r.pending_fills == pending_fills,
            r.batches_submitted == self.batches_submitted,
            r.current_gas_wei == current_gas_wei,
            r.circuit_breaker == self.circuit_breaker,
            r.last_tx_hash is Some <==> self.last_tx_hash is Some,
            r.last_tx_hash matches Some(h) ==> h@ == self.last_tx_hash.unwrap()@,
    {
        let last = match &self.last_tx_hash {
            Some(h) => Some(h.clone()),
            None => None,
        };
        PipelineStatus {
            pending_fills,
            batches_submitted: self.batches_submitted,
            last_tx_hash: last,
            current_gas_wei,
            circuit_breaker: self.circuit_breaker,
        }
    }
}

/// The period of the flush tick: a quarter of the maximum batch age, so
/// that the age limit is kept closely, but at least 25 ms.
pub fn flush_tick_ms(max_batch_age_ms: u64) -> (r: u64)
    ensures
        r == if max_batch_age_ms / 4 < 25 { 25 } else { max_batch_age_ms / 4 },
{
    let quarter = max_batch_age_ms / 4;
    if quarter < 25 {
        25
    } else {
        quarter
    }
}

/// What the receipt of a confirmed settlement transaction means: a
/// transaction whose status is false reverted; otherwise the batch is
/// settled in it, in the receipt's block (0 when the receipt names none),
/// stamped with the current time. The fill count is left 0, for the caller
/// to fill in.
pub fn settlement_outcome(
    batch_id: u64,
    tx_hash: String,
    status: bool,
    block_number: Option<u64>,
    gas_used: u64,
) -> (r: Result<SettlementReceipt, PipelineError>)
    ensures
        !status ==> (r matches Err(PipelineError::TransactionReverted { tx_hash: h, reason })
            && h@ == tx_hash@ && reason@ == "transaction status = false"@),
        status ==> (r matches Ok(rc) && rc.batch_id == batch_id && rc.tx_hash@ == tx_hash@
            && rc.block_number == (match block_number {
            Some(n) => n,
            None => 0,
        }) && rc.gas_used == gas_used && rc.fill_count == 0),
{
    if !status {
        return Err(
            PipelineError::TransactionReverted {
                tx_hash,
                reason: String::from_str("transaction status = false"),
            },
        );
    }
    let block = match block_number {
        Some(n) => n,
        None => 0,
    };
    Ok(
        SettlementReceipt {
            batch_id,
            tx_hash,
            block_number: block,
            gas_used,
            fill_count: 0,
            settled_at: system_now(),
        },
    )
}

/// The circuit breaker of submission: refuse to submit at a gas price above
/// the maximum.
pub fn check_gas_price(gas_price_wei: u128, max_gas_price_wei: u128) -> (r: Result<(), PipelineError>)
    ensures
        gas_price_wei <= max_gas_price_wei ==> r is Ok,
        gas_price_wei > max_gas_price_wei ==> (r matches Err(PipelineError::GasPriceTooHigh {
            current_wei,
            max_wei,
        }) && current_wei == gas_price_wei && max_wei == max_gas_price_wei),
{
    if gas_price_wei > max_gas_price_wei {
        Err(PipelineError::GasPriceTooHigh { current_wei: gas_price_wei, max_wei: max_gas_price_wei })
    } else {
        Ok(())
    }
}

/// Whether a failed submission attempt (attempts counted from 0) is retried,
/// and after how many milliseconds: retryable errors are retried up to
/// `max_retries` times, with exponential backoff 100 ms * 2^(attempt + 1).
pub fn retry_backoff_ms(e: &PipelineError, attempt: u32, max_retries: u32) -> (r: Option<u64>)
    requires
        retryable(*e) && attempt < max_retries ==> attempt < 57,
    ensures
        r is Some <==> retryable(*e) && attempt < max_retries,
        r matches Some(ms) ==> ms == 100 * pow2((attempt + 1) as nat),
{
    if e.is_retryable() && attempt < max_retries {
        let n = attempt + 1;
        let mut ms: u64 = 100;
        let mut i: u32 = 0;
        proof {
            vstd::arithmetic::power2::lemma2_to64();
            vstd::arithmetic::power2::lemma2_to64_rest();
        }
        while i < n
            invariant
                i <= n,
                n <= 57,
                ms == 100 * pow2(i as nat),
            decreases n - i,
        {
            proof {
                vstd::arithmetic::power2::lemma_pow2_unfold((i + 1) as nat);
                vstd::arithmetic::power2::lemma2_to64_rest();
                if i + 1 < 57 {
                    vstd::arithmetic::power2::lemma_pow2_strictly_increases((i + 1) as nat, 57);
                }
                assert(pow2((i + 1) as nat) <= pow2(57));
                assert(100 * pow2((i + 1) as nat) <= 100 * 0x200000000000000);
            }
            ms = ms * 2;
            i = i + 1;
        }
        Some(ms)
    } else {
        None
    }
}

} // verus!
