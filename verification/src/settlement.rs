//! Fills on their way to settlement, the batches they travel in, and what
//! settling a batch reports.
use vstd::prelude::*;
use std::time::SystemTime;
use crate::decimal::Dec;
use crate::types::{Fill, Side};
use crate::batcher::FlushReason;

verus! {

/// The wall-clock time type of std, carried through the library as is.
#[verifier::external_type_specification]
#[verifier::external_body]
pub struct ExSystemTime(std::time::SystemTime);

/// `SystemTime::now()`. Nothing is promised of its value.
#[verifier::external_body]
pub(crate) fn system_now() -> SystemTime {
    SystemTime::now()
}

/// `SystemTime::elapsed` in whole milliseconds, 0 when the clock went
/// backwards. Nothing is promised of its value.
#[verifier::external_body]
fn system_elapsed_ms(t: &SystemTime) -> u64 {
    t.elapsed().map(|d| d.as_millis() as u64).unwrap_or(0)
}

/// `SystemTime::duration_since(UNIX_EPOCH)` in whole nanoseconds; `None`
/// when `t` is before the Unix epoch. Nothing is promised of its value.
#[verifier::external_body]
pub(crate) fn system_ns_since_epoch(t: &SystemTime) -> Option<u128> {
    match t.duration_since(std::time::UNIX_EPOCH) {
        Ok(d) => Some(d.as_nanos()),
        Err(_) => None,
    }
}

/// A fill produced by the matching engine, ready for settlement.
/// It maps one to one to a `Fill`, with the identifiers as plain 128-bit
/// values.
#[derive(Debug, Clone, Copy)]
pub struct PendingFill {
    pub id: u128,
    pub maker_order_id: u128,
    pub taker_order_id: u128,
    pub price: Dec,
    pub quantity: Dec,
    pub taker_side: Side,
    pub timestamp_ns: u64,
}

impl From<Fill> for PendingFill {
    fn from(value: Fill) -> (r: PendingFill) {
        PendingFill {
            id: value.id,
            maker_order_id: value.maker_order_id.0,
            taker_order_id: value.taker_order_id.0,
            price: value.price,
            quantity: value.quantity,
            taker_side: value.taker_side,
            timestamp_ns: value.timestamp_ns,
        }
    }
}

impl vstd::std_specs::convert::FromSpecImpl<Fill> for PendingFill {
    open spec fn obeys_from_spec() -> bool {
        true
    }

    open spec fn from_spec(value: Fill) -> PendingFill {
        PendingFill {
            id: value.id,
            maker_order_id: value.maker_order_id.0,
            taker_order_id: value.taker_order_id.0,
            price: value.price,
            quantity: value.quantity,
            taker_side: value.taker_side,
            timestamp_ns: value.timestamp_ns,
        }
    }
}

/// A batch of fills ready for simulation and on-chain submission.
#[derive(Debug)]
pub struct SettlementBatch {
    /// Monotonic batch id (used as the on-chain batch id).
    pub id: u64,
    /// Fills in this batch.
    pub fills: Vec<PendingFill>,
    /// Why this batch was flushed.
    pub flush_reason: FlushReason,
    /// Wall-clock time the batch was created.
    pub created_at: SystemTime,
}

impl SettlementBatch {
    pub fn fill_count(&self) -> (r: usize)
        ensures
            r == self.fills@.len(),
    {
        self.fills.len()
    }

    /// Milliseconds since the batch was created (0 if the clock went
    /// backwards). Nothing is promised of the value: it reads the clock.
    pub fn age_ms(&self) -> u64 {
        system_elapsed_ms(&self.created_at)
    }
}

/// Result of submitting a batch on-chain.
#[derive(Debug)]
pub struct SettlementReceipt {
    pub batch_id: u64,
    pub tx_hash: String,
    pub block_number: u64,
    pub gas_used: u64,
    pub fill_count: usize,
    pub settled_at: SystemTime,
}

/// Current status of the pipeline, as the health endpoint shows it.
#[derive(Debug)]
pub struct PipelineStatus {
    pub pending_fills: usize,
    pub batches_submitted: u64,
    pub last_tx_hash: Option<String>,
    pub current_gas_wei: u128,
    pub circuit_breaker: bool,
}

} // verus!
