use meridian::batcher::{BatchConfig, Batcher, FlushReason, GasPriceOracle, OPPORTUNISTIC_DEFAULT};
use meridian::decimal::Dec;
use meridian::config::PipelineConfig;
use meridian::submitter::submitter_settings;
use meridian::pipeline::{
    check_gas_price, flush_tick_ms, retry_backoff_ms, settlement_outcome, PipelineState,
};
use meridian::pipeline_error::PipelineError;
use meridian::settlement::PendingFill;
use meridian::simulator::Simulator;
use meridian::types::Side;

fn fill(id: u128) -> PendingFill {
    PendingFill {
        id,
        maker_order_id: 1,
        taker_order_id: 2,
        price: Dec::new(1, 0).unwrap(),
        quantity: Dec::new(1, 0).unwrap(),
        taker_side: Side::Bid,
        timestamp_ns: 0,
    }
}

fn config() -> BatchConfig {
    BatchConfig { max_batch_size: 50, max_batch_age_ms: 500, min_batch_size_for_gas_trigger: 5 }
}

#[test]
fn oracle_rolling_window() {
    let mut o = GasPriceOracle::new(2);
    assert_eq!(o.rolling_average(), None);
    assert_eq!(o.current_wei, 0);
    o.record(1);
    o.record(2);
    o.record(3);
    assert_eq!(o.current_wei, 3);
    // Only the two newest samples remain: (2 + 3) / 2, rounded down.
    assert_eq!(o.rolling_average(), Some(2));
}

#[test]
fn oracle_window_zero_keeps_one_sample() {
    let mut o = GasPriceOracle::new(0);
    o.record(10);
    o.record(20);
    assert_eq!(o.rolling_average(), Some(20));
}

#[test]
fn oracle_sum_fits() {
    let mut o = GasPriceOracle::new(3);
    o.record(u128::MAX);
    assert!(o.sum_fits());
    assert_eq!(o.rolling_average(), Some(u128::MAX));
    o.record(1);
    assert!(!o.sum_fits());
}

#[test]
fn oracle_below_average() {
    let mut o = GasPriceOracle::new(4);
    assert!(!o.is_below_average(8500));
    o.record(100);
    o.record(100);
    o.record(84);
    // average (100 + 100 + 84) / 3 = 94; 84 is not below 94 * 0.85 = 79.9
    assert!(!o.is_below_average(8500));
    o.record(40);
    // average 324 / 4 = 81; 40 is below 81 * 0.85 = 68.85
    assert!(o.is_below_average(8500));
    assert!(!o.is_below_average(0));
}

#[test]
fn oracle_below_average_compares_exactly() {
    let mut o = GasPriceOracle::new(3);
    o.record(100);
    o.record(80);
    o.record(70);
    // average 250 / 3 = 83; 70 is below 83 * 0.85 = 70.55
    assert_eq!(o.rolling_average(), Some(83));
    assert!(o.is_below_average(8500));
    let mut p = GasPriceOracle::new(3);
    p.record(100);
    p.record(100);
    p.record(50);
    assert!(p.is_below_average(8500));
    // 71 is not below 70.55
    let mut q = GasPriceOracle::new(3);
    q.record(100);
    q.record(80);
    q.record(71);
    assert!(!q.is_below_average(8500));
}

#[test]
fn oracle_below_average_huge_average() {
    let mut o = GasPriceOracle::new(1);
    o.record(u128::MAX);
    // The threshold exceeds u128 range, current equals the average.
    assert!(o.is_below_average(20000));
    assert!(!o.is_below_average(10000));
}

#[test]
fn oracle_opportunistic() {
    let mut o = GasPriceOracle::new(2);
    assert!(!o.is_opportunistic(OPPORTUNISTIC_DEFAULT));
    o.record(1);
    assert!(o.is_opportunistic(OPPORTUNISTIC_DEFAULT));
    o.record(1_000_000);
    assert!(o.is_opportunistic(1_000_000));
    o.record(1_000_001);
    assert!(!o.is_opportunistic(1_000_000));
}

#[test]
fn flush_reason_names() {
    assert_eq!(FlushReason::MaxSizeReached.as_str(), "max_size");
    assert_eq!(FlushReason::MaxAgeReached.as_str(), "max_age");
    assert_eq!(FlushReason::OpportunisticGas.as_str(), "opportunistic_gas");
    assert_eq!(FlushReason::BelowAverageGas.as_str(), "below_average_gas");
    assert_eq!(FlushReason::Manual.as_str(), "manual");
}

#[test]
fn flush_decision_order() {
    let mut o = GasPriceOracle::new(4);
    o.record(10_000_000);
    let mut b = Batcher::new(config());
    assert_eq!(b.should_flush_at(&o, None), None);
    for i in 0..4 {
        b.push(fill(i));
    }
    assert_eq!(b.pending_count(), 4);
    // Young batch, not enough fills for a gas trigger.
    assert_eq!(b.should_flush_at(&o, Some(10)), None);
    assert_eq!(b.should_flush_at(&o, Some(500)), Some(FlushReason::MaxAgeReached));
    b.push(fill(4));
    assert_eq!(b.should_flush_at(&o, Some(10)), None);
    o.record(1_000_000);
    assert_eq!(b.should_flush_at(&o, Some(10)), Some(FlushReason::OpportunisticGas));
    o.record(2_000_000);
    // average (10M + 1M + 2M) / 3 = 4.33M; 0.85 of it = 3.68M > 2M
    assert_eq!(b.should_flush_at(&o, Some(10)), Some(FlushReason::BelowAverageGas));
    for i in 5..50 {
        b.push(fill(i));
    }
    assert_eq!(b.should_flush_at(&o, Some(0)), Some(FlushReason::MaxSizeReached));
}

#[test]
fn should_flush_reads_the_clock() {
    let o = GasPriceOracle::new(4);
    let mut b = Batcher::new(BatchConfig {
        max_batch_size: 50,
        max_batch_age_ms: 0,
        min_batch_size_for_gas_trigger: 5,
    });
    assert_eq!(b.should_flush(&o), None);
    b.push(fill(1));
    assert_eq!(b.should_flush(&o), Some(FlushReason::MaxAgeReached));
    let mut c = Batcher::new(config());
    c.push(fill(1));
    assert_eq!(c.should_flush(&o), None);
}

#[test]
fn flush_drains_in_order() {
    let mut b = Batcher::new(config());
    assert!(b.flush(FlushReason::Manual).is_none());
    b.push(fill(1));
    b.push(fill(2));
    let batch = b.flush(FlushReason::Manual).unwrap();
    assert_eq!(batch.id, 1);
    assert_eq!(batch.fill_count(), 2);
    assert_eq!(batch.fills[0].id, 1);
    assert_eq!(batch.fills[1].id, 2);
    assert_eq!(batch.flush_reason, FlushReason::Manual);
    assert!(batch.age_ms() < 60_000);
    assert_eq!(b.pending_count(), 0);
    b.push(fill(3));
    let next = b.flush(FlushReason::MaxSizeReached).unwrap();
    assert_eq!(next.id, 2);
    assert_eq!(next.fills.len(), 1);
}

#[test]
fn retryable_errors() {
    assert!(PipelineError::NonceTooLow.is_retryable());
    assert!(PipelineError::ConfirmationTimeout { seconds: 1, tx_hash: String::new() }.is_retryable());
    assert!(PipelineError::ProviderError(String::new()).is_retryable());
    assert!(PipelineError::GasOracleError(String::new()).is_retryable());
    assert!(!PipelineError::EmptyBatch.is_retryable());
    assert!(!PipelineError::SubmissionFailed(String::new()).is_retryable());
    assert!(!PipelineError::GasPriceTooHigh { current_wei: 2, max_wei: 1 }.is_retryable());
}

#[test]
fn circuit_breaker_errors() {
    assert!(PipelineError::GasPriceTooHigh { current_wei: 2, max_wei: 1 }.is_circuit_breaker());
    assert!(PipelineError::TransactionReverted { tx_hash: String::new(), reason: String::new() }
        .is_circuit_breaker());
    assert!(PipelineError::ReconciliationMismatch { on_chain: 1, expected: 2 }.is_circuit_breaker());
    assert!(!PipelineError::NonceTooLow.is_circuit_breaker());
    assert!(!PipelineError::BatchTooLarge(3, 2).is_circuit_breaker());
    assert!(!PipelineError::InvalidConfig(String::new()).is_circuit_breaker());
}

#[test]
fn gas_price_circuit_breaker() {
    assert!(check_gas_price(10, 10).is_ok());
    match check_gas_price(11, 10) {
        Err(PipelineError::GasPriceTooHigh { current_wei, max_wei }) => {
            assert_eq!(current_wei, 11);
            assert_eq!(max_wei, 10);
        }
        _ => panic!("expected GasPriceTooHigh"),
    }
}

#[test]
fn retry_backoff_doubles() {
    let e = PipelineError::NonceTooLow;
    assert_eq!(retry_backoff_ms(&e, 0, 3), Some(200));
    assert_eq!(retry_backoff_ms(&e, 1, 3), Some(400));
    assert_eq!(retry_backoff_ms(&e, 2, 3), Some(800));
    assert_eq!(retry_backoff_ms(&e, 3, 3), None);
    assert_eq!(retry_backoff_ms(&PipelineError::EmptyBatch, 0, 3), None);
}

#[test]
fn pipeline_state_transitions() {
    let mut s = PipelineState::new();
    assert!(s.accepts_fill());
    assert!(s.checks_flush());
    s.on_settled(&String::from("0xabc"));
    assert_eq!(s.batches_submitted, 1);
    assert_eq!(s.last_tx_hash.as_deref(), Some("0xabc"));
    assert!(!s.on_submit_error(&PipelineError::NonceTooLow));
    assert!(s.accepts_fill());
    assert!(s.on_submit_error(&PipelineError::GasPriceTooHigh { current_wei: 2, max_wei: 1 }));
    assert!(!s.accepts_fill());
    assert!(!s.checks_flush());
    let st = s.status(7, 99);
    assert_eq!(st.pending_fills, 7);
    assert_eq!(st.current_gas_wei, 99);
    assert_eq!(st.batches_submitted, 1);
    assert!(st.circuit_breaker);
    assert_eq!(st.last_tx_hash.as_deref(), Some("0xabc"));
    let mut r = PipelineState::new();
    r.on_reconciliation_failed();
    assert!(!r.accepts_fill());
}

#[test]
fn simulator_gas_limit() {
    let s = Simulator::new(3_000_000);
    assert_eq!(s.gas_limit(), 3_000_000);
}

#[test]
fn flush_tick_is_a_quarter_of_the_age_limit() {
    assert_eq!(flush_tick_ms(500), 125);
    assert_eq!(flush_tick_ms(103), 25);
    assert_eq!(flush_tick_ms(99), 25);
    assert_eq!(flush_tick_ms(0), 25);
}

#[test]
fn size_and_age_caps_do_not_read_the_average() {
    // The samples' sum does not fit in a u128: only the gas path would read it.
    let mut o = GasPriceOracle::new(2);
    o.record(u128::MAX);
    o.record(u128::MAX);
    assert!(!o.sum_fits());
    let mut full = Batcher::new(BatchConfig {
        max_batch_size: 1,
        max_batch_age_ms: 500,
        min_batch_size_for_gas_trigger: 1,
    });
    full.push(fill(1));
    assert!(!full.needs_average(&o));
    assert_eq!(full.should_flush_at(&o, Some(0)), Some(FlushReason::MaxSizeReached));
    let mut b = Batcher::new(config());
    assert_eq!(b.should_flush(&o), None);
    b.push(fill(1));
    assert!(!b.needs_average(&o));
    assert_eq!(b.should_flush_at(&o, Some(500)), Some(FlushReason::MaxAgeReached));
    assert_eq!(b.should_flush_at(&o, Some(10)), None);
    for i in 2..=5 {
        b.push(fill(i));
    }
    assert!(b.needs_average(&o));
    let _ = b.flush(FlushReason::Manual);
    assert_eq!(b.should_flush(&o), None);
}

#[test]
fn batch_ids_increase() {
    let mut b = Batcher::new(config());
    b.push(fill(1));
    let first = b.flush(FlushReason::Manual).unwrap();
    b.push(fill(2));
    b.push(fill(3));
    let second = b.flush(FlushReason::MaxAgeReached).unwrap();
    assert_eq!(first.id, 1);
    assert_eq!(second.id, 2);
    assert!(second.id > first.id);
}

#[test]
fn sepolia_defaults_without_settings() {
    let c = PipelineConfig::base_sepolia_defaults(None, None, None, None);
    assert_eq!(c.chain.chain_id, 84532);
    assert_eq!(c.chain.rpc_http, "https://sepolia.base.org");
    assert_eq!(c.chain.rpc_ws, "wss://sepolia.base.org");
    assert_eq!(c.chain.settlement_address, [0u8; 20]);
    assert_eq!(c.chain.operator_private_key, "");
    assert_eq!(c.batch.max_batch_size, 50);
    assert_eq!(c.batch.max_batch_age_ms, 500);
    assert_eq!(c.batch.min_batch_size_for_gas_trigger, 5);
    assert_eq!(c.gas.opportunistic_gas_threshold_wei, 1_000_000);
    assert_eq!(c.gas.rolling_window_size, 20);
    assert_eq!(c.gas.below_average_factor_bps, 8500);
    assert_eq!(c.gas.max_gas_price_wei, 10_000_000_000);
    assert_eq!(c.gas.gas_limit, 3_000_000);
    assert_eq!(c.gas.max_priority_fee_wei, 1_000_000);
}

#[test]
fn sepolia_defaults_with_settings() {
    let c = PipelineConfig::base_sepolia_defaults(
        Some(String::from("http://localhost:8545")),
        Some(String::from("ws://localhost:8546")),
        Some(String::from("0x00000000000000000000000000000000000000aa")),
        Some(String::from("abcd")),
    );
    assert_eq!(c.chain.rpc_http, "http://localhost:8545");
    assert_eq!(c.chain.rpc_ws, "ws://localhost:8546");
    let mut expected = [0u8; 20];
    expected[19] = 0xaa;
    assert_eq!(c.chain.settlement_address, expected);
    assert_eq!(c.chain.operator_private_key, "abcd");
    let bad = PipelineConfig::base_sepolia_defaults(None, None, Some(String::from("not an address")), None);
    assert_eq!(bad.chain.settlement_address, [0u8; 20]);
}

#[test]
fn mainnet_defaults() {
    let c = PipelineConfig::base_mainnet_defaults(None, None, None, Some(String::from("k")));
    assert_eq!(c.chain.chain_id, 8453);
    assert_eq!(c.chain.rpc_http, "https://mainnet.base.org");
    assert_eq!(c.chain.rpc_ws, "wss://mainnet.base.org");
    assert_eq!(c.chain.operator_private_key, "k");
    assert_eq!(c.gas.opportunistic_gas_threshold_wei, 100_000_000);
    assert_eq!(c.gas.max_gas_price_wei, 50_000_000_000);
    assert_eq!(c.gas.max_priority_fee_wei, 1_000_000_000);
    assert_eq!(c.gas.gas_limit, 3_000_000);
    assert_eq!(c.batch.max_batch_size, 50);
}

#[test]
fn receipt_outcome() {
    match settlement_outcome(7, String::from("0xabc"), false, Some(3), 21000) {
        Err(PipelineError::TransactionReverted { tx_hash, reason }) => {
            assert_eq!(tx_hash, "0xabc");
            assert_eq!(reason, "transaction status = false");
        }
        other => panic!("unexpected {:?}", other),
    }
    let r = settlement_outcome(7, String::from("0xabc"), true, None, 21000).unwrap();
    assert_eq!(r.batch_id, 7);
    assert_eq!(r.tx_hash, "0xabc");
    assert_eq!(r.block_number, 0);
    assert_eq!(r.gas_used, 21000);
    assert_eq!(r.fill_count, 0);
    let r2 = settlement_outcome(8, String::from("0xdef"), true, Some(42), 1).unwrap();
    assert_eq!(r2.block_number, 42);
}

#[test]
fn simulator_gas_check() {
    let s = Simulator::new(3_000_000);
    assert!(s.check_gas(3_000_000).is_ok());
    match s.check_gas(3_000_001) {
        Err(PipelineError::GasLimitExceeded { estimated, limit }) => {
            assert_eq!(estimated, 3_000_001);
            assert_eq!(limit, 3_000_000);
        }
        other => panic!("unexpected {:?}", other),
    }
}

#[test]
fn decimal_text_layout() {
    assert_eq!(Dec::new(125, 2).unwrap().to_string(), "1.25");
    assert_eq!(Dec::new(5, 2).unwrap().to_string(), "0.05");
    assert_eq!(Dec::new(-7, 0).unwrap().to_string(), "-7");
    assert_eq!(Dec::new(0, 0).unwrap().to_string(), "0");
    assert_eq!(Dec::new(0, 2).unwrap().to_string(), "0.00");
    assert_eq!(Dec::new(-1050, 3).unwrap().to_string(), "-1.050");
}

#[test]
fn submitter_settings_checks_key_then_url() {
    let key = "6f142508b4eea641e33cb2a0161221105086a84584c74245ca463a49effea30b";
    let bad_key = PipelineConfig::base_sepolia_defaults(None, None, None, Some(String::from("xyz")));
    match submitter_settings(&bad_key) {
        Err(PipelineError::InvalidConfig(s)) => assert!(s.starts_with("invalid private key: ")),
        _ => panic!("expected InvalidConfig"),
    }
    let bad_both = PipelineConfig::base_sepolia_defaults(
        Some(String::from("not a url")),
        None,
        None,
        Some(String::from("xyz")),
    );
    match submitter_settings(&bad_both) {
        Err(PipelineError::InvalidConfig(s)) => assert!(s.starts_with("invalid private key: ")),
        _ => panic!("expected InvalidConfig"),
    }
    let bad_url = PipelineConfig::base_sepolia_defaults(
        Some(String::from("not a url")),
        None,
        None,
        Some(String::from(key)),
    );
    match submitter_settings(&bad_url) {
        Err(PipelineError::InvalidConfig(s)) => assert!(s.starts_with("invalid RPC URL: ")),
        _ => panic!("expected InvalidConfig"),
    }
    let good = PipelineConfig::base_sepolia_defaults(
        None,
        None,
        Some(String::from("0x00000000000000000000000000000000000000aa")),
        Some(String::from(key)),
    );
    let st = submitter_settings(&good).unwrap_or_else(|_| panic!("expected settings"));
    assert_eq!(st.signing_key[0], 0x6f);
    assert_eq!(st.signing_key[31], 0x0b);
    assert_eq!(st.rpc_url, "https://sepolia.base.org");
    assert_eq!(st.contract[19], 0xaa);
}
