//! Chain-level and pipeline-level configuration, and the defaults for Base
//! Sepolia and Base mainnet. All gas values are in wei. The settings that
//! come from the environment are handed in as optional strings.
use vstd::prelude::*;
use crate::batcher::BatchConfig;

verus! {

/// What `str::parse::<alloy::primitives::Address>` returns for a string:
/// the address's 20 bytes, or `None` when the string is not an address.
pub uninterp spec fn address_parse(s: Seq<char>) -> Option<[u8; 20]>;

/// `str::parse::<alloy::primitives::Address>`, the address taken as its 20
/// bytes; `None` when alloy refuses the string.
#[verifier::external_body]
fn parse_address(s: &str) -> (r: Option<[u8; 20]>)
    ensures
        r == address_parse(s@),
{
    match s.parse::<alloy::primitives::Address>() {
        Ok(a) => Some(a.0.0),
        Err(_) => None,
    }
}

/// Chain configuration.
#[derive(Debug)]
pub struct ChainConfig {
    /// Chain ID - Base mainnet = 8453, Base Sepolia = 84532.
    pub chain_id: u64,
    /// HTTP RPC endpoint (primary).
    pub rpc_http: String,
    /// WebSocket RPC endpoint (for gas price subscriptions).
    pub rpc_ws: String,
    /// Deployed MeridianSettlement contract address (its 20 bytes).
    pub settlement_address: [u8; 20],
    /// Operator private key (hex, without 0x prefix).
    pub operator_private_key: String,
}

/// Gas price oracle and submission parameters.
#[derive(Debug, Clone, Copy)]
pub struct GasConfig {
    /// Flush immediately if base fee (wei) is at or below this threshold.
    pub opportunistic_gas_threshold_wei: u128,
    /// How many recent base-fee samples to keep for the rolling average.
    pub rolling_window_size: usize,
    /// Flush if the current gas price is below the rolling average times
    /// this factor, in basis points (8500 = 0.85: 15% below the average).
    pub below_average_factor_bps: u64,
    /// Maximum gas price (wei) at which we submit at all: the circuit breaker.
    pub max_gas_price_wei: u128,
    /// Gas limit per settleBatch call.
    pub gas_limit: u64,
    /// EIP-1559 priority fee (tip) in wei.
    pub max_priority_fee_wei: u128,
}

/// Chain, batching and gas configuration of the pipeline.
#[derive(Debug)]
pub struct PipelineConfig {
    pub chain: ChainConfig,
    pub batch: BatchConfig,
    pub gas: GasConfig,
}

/// A setting as given, or its default when it is not given.
pub open spec fn given_or(s: Option<String>, default: Seq<char>) -> Seq<char> {
    match s {
        Some(x) => x@,
        None => default,
    }
}

/// The zero address.
pub open spec fn is_zero_address(a: [u8; 20]) -> bool {
    a@ == Seq::new(20, |_i: int| 0u8)
}

/// The settlement address `a` is the given string parsed as an address, or
/// the zero address when no string is given or it does not parse.
pub open spec fn address_or_zero(a: [u8; 20], s: Option<String>) -> bool {
    match s {
        Some(x) => match address_parse(x@) {
            Some(p) => a == p,
            None => is_zero_address(a),
        },
        None => is_zero_address(a),
    }
}

/// The zero address.
fn zero_address() -> (r: [u8; 20])
    ensures
        is_zero_address(r),
{
    let r = [0u8; 20];
    assert(r@ =~= Seq::new(20, |_i: int| 0u8));
    r
}

/// A setting as given, or its default.
fn given_or_default(s: Option<String>, default: &str) -> (r: String)
    ensures
        r@ == given_or(s, default@),
{
    match s {
        Some(x) => x,
        None => String::from_str(default),
    }
}

impl PipelineConfig {
    /// Sensible defaults for Base Sepolia testnet. The endpoints, the
    /// settlement address and the operator key are taken as given (as read
    /// from `BASE_RPC_HTTP`, `BASE_RPC_WS`, `SETTLEMENT_ADDRESS` and
    /// `OPERATOR_PRIVATE_KEY`), with defaults where they are not.
    pub fn base_sepolia_defaults(
        rpc_http: Option<String>,
        rpc_ws: Option<String>,
        settlement_address: Option<String>,
        operator_private_key: Option<String>,
    ) -> (r: PipelineConfig)
        ensures
            r.chain.chain_id == 84532,
            r.chain.rpc_http@ == given_or(rpc_http, "https://sepolia.base.org"@),
            r.chain.rpc_ws@ == given_or(rpc_ws, "wss://sepolia.base.org"@),
            address_or_zero(r.chain.settlement_address, settlement_address),
            r.chain.operator_private_key@ == given_or(operator_private_key, Seq::<char>::empty()),
            r.batch.max_batch_size == 50,
            r.batch.max_batch_age_ms == 500,
            r.batch.min_batch_size_for_gas_trigger == 5,
            // Base Sepolia: ~0.001 gwei threshold (effectively always trigger).
            r.gas.opportunistic_gas_threshold_wei == 1_000_000,
            r.gas.rolling_window_size == 20,
            r.gas.below_average_factor_bps == 8500,
            // Circuit breaker: 10 gwei max on Base.
            r.gas.max_gas_price_wei == 10_000_000_000,
            r.gas.gas_limit == 3_000_000,
            r.gas.max_priority_fee_wei == 1_000_000,
    {
        let address = match settlement_address {
            Some(s) => match parse_address(s.as_str()) {
                Some(a) => a,
                None => zero_address(),
            },
            None => zero_address(),
        };
        let key = match operator_private_key {
            Some(k) => k,
            None => String::new(),
        };
        PipelineConfig {
            chain: ChainConfig {
                chain_id: 84532,
                rpc_http: given_or_default(rpc_http, "https://sepolia.base.org"),
                rpc_ws: given_or_default(rpc_ws, "wss://sepolia.base.org"),
                settlement_address: address,
                operator_private_key: key,
            },
            batch: BatchConfig {
                max_batch_size: 50,
                max_batch_age_ms: 500,
                min_batch_size_for_gas_trigger: 5,
            },
            gas: GasConfig {
                opportunistic_gas_threshold_wei: 1_000_000,
                rolling_window_size: 20,
                below_average_factor_bps: 8500,
                max_gas_price_wei: 10_000_000_000,
                gas_limit: 3_000_000,
                max_priority_fee_wei: 1_000_000,
            },
        }
    }

    /// Defaults for Base mainnet: those of Base Sepolia, on chain 8453, with
    /// mainnet endpoints by default and tighter gas discipline.
    pub fn base_mainnet_defaults(
        rpc_http: Option<String>,
        rpc_ws: Option<String>,
        settlement_address: Option<String>,
        operator_private_key: Option<String>,
    ) -> (r: PipelineConfig)
        ensures
            r.chain.chain_id == 8453,
            r.chain.rpc_http@ == given_or(rpc_http, "https://mainnet.base.org"@),
            r.chain.rpc_ws@ == given_or(rpc_ws, "wss://mainnet.base.org"@),
            address_or_zero(r.chain.settlement_address, settlement_address),
            r.chain.operator_private_key@ == given_or(operator_private_key, Seq::<char>::empty()),
            r.batch.max_batch_size == 50,
            r.batch.max_batch_age_ms == 500,
            r.batch.min_batch_size_for_gas_trigger == 5,
            // 0.1 gwei.
            r.gas.opportunistic_gas_threshold_wei == 100_000_000,
            r.gas.rolling_window_size == 20,
            r.gas.below_average_factor_bps == 8500,
            // 50 gwei.
            r.gas.max_gas_price_wei == 50_000_000_000,
            r.gas.gas_limit == 3_000_000,
            // 1 gwei.
            r.gas.max_priority_fee_wei == 1_000_000_000,
    {
        let mut cfg = PipelineConfig::base_sepolia_defaults(
            None,
            None,
            settlement_address,
            operator_private_key,
        );
        cfg.chain.chain_id = 8453;
        cfg.chain.rpc_http = given_or_default(rpc_http, "https://mainnet.base.org");
        cfg.chain.rpc_ws = given_or_default(rpc_ws, "wss://mainnet.base.org");
        cfg.gas.opportunistic_gas_threshold_wei = 100_000_000;
        cfg.gas.max_gas_price_wei = 50_000_000_000;
        cfg.gas.max_priority_fee_wei = 1_000_000_000;
        cfg
    }
}

} // verus!
