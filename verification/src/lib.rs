//! Meridian: a price-time priority matching engine and the batching and
//! settlement decisions that follow it.
pub mod decimal;
pub mod types;
pub mod orderbook;
pub mod matching;
pub mod errors;
pub mod engine;
pub mod pipeline_error;
pub mod settlement;
pub mod batcher;
pub mod simulator;
pub mod pipeline;
pub mod config;
pub mod submitter;
