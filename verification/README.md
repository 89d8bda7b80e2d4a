# Meridian

A price-time priority matching engine and the batching and settlement
decisions that follow it, verified with Verus.

- `src/` is the verified library:
  - `decimal` — exact decimal amounts (`rust_decimal` parts) and the calls into `rust_decimal`;
  - `types` — orders, fills, match results;
  - `orderbook` — price levels, the two sides of a book, and the book's invariant;
  - `matching` — the matching step and run, and the laws of matching;
  - `engine` / `errors` — the engine (one book per pair) and its errors;
  - `settlement`, `batcher`, `simulator`, `pipeline_error`, `pipeline` — pending fills,
    the gas oracle and flush decisions, and the settlement pipeline's decisions;
  - `config` — the pipeline's configuration and its Base Sepolia and mainnet defaults;
  - `submitter` — the checked settings (signing key, RPC endpoint, contract) the on-chain
    submitter is built from.
- `app/` holds what stays outside: serde and Display on wire copies of the types,
  reading the configuration's settings from the environment, the on-chain submitter (alloy) and the
  asynchronous pipeline loop (tokio).
- `tests/` exercises the library on concrete values.
