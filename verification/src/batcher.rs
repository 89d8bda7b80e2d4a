//! The batcher: it accumulates fills and decides, from the batch's size and
//! age and from recent gas prices, when a batch should be flushed.
use vstd::prelude::*;
use std::collections::VecDeque;
use std::time::Instant;
use crate::settlement::{PendingFill, SettlementBatch, system_now};

verus! {

/// The monotonic clock type of std, carried through the library as is.
#[verifier::external_type_specification]
#[verifier::external_body]
pub struct ExInstant(std::time::Instant);

/// `Instant::now()`. Nothing is promised of its value.
#[verifier::external_body]
fn instant_now() -> Instant {
    Instant::now()
}

/// `Instant::elapsed`, in whole milliseconds. Nothing is promised of its
/// value.
#[verifier::external_body]
fn instant_elapsed_ms(t: &Instant) -> u64 {
    t.elapsed().as_millis() as u64
}

/// Default opportunistic gas threshold (wei) used by the batcher: 0.001 gwei.
pub const OPPORTUNISTIC_DEFAULT: u128 = 1_000_000u128;

/// The fraction of the rolling average below which gas counts as cheap, in
/// basis points: 8500 is 0.85, that is 15% below the recent average.
pub const BELOW_AVERAGE_FACTOR_BPS: u64 = 8500u64;

/// Sum of a sequence of samples.
pub open spec fn seq_sum(s: Seq<u128>) -> int
    decreases s.len(),
{
    if s.len() == 0 {
        0
    } else {
        seq_sum(s.drop_last()) + s.last()
    }
}

proof fn lemma_seq_sum_prefix(s: Seq<u128>, i: int)
    requires
        0 <= i <= s.len(),
    ensures
        0 <= seq_sum(s.take(i)) <= seq_sum(s),
    decreases s.len(),
{
    if s.len() > 0 {
        if i == s.len() {
            assert(s.take(i) =~= s);
            lemma_seq_sum_prefix(s.drop_last(), i - 1);
            assert(s.drop_last().take(i - 1) =~= s.drop_last());
        } else {
            lemma_seq_sum_prefix(s.drop_last(), i);
            assert(s.drop_last().take(i) =~= s.take(i));
        }
    }
}

/// The rolling average of samples: their sum divided by their number.
pub open spec fn average(s: Seq<u128>) -> Option<int> {
    if s.len() == 0 {
        None
    } else {
        Some(seq_sum(s) / (s.len() as int))
    }
}

/// Gas is below `factor_bps` / 10000 of the average, compared exactly:
/// `current < average * factor_bps / 10000` over the rationals.
pub open spec fn below_average(current: u128, avg: Option<int>, factor_bps: u64) -> bool {
    match avg {
        Some(a) => current * 10000 < a * factor_bps,
        None => false,
    }
}

/// Gas is at or below an absolute threshold, and known (not zero).
pub open spec fn opportunistic(current: u128, threshold_wei: u128) -> bool {
    current <= threshold_wei && current > 0
}

/// The samples after a new one is recorded: the oldest is dropped when the
/// window is full.
pub open spec fn samples_after_record(s: Seq<u128>, window: nat, fee: u128) -> Seq<u128> {
    if s.len() >= window && s.len() > 0 {
        s.drop_first().push(fee)
    } else {
        s.push(fee)
    }
}

/// Rolling gas price tracker for dynamic flush decisions: a sliding window
/// of recent base fee samples.
#[derive(Debug)]
pub struct GasPriceOracle {
    /// Recent base fee samples (wei), oldest first.
    samples: VecDeque<u128>,
    /// Maximum number of samples to retain.
    window_size: usize,
    /// Current base fee from the latest block.
    pub current_wei: u128,
}

impl GasPriceOracle {
    /// The samples held, oldest first.
    pub closed spec fn samples(&self) -> Seq<u128> {
        self.samples@
    }

    /// The latest base fee recorded.
    pub closed spec fn current(&self) -> u128 {
        self.current_wei
    }

    /// The latest base fee recorded.
    pub fn current_fee(&self) -> (r: u128)
        ensures
            r == self.current(),
    {
        self.current_wei
    }

    /// The number of samples the window keeps.
    pub closed spec fn window(&self) -> nat {
        self.window_size as nat
    }

    /// The sum of the samples fits in a `u128`.
    pub open spec fn sum_in_range(&self) -> bool {
        seq_sum(self.samples()) <= u128::MAX
    }

    pub fn new(window_size: usize) -> (r: GasPriceOracle)
        ensures
            r.samples() == Seq::<u128>::empty(),
            r.window() == window_size,
            r.current() == 0,
    {
        GasPriceOracle { samples: VecDeque::new(), window_size, current_wei: 0 }
    }

    /// Record a new base fee sample (called on each new block).
    pub fn record(&mut self, base_fee_wei: u128)
        ensures
            final(self).samples() == samples_after_record(old(self).samples(), old(self).window(), base_fee_wei),
            final(self).window() == old(self).window(),
            final(self).current() == base_fee_wei,
    {
        if self.samples.len() >= self.window_size {
            let _ = self.samples.pop_front();
        }
        self.samples.push_back(base_fee_wei);
        self.current_wei = base_fee_wei;
        proof {
            let s = old(self).samples@;
            if s.len() >= self.window_size && s.len() > 0 {
                assert(s.subrange(1, s.len() as int) =~= s.drop_first());
            }
        }
    }

    /// Whether the sum of the samples fits in a `u128`, so that the rolling
    /// average can be computed.
    pub fn sum_fits(&self) -> (r: bool)
        ensures
            r == self.sum_in_range(),
    {
        let n = self.samples.len();
        let mut acc: u128 = 0;
        let mut i: usize = 0;
        while i < n
            invariant
                n == self.samples@.len(),
                i <= n,
                acc == seq_sum(self.samples@.take(i as int)),
            decreases n - i,
        {
            let x = self.samples[i];
            proof {
                assert(self.samples@.take(i + 1).drop_last() =~= self.samples@.take(i as int));
                lemma_seq_sum_prefix(self.samples@, i + 1);
                lemma_seq_sum_prefix(self.samples@, i as int);
            }
            match acc.checked_add(x) {
                Some(v) => {
                    acc = v;
                },
                None => {
                    return false;
                },
            }
            i = i + 1;
        }
        assert(self.samples@.take(n as int) =~= self.samples@);
        true
    }

    /// Rolling average of recent base fees, rounded down; `None` without
    /// samples.
    pub fn rolling_average(&self) -> (r: Option<u128>)
        requires
            self.sum_in_range(),
        ensures
            r is None <==> average(self.samples()) is None,
            r matches Some(a) ==> average(self.samples()) == Some(a as int),
    {
        let n = self.samples.len();
        if n == 0 {
            return None;
        }
        let mut acc: u128 = 0;
        let mut i: usize = 0;
        while i < n
            invariant
                n == self.samples@.len(),
                i <= n,
                acc == seq_sum(self.samples@.take(i as int)),
                seq_sum(self.samples@) <= u128::MAX,
            decreases n - i,
        {
            let x = self.samples[i];
            proof {
                assert(self.samples@.take(i + 1).drop_last() =~= self.samples@.take(i as int));
                lemma_seq_sum_prefix(self.samples@, i + 1);
            }
            acc = acc + x;
            i = i + 1;
        }
        assert(self.samples@.take(n as int) =~= self.samples@);
        Some(acc / (n as u128))
    }

    /// True if current gas is below `factor` basis points of the rolling
    /// average (8500 = 0.85: gas 15% below the recent average).
    pub fn is_below_average(&self, factor: u64) -> (r: bool)
        requires
            self.sum_in_range(),
        ensures
            r == below_average(self.current(), average(self.samples()), factor),
    {
        match self.rolling_average() {
            None => false,
            Some(avg) => {
                let q = avg / 10000;
                let rem = avg % 10000;
                let f = factor as u128;
                proof {
                    lemma_scaled_compare(avg as int, f as int, self.current_wei as int);
                    assert(9999 * f + 9999 < u128::MAX) by (nonlinear_arith)
                        requires
                            f <= u64::MAX,
                    ;
                }
                let rf = rem * f + 9999;
                match q.checked_mul(f) {
                    None => true,
                    Some(qf) => match qf.checked_add(rf / 10000) {
                        None => true,
                        Some(threshold) => self.current_wei < threshold,
                    },
                }
            },
        }
    }

    /// True if current gas is at or below the absolute threshold.
    pub fn is_opportunistic(&self, threshold_wei: u128) -> (r: bool)
        ensures
            r == opportunistic(self.current(), threshold_wei),
    {
        self.current_wei <= threshold_wei && self.current_wei > 0
    }
}

/// `c * 10000 < a * f`, split so that no intermediate overflows: with
/// `a = q * 10000 + r`, it holds exactly when `c < q * f + ceil(r * f / 10000)`.
proof fn lemma_scaled_compare(a: int, f: int, c: int)
    requires
        a >= 0,
        f >= 0,
        c >= 0,
    ensures
        (c * 10000 < a * f) == (c < (a / 10000) * f + ((a % 10000) * f + 9999) / 10000),
        (a % 10000) * f <= 9999 * f,
{
    let q = a / 10000;
    let r = a % 10000;
    assert(a == q * 10000 + r) by (nonlinear_arith)
        requires
            q == a / 10000,
            r == a % 10000,
    ;
    assert(0 <= r < 10000);
    let x = q * f;
    let y = r * f;
    assert(a * f == x * 10000 + y) by (nonlinear_arith)
        requires
            a == q * 10000 + r,
            x == q * f,
            y == r * f,
    ;
    assert(0 <= y <= 9999 * f) by (nonlinear_arith)
        requires
            0 <= r < 10000,
            f >= 0,
            y == r * f,
    ;
    let k = (y + 9999) / 10000;
    assert(k * 10000 <= y + 9999 < k * 10000 + 10000) by (nonlinear_arith)
        requires
            k == (y + 9999) / 10000,
            y >= 0,
    ;
    if c < x + k {
        assert(c * 10000 <= (x + k - 1) * 10000) by (nonlinear_arith)
            requires
                c <= x + k - 1,
        ;
    } else {
        assert(c * 10000 >= (x + k) * 10000) by (nonlinear_arith)
            requires
                c >= x + k,
        ;
    }
}

/// Reasons why a batch was flushed.
#[derive(Debug, Clone, Copy, PartialEq, Eq, Structural)]
pub enum FlushReason {
    /// Reached the hard fill count cap.
    MaxSizeReached,
    /// Oldest fill exceeded the age threshold.
    MaxAgeReached,
    /// Gas price dropped to or below the absolute threshold.
    OpportunisticGas,
    /// Gas price dropped below rolling average by the configured factor.
    BelowAverageGas,
    /// Manual/external flush request.
    Manual,
}

impl FlushReason {
    pub fn as_str(&self) -> (r: &'static str)
        ensures
            *self == FlushReason::MaxSizeReached ==> r@ == "max_size"@,
            *self == FlushReason::MaxAgeReached ==> r@ == "max_age"@,
            *self == FlushReason::OpportunisticGas ==> r@ == "opportunistic_gas"@,
            *self == FlushReason::BelowAverageGas ==> r@ == "below_average_gas"@,
            *self == FlushReason::Manual ==> r@ == "manual"@,
    {
        match self {
            FlushReason::MaxSizeReached => "max_size",
            FlushReason::MaxAgeReached => "max_age",
            FlushReason::OpportunisticGas => "opportunistic_gas",
            FlushReason::BelowAverageGas => "below_average_gas",
            FlushReason::Manual => "manual",
        }
    }
}

/// Batch flush strategy parameters.
#[derive(Debug, Clone, Copy)]
pub struct BatchConfig {
    /// Flush when the batch reaches this many fills: a hard cap.
    pub max_batch_size: usize,
    /// Flush if the oldest fill in the batch is at least this old (milliseconds).
    pub max_batch_age_ms: u64,
    /// Minimum fills to include in a gas-triggered flush.
    pub min_batch_size_for_gas_trigger: usize,
}

/// The flush decision, in order of priority:
///   1. fills >= max_batch_size: always flush (hard cap);
///   2. oldest fill age >= max_batch_age: flush (latency cap);
///   3. gas <= opportunistic threshold: flush if fills >= the gas minimum;
///   4. gas < rolling average * 0.85: flush if fills >= the gas minimum.
pub open spec fn flush_decision(
    count: nat,
    config: BatchConfig,
    oldest_age_ms: Option<u64>,
    current_wei: u128,
    avg: Option<int>,
) -> Option<FlushReason> {
    if count == 0 {
        None
    } else if count >= config.max_batch_size {
        Some(FlushReason::MaxSizeReached)
    } else if oldest_age_ms matches Some(age) && age >= config.max_batch_age_ms {
        Some(FlushReason::MaxAgeReached)
    } else if count >= config.min_batch_size_for_gas_trigger {
        if opportunistic(current_wei, OPPORTUNISTIC_DEFAULT) {
            Some(FlushReason::OpportunisticGas)
        } else if below_average(current_wei, avg, BELOW_AVERAGE_FACTOR_BPS) {
            Some(FlushReason::BelowAverageGas)
        } else {
            None
        }
    } else {
        None
    }
}

/// Whether the flush decision reads the rolling average: only on the gas
/// path, for a batch below the size cap, not yet aged, with enough fills,
/// and when gas is not already under the opportunistic threshold.
pub open spec fn reads_average(
    count: nat,
    config: BatchConfig,
    oldest_age_ms: Option<u64>,
    current_wei: u128,
) -> bool {
    &&& count > 0
    &&& count < config.max_batch_size
    &&& !(oldest_age_ms matches Some(age) && age >= config.max_batch_age_ms)
    &&& count >= config.min_batch_size_for_gas_trigger
    &&& !opportunistic(current_wei, OPPORTUNISTIC_DEFAULT)
}

/// The core batcher: accumulates fills and decides when to flush.
#[derive(Debug)]
pub struct Batcher {
    config: BatchConfig,
    pending: Vec<PendingFill>,
    oldest_fill_at: Option<Instant>,
    batch_counter: u64,
}

impl Batcher {
    pub closed spec fn config(&self) -> BatchConfig {
        self.config
    }

    /// The fills waiting to be batched, in arrival order.
    pub closed spec fn pending(&self) -> Seq<PendingFill> {
        self.pending@
    }

    /// When the oldest waiting fill arrived, if recorded.
    pub closed spec fn oldest(&self) -> Option<Instant> {
        self.oldest_fill_at
    }

    /// Whether the arrival time of the oldest waiting fill is recorded.
    pub open spec fn has_oldest(&self) -> bool {
        self.oldest() is Some
    }

    /// The number of batches flushed so far.
    pub closed spec fn batches_flushed(&self) -> u64 {
        self.batch_counter
    }

    /// The arrival time of the oldest fill is recorded exactly when fills
    /// are waiting.
    pub open spec fn wf(&self) -> bool {
        (self.pending().len() > 0) == self.has_oldest()
    }

    pub fn new(config: BatchConfig) -> (r: Batcher)
        ensures
            r.wf(),
            r.config() == config,
            r.pending() == Seq::<PendingFill>::empty(),
            !r.has_oldest(),
            r.batches_flushed() == 0,
    {
        Batcher { config, pending: Vec::new(), oldest_fill_at: None, batch_counter: 0 }
    }

    /// Add a fill to the pending queue. The first fill of a batch starts
    /// its age clock.
    pub fn push(&mut self, fill: PendingFill)
        requires
            old(self).wf(),
        ensures
            final(self).wf(),
            final(self).pending() == old(self).pending().push(fill),
            final(self).config() == old(self).config(),
            final(self).batches_flushed() == old(self).batches_flushed(),
            final(self).has_oldest(),
            old(self).pending().len() > 0 ==> final(self).oldest() == old(self).oldest(),
    {
        if self.pending.len() == 0 {
            self.oldest_fill_at = Some(instant_now());
        }
        self.pending.push(fill);
    }

    /// The number of batches flushed so far.
    pub fn batch_count(&self) -> (r: u64)
        ensures
            r == self.batches_flushed(),
    {
        self.batch_counter
    }

    /// The number of fills waiting.
    pub fn pending_count(&self) -> (r: usize)
        ensures
            r == self.pending().len(),
    {
        self.pending.len()
    }

    /// The flush decision for a given age of the oldest waiting fill (`None`
    /// when no fill is waiting). Returns the flush reason if a flush is
    /// warranted.
    pub fn should_flush_at(&self, oracle: &GasPriceOracle, oldest_age_ms: Option<u64>) -> (r:
        Option<FlushReason>)
        requires
            reads_average(self.pending().len(), self.config(), oldest_age_ms, oracle.current())
                ==> oracle.sum_in_range(),
        ensures
            r == flush_decision(
                self.pending().len(),
                self.config(),
                oldest_age_ms,
                oracle.current(),
                average(oracle.samples()),
            ),
    {
        let count = self.pending.len();
        if count == 0 {
            return None;
        }
        // 1. Hard size cap: always flush regardless of gas.
        if count >= self.config.max_batch_size {
            return Some(FlushReason::MaxSizeReached);
        }
        // 2. Age cap: prevents indefinite latency during quiet periods.
        if let Some(age) = oldest_age_ms {
            if age >= self.config.max_batch_age_ms {
                return Some(FlushReason::MaxAgeReached);
            }
        }
        // 3 and 4. Gas-triggered flushes: only worthwhile with enough fills.
        let min = self.config.min_batch_size_for_gas_trigger;
        if count >= min {
            if oracle.is_opportunistic(OPPORTUNISTIC_DEFAULT) {
                return Some(FlushReason::OpportunisticGas);
            }
            if oracle.is_below_average(BELOW_AVERAGE_FACTOR_BPS) {
                return Some(FlushReason::BelowAverageGas);
            }
        }
        None
    }

    /// Whether a flush decision may read the oracle's rolling average,
    /// whatever the age of the oldest fill.
    pub fn needs_average(&self, oracle: &GasPriceOracle) -> (r: bool)
        ensures
            r == reads_average(self.pending().len(), self.config(), None, oracle.current()),
    {
        let count = self.pending.len();
        count > 0 && count < self.config.max_batch_size
            && count >= self.config.min_batch_size_for_gas_trigger
            && !oracle.is_opportunistic(OPPORTUNISTIC_DEFAULT)
    }

    /// Evaluate whether a flush should happen given current gas conditions,
    /// reading the age of the oldest waiting fill from the clock.
    pub fn should_flush(&self, oracle: &GasPriceOracle) -> (r: Option<FlushReason>)
        requires
            reads_average(self.pending().len(), self.config(), None, oracle.current())
                ==> oracle.sum_in_range(),
        ensures
            !self.has_oldest() ==> r == flush_decision(
                self.pending().len(),
                self.config(),
                None,
                oracle.current(),
                average(oracle.samples()),
            ),
            self.has_oldest() ==> exists|age: u64|
                r == #[trigger] flush_decision(
                    self.pending().len(),
                    self.config(),
                    Some(age),
                    oracle.current(),
                    average(oracle.samples()),
                ),
    {
        let age = match &self.oldest_fill_at {
            Some(t) => Some(instant_elapsed_ms(t)),
            None => None,
        };
        self.should_flush_at(oracle, age)
    }

    /// Drain the pending fills into a batch and reset the state. Without
    /// pending fills there is nothing to flush.
    pub fn flush(&mut self, reason: FlushReason) -> (r: Option<SettlementBatch>)
        requires
            old(self).wf(),
            old(self).pending().len() > 0 ==> old(self).batches_flushed() < u64::MAX,
        ensures
            final(self).wf(),
            final(self).config() == old(self).config(),
            old(self).pending().len() == 0 ==> r is None && final(self).pending() == old(self).pending()
                && final(self).batches_flushed() == old(self).batches_flushed(),
            old(self).pending().len() > 0 ==> (r matches Some(b) && b.id == old(self).batches_flushed()
                + 1 && b.fills@ == old(self).pending() && b.flush_reason == reason),
            r matches Some(b) ==> b.id == final(self).batches_flushed() && b.id > old(
                self,
            ).batches_flushed(),
            final(self).batches_flushed() >= old(self).batches_flushed(),
            old(self).pending().len() > 0 ==> final(self).pending() == Seq::<PendingFill>::empty()
                && !final(self).has_oldest() && final(self).batches_flushed() == old(
                self,
            ).batches_flushed() + 1,
    {
        if self.pending.len() == 0 {
            return None;
        }
        self.batch_counter = self.batch_counter + 1;
        let mut fills: Vec<PendingFill> = Vec::new();
        std::mem::swap(&mut fills, &mut self.pending);
        self.oldest_fill_at = None;
        Some(SettlementBatch {
            id: self.batch_counter,
            fills,
            flush_reason: reason,
            created_at: system_now(),
        })
    }
}


/// The samples after recording `fees`, in order, starting from `s`.
pub open spec fn samples_after_fees(s: Seq<u128>, window: nat, fees: Seq<u128>) -> Seq<u128>
    decreases fees.len(),
{
    if fees.len() == 0 {
        s
    } else {
        samples_after_record(samples_after_fees(s, window, fees.drop_last()), window, fees.last())
    }
}

/// The window slides: after any fees are recorded into a new oracle, its
/// samples are exactly the latest `window` fees (at least one), oldest
/// first. The oldest fee leaves when the window is full, so the rolling
/// average is always that of the most recent fees.
pub proof fn lemma_window_keeps_latest(window: nat, fees: Seq<u128>)
    ensures
        ({
            let w: int = if window == 0 { 1 } else { window as int };
            let n: int = fees.len() as int;
            samples_after_fees(Seq::<u128>::empty(), window, fees) == fees.subrange(
                if n > w { n - w } else { 0 },
                n,
            )
        }),
    decreases fees.len(),
{
    let w: int = if window == 0 { 1 } else { window as int };
    let n: int = fees.len() as int;
    if n == 0 {
        assert(fees.subrange(0, 0) =~= Seq::<u128>::empty());
    } else {
        let m = n - 1;
        let prefix = fees.drop_last();
        lemma_window_keeps_latest(window, prefix);
        let prev = samples_after_fees(Seq::<u128>::empty(), window, prefix);
        let lo: int = if m > w { m - w } else { 0 };
        assert(prev == prefix.subrange(lo, m));
        if prev.len() >= window && prev.len() > 0 {
            assert(m >= w);
            assert(prev.drop_first().push(fees.last()) =~= fees.subrange(n - w, n));
        } else {
            assert(m < w);
            assert(prev.push(fees.last()) =~= fees.subrange(0, n));
        }
    }
}

/// The window never holds more samples than its size (at least one), and
/// the newest sample is the one just recorded.
pub proof fn lemma_record_window(s: Seq<u128>, window: nat, fee: u128)
    requires
        s.len() <= if window == 0 { 1 } else { window },
    ensures
        samples_after_record(s, window, fee).len() <= if window == 0 { 1 } else { window },
        samples_after_record(s, window, fee).last() == fee,
        samples_after_record(s, window, fee).len() > 0,
{
}

} // verus!
