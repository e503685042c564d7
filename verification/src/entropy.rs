//! Watching over the uncertainty of the field.

use std::collections::VecDeque;

use vstd::prelude::*;

use crate::clusters;
use crate::clusters::{ask, connected_similarity_components, Measure};
use crate::doubles;
use crate::float::{Single, SINGLE_INFINITY, SINGLE_ONE};
use crate::fpu;
use crate::fpu::{Arithmetic, Flop, Fpu};
use crate::numeric;
use crate::relation;
use crate::relation::clamp_unit;
use crate::rounding;
use crate::trust;

verus! {

/// An entity whose share of the largest entropy is above this one (`0.8`) is to
/// be looked at.
pub const ORB_ENTROPY_WARNING_FRACTION: u32 = 0x3F4C_CCCD;

/// A mean above this one (`0.6`) is a warning.
pub const MEAN_ORB_ENTROPY_WARNING: u32 = 0x3F19_999A;

/// A mean above this one (`0.85`) is critical.
pub const MEAN_ORB_ENTROPY_CRITICAL: u32 = 0x3F59_999A;

/// Another name of [`MEAN_ORB_ENTROPY_WARNING`].
pub const FIELD_ENTROPY_WARNING: u32 = MEAN_ORB_ENTROPY_WARNING;

/// Another name of [`MEAN_ORB_ENTROPY_CRITICAL`].
pub const FIELD_ENTROPY_CRITICAL: u32 = MEAN_ORB_ENTROPY_CRITICAL;

/// How long the mean has to be critical until no entity may be created, in
/// milliseconds.
pub const FIELD_ENTROPY_CRITICAL_SUSTAIN_MS: u64 = 600_000;

/// Samples that are further apart than this do not show that the mean was
/// critical all the time.
pub const FIELD_ENTROPY_MAX_SUSTAIN_SAMPLE_GAP_MS: u64 = 120_000;

/// No rate of change is taken over less than this.
pub const MIN_ENTROPY_DERIVATIVE_INTERVAL_MS: u64 = 100;

/// The largest rate of change per second (`0.05`), unless another one is set.
pub const DEFAULT_ENTROPY_SPIKE_RATE: u32 = 0x3D4C_CCCD;

/// The weight of the newest sample in the moving average (`0.35`), unless
/// another one is set.
pub const DEFAULT_ENTROPY_EMA_ALPHA: u32 = 0x3EB3_3333;

/// Entities may be created freely (`1.0`).
pub const CREATION_THROTTLE_NORMAL: u32 = 0x3F80_0000;

/// Creation is slowed down (`0.7`).
pub const CREATION_THROTTLE_WARNING: u32 = 0x3F33_3333;

/// Creation is slowed down a lot (`0.3`).
pub const CREATION_THROTTLE_SEVERE: u32 = 0x3E99_999A;

/// No entity may be created (`0.0`).
pub const CREATION_THROTTLE_PAUSED: u32 = 0;

/// The longest history of a monitor.
pub const MAX_HISTORY: usize = 128;

/// A largest entropy below this one (`1e-8`) is too small to divide by.
pub const SMALLEST_MAX_ENTROPY: u32 = 0x322B_CC77;

/// Milliseconds of a second (`1000.0`).
pub const MS_PER_SECOND: u32 = 0x447A_0000;

// ---------------------------------------------------------------------------
// Alerts
// ---------------------------------------------------------------------------

#[derive(Debug, Clone, Copy, PartialEq, Eq, PartialOrd, Ord, Structural)]
pub enum AlertSeverity {
    Warning,
    Critical,
}

#[allow(inconsistent_fields)]
#[derive(Debug, Clone, Copy, PartialEq, Eq, Structural)]
pub enum EntropyAlertKind {
    /// The entropy of an entity is high.
    OrbEntropyHigh { orb_id: u128, normalized_entropy: Single, threshold: Single },
    /// The mean entropy is high.
    MeanOrbEntropyHigh { mean_normalized_entropy: Single, threshold: Single },
    /// The entropy of a field is high; never raised here.
    FieldEntropyHigh { field_entropy: Single, threshold: Single },
    /// The mean entropy rises fast.
    EntropySpike { rate: Single, threshold: Single },
    /// The mean entropy falls fast.
    EntropyCollapse { rate: Single, threshold: Single },
    /// The mean entropy has been critical for long.
    SustainedCriticalEntropy { mean_normalized_entropy: Single, sustained_ms: u64 },
}

#[derive(Debug, Clone, Copy, PartialEq, Eq, Structural)]
pub struct EntropyAlert {
    pub severity: AlertSeverity,
    pub kind: EntropyAlertKind,
    pub timestamp_ms: u64,
}

// ---------------------------------------------------------------------------
// Samples
// ---------------------------------------------------------------------------

/// The entropy of one entity at a time.
#[derive(Debug, Clone, Copy, PartialEq, Eq, Structural)]
pub struct OrbEntropySample {
    pub orb_id: u128,
    /// Entropy of the probability field, in bits.
    pub entropy_bits: Single,
    /// The largest entropy that the field can have, in bits.
    pub max_entropy_bits: Single,
    /// Unix milliseconds.
    pub sampled_at_ms: u64,
}

/// The mean entropy of all active entities at a time.
#[derive(Debug, Clone, Copy, PartialEq, Eq, Structural)]
pub struct FieldEntropySnapshot {
    pub mean_normalized_entropy: Single,
    pub active_orb_count: u64,
    pub sampled_at_ms: u64,
}

/// A share between zero and one; zero in place of what is no finite number.
pub open spec fn sane_share(value: Single) -> Single {
    if value.finite() {
        relation::unit_clamped(value)
    } else {
        Single { bits: 0 }
    }
}

/// A number that is not negative; the fallback in place of any other.
pub open spec fn sane_magnitude(value: Single, fallback: Single) -> Single {
    if value.finite() && (Single { bits: 0 }).at_most(value) {
        value
    } else {
        fallback
    }
}

/// Entropy as a share of the largest one, forced between zero and one; zero
/// where a sample is malformed.
pub open spec fn share_of(m: Arithmetic, sample: OrbEntropySample) -> Single {
    if !sample.entropy_bits.finite() || !sample.max_entropy_bits.finite()
        || sample.max_entropy_bits.below(Single { bits: SMALLEST_MAX_ENTROPY }) {
        Single { bits: 0 }
    } else {
        fpu::quotient(m, sample.entropy_bits, sample.max_entropy_bits).unit()
    }
}

/// Whether an entity is to be looked at.
pub open spec fn high(m: Arithmetic, sample: OrbEntropySample) -> bool {
    (Single { bits: ORB_ENTROPY_WARNING_FRACTION }).below(share_of(m, sample))
}

/// Whether a share is that of an entropy in the largest one: nothing where a sample is
/// malformed, and else in arithmetic that rounds the exact quotient, forced between zero
/// and one, but for rounding.
pub open spec fn takes_share(m: Arithmetic, sample: OrbEntropySample, share: Single) -> bool {
    let (e, most) = (rounding::value(sample.entropy_bits), rounding::value(sample.max_entropy_bits));
    &&& !sample.entropy_bits.finite() || !sample.max_entropy_bits.finite() || most <= 0 as real
        ==> share == (Single { bits: 0 })
    &&& rounding::rounds(m) && sample.entropy_bits.finite() && sample.max_entropy_bits.finite()
        && most >= 1 as real / 1000000 as real && rounding::size(e) <= 1000000 as real ==> {
        &&& share.finite()
        &&& rounding::size(
            rounding::value(share) - rounding::between(e / most, 0 as real, 1 as real),
        ) <= rounding::slip() * rounding::size(e / most) + rounding::speck()
    }
}

/// The share of an entropy is its quotient by the largest one.
pub proof fn shares_are_quotients(m: Arithmetic, sample: OrbEntropySample)
    ensures
        takes_share(m, sample, share_of(m, sample)),
{
    rounding::lemma_constants();
    rounding::lemma_extremes();
    let (e, most) = (rounding::value(sample.entropy_bits), rounding::value(sample.max_entropy_bits));
    let smallest = Single { bits: SMALLEST_MAX_ENTROPY };
    rounding::lemma_values_are_ordered(sample.max_entropy_bits, smallest);
    if rounding::rounds(m) && sample.entropy_bits.finite() && sample.max_entropy_bits.finite()
        && most >= 1 as real / 1000000 as real && rounding::size(e) <= 1000000 as real {
        let q = e / most;
        assert(-(1000000000000 as real) <= q <= 1000000000000 as real) by (nonlinear_arith)
            requires
                q == e / most,
                -(1000000 as real) <= e <= 1000000 as real,
                most >= 1 as real / 1000000 as real,
        ;
        let quotient = fpu::quotient(m, sample.entropy_bits, sample.max_entropy_bits);
        assert(rounding::rounded(quotient, q, rounding::speck()));
        rounding::lemma_unit(quotient);
    }
}

fn sanitize_normalized(value: Single) -> (result: Single)
    ensures
        result == sane_share(value),
{
    if value.is_finite() {
        clamp_unit(value)
    } else {
        Single::zero()
    }
}

fn sanitize_non_negative(value: Single, fallback: Single) -> (result: Single)
    ensures
        result == sane_magnitude(value, fallback),
{
    if value.is_finite() && Single::zero().le(&value) {
        value
    } else {
        fallback
    }
}

impl OrbEntropySample {
    /// Entropy as a share of the largest one.
    pub fn normalized<F: Fn(Flop) -> u64>(&self, fpu: &Fpu<F>) -> (result: Single)
        ensures
            result == share_of(fpu@, *self),
            result.in_unit(),
            takes_share(fpu@, *self, result),
    {
        proof {
            shares_are_quotients(fpu@, *self);
        }
        if !self.entropy_bits.is_finite() || !self.max_entropy_bits.is_finite()
            || self.max_entropy_bits.lt(&Single::from_bits(SMALLEST_MAX_ENTROPY)) {
            return Single::zero();
        }
        fpu.div(self.entropy_bits, self.max_entropy_bits).to_unit()
    }

    /// Whether the entity is to be looked at.
    pub fn is_high<F: Fn(Flop) -> u64>(&self, fpu: &Fpu<F>) -> (result: bool)
        ensures
            result == high(fpu@, *self),
    {
        Single::from_bits(ORB_ENTROPY_WARNING_FRACTION).lt(&self.normalized(fpu))
    }
}

/// A sample with a sane mean.
pub open spec fn sane_snapshot(snapshot: FieldEntropySnapshot) -> FieldEntropySnapshot {
    FieldEntropySnapshot {
        mean_normalized_entropy: sane_share(snapshot.mean_normalized_entropy),
        ..snapshot
    }
}

impl FieldEntropySnapshot {
    pub fn new(mean_normalized_entropy: Single, active_orb_count: u64, sampled_at_ms: u64) -> (
    snapshot: Self)
        ensures
            snapshot == (FieldEntropySnapshot {
                mean_normalized_entropy,
                active_orb_count,
                sampled_at_ms,
            }),
    {
        FieldEntropySnapshot { mean_normalized_entropy, active_orb_count, sampled_at_ms }
    }

    fn sanitized(self) -> (snapshot: Self)
        ensures
            snapshot == sane_snapshot(self),
    {
        FieldEntropySnapshot {
            mean_normalized_entropy: sanitize_normalized(self.mean_normalized_entropy),
            active_orb_count: self.active_orb_count,
            sampled_at_ms: self.sampled_at_ms,
        }
    }
}

// ---------------------------------------------------------------------------
// Monitor
// ---------------------------------------------------------------------------

/// What a monitor remembers, and the limits that it was set.
pub struct MonitorMemory {
    history: VecDeque<FieldEntropySnapshot>,
    max_history: usize,
    critical_since_ms: Option<u64>,
    spike_rate_threshold: Single,
    min_derivative_interval_ms: u64,
    max_sustain_sample_gap_ms: u64,
    ema_alpha: Single,
    smoothed_mean_normalized_entropy: Option<Single>,
}

/// What a memory holds.
#[verifier::ext_equal]
pub struct MemoryView {
    pub history: Seq<FieldEntropySnapshot>,
    pub max_history: usize,
    pub critical_since_ms: Option<u64>,
    pub spike_rate_threshold: Single,
    pub min_derivative_interval_ms: u64,
    pub max_sustain_sample_gap_ms: u64,
    pub ema_alpha: Single,
    pub smoothed: Option<Single>,
}

impl View for MonitorMemory {
    type V = MemoryView;

    closed spec fn view(&self) -> MemoryView {
        MemoryView {
            history: self.history@,
            max_history: self.max_history,
            critical_since_ms: self.critical_since_ms,
            spike_rate_threshold: self.spike_rate_threshold,
            min_derivative_interval_ms: self.min_derivative_interval_ms,
            max_sustain_sample_gap_ms: self.max_sustain_sample_gap_ms,
            ema_alpha: self.ema_alpha,
            smoothed: self.smoothed_mean_normalized_entropy,
        }
    }
}

/// Watches the mean entropy: its level, its rate of change, and for how long it
/// has been critical.
pub struct EntropyMonitor {
    /// What was seen so far.
    pub memory: MonitorMemory,
    /// How freely entities may be created, between zero and one.
    pub creation_throttle_factor: Single,
    /// Whether no entity may be created.
    pub orb_creation_paused: bool,
}

/// What a monitor holds.
#[verifier::ext_equal]
pub struct MonitorView {
    pub history: Seq<FieldEntropySnapshot>,
    pub max_history: usize,
    pub critical_since_ms: Option<u64>,
    pub spike_rate_threshold: Single,
    pub min_derivative_interval_ms: u64,
    pub max_sustain_sample_gap_ms: u64,
    pub ema_alpha: Single,
    pub smoothed: Option<Single>,
    pub throttle: Single,
    pub paused: bool,
}

impl View for EntropyMonitor {
    type V = MonitorView;

    open spec fn view(&self) -> MonitorView {
        MonitorView {
            history: self.memory@.history,
            max_history: self.memory@.max_history,
            critical_since_ms: self.memory@.critical_since_ms,
            spike_rate_threshold: self.memory@.spike_rate_threshold,
            min_derivative_interval_ms: self.memory@.min_derivative_interval_ms,
            max_sustain_sample_gap_ms: self.memory@.max_sustain_sample_gap_ms,
            ema_alpha: self.memory@.ema_alpha,
            smoothed: self.memory@.smoothed,
            throttle: self.creation_throttle_factor,
            paused: self.orb_creation_paused,
        }
    }
}

/// A monitor that has seen nothing.
pub open spec fn fresh_monitor() -> MonitorView {
    MonitorView {
        history: Seq::empty(),
        max_history: MAX_HISTORY,
        critical_since_ms: None,
        spike_rate_threshold: Single { bits: DEFAULT_ENTROPY_SPIKE_RATE },
        min_derivative_interval_ms: MIN_ENTROPY_DERIVATIVE_INTERVAL_MS,
        max_sustain_sample_gap_ms: FIELD_ENTROPY_MAX_SUSTAIN_SAMPLE_GAP_MS,
        ema_alpha: Single { bits: DEFAULT_ENTROPY_EMA_ALPHA },
        smoothed: None,
        throttle: Single { bits: CREATION_THROTTLE_NORMAL },
        paused: false,
    }
}

/// The moving average after a sample: the newest value counts as much as the
/// weight says, the average before it the rest.
pub open spec fn smoothed_with(m: Arithmetic, monitor: MonitorView, h: Single) -> Single {
    match monitor.smoothed {
        Some(before) => fpu::sum(
            m,
            fpu::product(m, monitor.ema_alpha, h),
            fpu::product(
                m,
                fpu::difference(m, Single { bits: SINGLE_ONE }, monitor.ema_alpha),
                before,
            ),
        ),
        None => h,
    }
}

/// The rate of change of the moving average per second, where there is a sample
/// before this one and enough time between them.
pub open spec fn rate_at(m: Arithmetic, monitor: MonitorView, h: Single, now: u64) -> Option<
    Single,
> {
    if monitor.history.len() == 0 || monitor.smoothed is None {
        None
    } else {
        let dt = trust::elapsed(now, monitor.history.last().sampled_at_ms);
        if dt >= monitor.min_derivative_interval_ms {
            Some(
                fpu::product(
                    m,
                    fpu::quotient(
                        m,
                        fpu::difference(
                            m,
                            smoothed_with(m, monitor, h),
                            monitor.smoothed->0,
                        ),
                        fpu::single_of(m, dt),
                    ),
                    Single { bits: MS_PER_SECOND },
                ),
            )
        } else {
            None
        }
    }
}

/// Whether the average rises too fast.
pub open spec fn spikes(monitor: MonitorView, rate: Option<Single>) -> bool {
    rate matches Some(r) && monitor.spike_rate_threshold.below(r)
}

/// Whether the average falls too fast.
pub open spec fn collapses(monitor: MonitorView, rate: Option<Single>) -> bool {
    rate matches Some(r) && !monitor.spike_rate_threshold.below(r) && r.below(
        monitor.spike_rate_threshold.negated(),
    )
}

/// Since when the mean has been critical, as of a sample. A gap that is too
/// large starts the count anew.
pub open spec fn critical_since(monitor: MonitorView, h: Single, now: u64) -> Option<u64> {
    let gap = monitor.history.len() > 0 && trust::elapsed(
        now,
        monitor.history.last().sampled_at_ms,
    ) > monitor.max_sustain_sample_gap_ms;
    if !(Single { bits: MEAN_ORB_ENTROPY_CRITICAL }).below(h) {
        None
    } else if gap || monitor.critical_since_ms is None {
        Some(now)
    } else {
        monitor.critical_since_ms
    }
}

/// Whether the mean has been critical for long.
pub open spec fn sustained(since: Option<u64>, now: u64) -> bool {
    since matches Some(start) && trust::elapsed(now, start) >= FIELD_ENTROPY_CRITICAL_SUSTAIN_MS
}

/// How freely entities may be created after a sample.
pub open spec fn throttle_after(
    m: Arithmetic,
    monitor: MonitorView,
    h: Single,
    now: u64,
) -> Single {
    let level = Single {
        bits: if (Single { bits: MEAN_ORB_ENTROPY_WARNING }).below(h) {
            CREATION_THROTTLE_WARNING
        } else {
            CREATION_THROTTLE_NORMAL
        },
    };
    let rate = rate_at(m, monitor, h, now);
    if sustained(critical_since(monitor, h, now), now) {
        Single { bits: CREATION_THROTTLE_PAUSED }
    } else if spikes(monitor, rate) || collapses(monitor, rate) {
        level.smaller(Single { bits: CREATION_THROTTLE_SEVERE })
    } else {
        level
    }
}

/// The alerts that a sane sample raises: on the level, on the rate of change and
/// on the duration.
pub open spec fn alerts_of(m: Arithmetic, monitor: MonitorView, h: Single, now: u64) -> Seq<
    EntropyAlert,
> {
    let rate = rate_at(m, monitor, h, now);
    let since = critical_since(monitor, h, now);
    let level = if (Single { bits: MEAN_ORB_ENTROPY_WARNING }).below(h) {
        seq![
            EntropyAlert {
                severity: AlertSeverity::Warning,
                kind: EntropyAlertKind::MeanOrbEntropyHigh {
                    mean_normalized_entropy: h,
                    threshold: Single { bits: MEAN_ORB_ENTROPY_WARNING },
                },
                timestamp_ms: now,
            },
        ]
    } else {
        Seq::empty()
    };
    let motion = if spikes(monitor, rate) {
        seq![
            EntropyAlert {
                severity: AlertSeverity::Critical,
                kind: EntropyAlertKind::EntropySpike {
                    rate: rate->0,
                    threshold: monitor.spike_rate_threshold,
                },
                timestamp_ms: now,
            },
        ]
    } else if collapses(monitor, rate) {
        seq![
            EntropyAlert {
                severity: AlertSeverity::Critical,
                kind: EntropyAlertKind::EntropyCollapse {
                    rate: rate->0,
                    threshold: monitor.spike_rate_threshold,
                },
                timestamp_ms: now,
            },
        ]
    } else {
        Seq::empty()
    };
    let duration = if sustained(since, now) {
        seq![
            EntropyAlert {
                severity: AlertSeverity::Critical,
                kind: EntropyAlertKind::SustainedCriticalEntropy {
                    mean_normalized_entropy: h,
                    sustained_ms: trust::elapsed(now, since->0),
                },
                timestamp_ms: now,
            },
        ]
    } else {
        Seq::empty()
    };
    level + motion + duration
}

/// A monitor with the throttle set.
pub open spec fn throttled(monitor: MonitorView, factor: Single) -> MonitorView {
    MonitorView {
        throttle: sane_share(factor),
        paused: sane_share(factor).at_most(Single { bits: CREATION_THROTTLE_PAUSED }),
        ..monitor
    }
}

/// A history with one more sample; the oldest one goes where it gets too long.
pub open spec fn remembered(
    history: Seq<FieldEntropySnapshot>,
    most: usize,
    snapshot: FieldEntropySnapshot,
) -> Seq<FieldEntropySnapshot> {
    let longer = history.push(snapshot);
    if longer.len() > most {
        longer.drop_first()
    } else {
        longer
    }
}

/// A monitor after a sample, whose mean is made sane first.
pub open spec fn ingested(
    m: Arithmetic,
    monitor: MonitorView,
    snapshot: FieldEntropySnapshot,
) -> MonitorView {
    let sane = sane_snapshot(snapshot);
    let h = sane.mean_normalized_entropy;
    let now = sane.sampled_at_ms;
    let set = throttled(monitor, throttle_after(m, monitor, h, now));
    MonitorView {
        history: remembered(monitor.history, monitor.max_history, sane),
        critical_since_ms: critical_since(monitor, h, now),
        smoothed: Some(smoothed_with(m, monitor, h)),
        ..set
    }
}

/// The newest values first, as many as there are and as the window takes.
pub open spec fn recent(history: Seq<FieldEntropySnapshot>, window: usize) -> Seq<Single> {
    Seq::new(
        if window <= history.len() {
            window as nat
        } else {
            history.len()
        },
        |i: int| history[history.len() - 1 - i].mean_normalized_entropy,
    )
}

/// The alert that a sample raises.
pub open spec fn orb_alert(m: Arithmetic, sample: OrbEntropySample) -> EntropyAlert {
    EntropyAlert {
        severity: AlertSeverity::Warning,
        kind: EntropyAlertKind::OrbEntropyHigh {
            orb_id: sample.orb_id,
            normalized_entropy: share_of(m, sample),
            threshold: Single { bits: ORB_ENTROPY_WARNING_FRACTION },
        },
        timestamp_ms: sample.sampled_at_ms,
    }
}

/// The samples of entities that are to be looked at.
pub open spec fn high_samples(m: Arithmetic, samples: Seq<OrbEntropySample>) -> Seq<
    OrbEntropySample,
> {
    samples.filter(|s: OrbEntropySample| high(m, s))
}

/// The entities that are to be looked at.
pub open spec fn high_ids(m: Arithmetic, samples: Seq<OrbEntropySample>) -> Seq<u128> {
    high_samples(m, samples).map_values(|s: OrbEntropySample| s.orb_id)
}

proof fn lemma_high_step(m: Arithmetic, samples: Seq<OrbEntropySample>, i: int)
    requires
        0 <= i < samples.len(),
    ensures
        high_samples(m, samples.take(i + 1)) == (if high(m, samples[i]) {
            high_samples(m, samples.take(i)).push(samples[i])
        } else {
            high_samples(m, samples.take(i))
        }),
{
    reveal(Seq::filter);
    assert(samples.take(i + 1).drop_last() =~= samples.take(i));
}

// ---------------------------------------------------------------------------
// Coherence
// ---------------------------------------------------------------------------

/// The similarities of a member with those behind it.
pub open spec fn row(measure: Measure, cluster: Seq<u128>, i: int) -> Seq<Single> {
    Seq::new(
        (cluster.len() - i - 1) as nat,
        |k: int| sane_share(measure(cluster[i], cluster[i + 1 + k])),
    )
}

/// The similarities of the first `n` members with those behind them.
pub open spec fn rows(measure: Measure, cluster: Seq<u128>, n: nat) -> Seq<Single>
    decreases n,
{
    if n == 0 {
        Seq::empty()
    } else {
        rows(measure, cluster, (n - 1) as nat) + row(measure, cluster, n - 1)
    }
}

/// The similarities of all pairs of members.
pub open spec fn pairwise(measure: Measure, cluster: Seq<u128>) -> Seq<Single> {
    rows(measure, cluster, cluster.len())
}

/// The smallest of a list of numbers, infinity where there are none.
pub open spec fn weakest(values: Seq<Single>) -> Single
    decreases values.len(),
{
    if values.len() == 0 {
        Single { bits: SINGLE_INFINITY }
    } else {
        weakest(values.drop_last()).smaller(values.last())
    }
}

/// A count as far as a machine integer holds it.
pub open spec fn capped(count: nat) -> u64 {
    if count <= u64::MAX {
        count as u64
    } else {
        u64::MAX
    }
}

/// Whether a group of at least two holds together: on average, and in its
/// weakest pair.
pub open spec fn coherent(
    m: Arithmetic,
    measure: Measure,
    cluster: Seq<u128>,
    min_average: Single,
    min_pair: Single,
) -> bool {
    let pairs = pairwise(measure, cluster);
    cluster.len() >= 2 && min_average.at_most(
        fpu::quotient(m, numeric::total(m, pairs), fpu::single_of(m, capped(pairs.len()))),
    ) && min_pair.at_most(weakest(pairs))
}

proof fn lemma_total_push(m: Arithmetic, values: Seq<Single>, value: Single)
    ensures
        numeric::total(m, values.push(value)) == fpu::sum(m, numeric::total(m, values), value),
        weakest(values.push(value)) == weakest(values).smaller(value),
{
    assert(values.push(value).drop_last() =~= values);
}

proof fn lemma_rows_nonempty(measure: Measure, cluster: Seq<u128>, n: nat)
    requires
        cluster.len() >= 2,
        1 <= n <= cluster.len(),
    ensures
        rows(measure, cluster, n).len() >= 1,
    decreases n,
{
    if n > 1 {
        lemma_rows_nonempty(measure, cluster, (n - 1) as nat);
    } else {
        assert(rows(measure, cluster, 0).len() == 0);
        assert(row(measure, cluster, 0).len() == cluster.len() - 1);
    }
}

fn cluster_coherence<F: Fn(Flop) -> u64, S: Fn(u128, u128) -> Single>(
    fpu: &Fpu<F>,
    cluster: &Vec<u128>,
    min_average_similarity: Single,
    min_pairwise_similarity: Single,
    similarity_fn: &S,
) -> (result: bool)
    requires
        clusters::is_measure(*similarity_fn),
    ensures
        result == coherent(
            fpu@,
            clusters::measure_of(*similarity_fn),
            cluster@,
            min_average_similarity,
            min_pairwise_similarity,
        ),
{
    if cluster.len() < 2 {
        return false;
    }
    let ghost measure = clusters::measure_of(*similarity_fn);
    let ghost mut pairs = Seq::<Single>::empty();
    let mut sum = Single::zero();
    let mut count: u64 = 0;
    let mut weakest_link = Single::from_bits(SINGLE_INFINITY);
    let mut i: usize = 0;
    while i < cluster.len()
        invariant
            i <= cluster@.len(),
            clusters::is_measure(*similarity_fn),
            measure == clusters::measure_of(*similarity_fn),
            pairs == rows(measure, cluster@, i as nat),
            sum == numeric::total(fpu@, pairs),
            count == capped(pairs.len()),
            weakest_link == weakest(pairs),
        decreases cluster@.len() - i,
    {
        let ghost before = pairs;
        let ghost line = row(measure, cluster@, i as int);
        let mut j: usize = i + 1;
        assert(line.take(0) =~= Seq::empty());
        assert(before + line.take(0) =~= before);
        while j < cluster.len()
            invariant
                i < j <= cluster@.len(),
                clusters::is_measure(*similarity_fn),
                measure == clusters::measure_of(*similarity_fn),
                line == row(measure, cluster@, i as int),
                pairs == before + line.take(j - i - 1),
                sum == numeric::total(fpu@, pairs),
                count == capped(pairs.len()),
                weakest_link == weakest(pairs),
            decreases cluster@.len() - j,
        {
            let similarity = sanitize_normalized(ask(similarity_fn, cluster[i], cluster[j]));
            proof {
                lemma_total_push(fpu@, pairs, similarity);
                assert(line.take(j - i) =~= line.take(j - i - 1).push(similarity));
                assert(before + line.take(j - i) =~= pairs.push(similarity));
                pairs = pairs.push(similarity);
            }
            sum = fpu.add(sum, similarity);
            count = count.saturating_add(1);
            weakest_link = weakest_link.min(&similarity);
            j += 1;
        }
        assert(line.take(j - i - 1) =~= line);
        i += 1;
    }
    proof {
        lemma_rows_nonempty(measure, cluster@, cluster@.len());
    }
    count > 0 && min_average_similarity.le(&fpu.div(sum, fpu.from_int(count)))
        && min_pairwise_similarity.le(&weakest_link)
}

impl EntropyMonitor {
    pub fn new() -> (monitor: Self)
        ensures
            monitor@ == fresh_monitor(),
    {
        EntropyMonitor {
            memory: MonitorMemory {
                history: VecDeque::new(),
                max_history: MAX_HISTORY,
                critical_since_ms: None,
                spike_rate_threshold: Single::from_bits(DEFAULT_ENTROPY_SPIKE_RATE),
                min_derivative_interval_ms: MIN_ENTROPY_DERIVATIVE_INTERVAL_MS,
                max_sustain_sample_gap_ms: FIELD_ENTROPY_MAX_SUSTAIN_SAMPLE_GAP_MS,
                ema_alpha: Single::from_bits(DEFAULT_ENTROPY_EMA_ALPHA),
                smoothed_mean_normalized_entropy: None,
            },
            creation_throttle_factor: Single::from_bits(CREATION_THROTTLE_NORMAL),
            orb_creation_paused: false,
        }
    }

    /// Sets the largest rate of change; the usual one where it is no proper one.
    pub fn with_spike_threshold(self, threshold: Single) -> (monitor: Self)
        ensures
            monitor@ == (MonitorView {
                spike_rate_threshold: sane_magnitude(
                    threshold,
                    Single { bits: DEFAULT_ENTROPY_SPIKE_RATE },
                ),
                ..self@
            }),
    {
        let mut monitor = self;
        monitor.memory.spike_rate_threshold = sanitize_non_negative(
            threshold,
            Single::from_bits(DEFAULT_ENTROPY_SPIKE_RATE),
        );
        monitor
    }

    /// Sets the weight of the newest sample.
    pub fn with_ema_alpha(self, alpha: Single) -> (monitor: Self)
        ensures
            monitor@ == (MonitorView { ema_alpha: sane_share(alpha), ..self@ }),
    {
        let mut monitor = self;
        monitor.memory.ema_alpha = sanitize_normalized(alpha);
        monitor
    }

    /// Sets the least time that a rate of change is taken over.
    pub fn with_min_derivative_interval_ms(self, interval_ms: u64) -> (monitor: Self)
        ensures
            monitor@ == (MonitorView {
                min_derivative_interval_ms: if interval_ms >= 1 {
                    interval_ms
                } else {
                    1
                },
                ..self@
            }),
    {
        let mut monitor = self;
        monitor.memory.min_derivative_interval_ms = if interval_ms >= 1 {
            interval_ms
        } else {
            1
        };
        monitor
    }

    /// Sets the largest time between two samples of one critical phase.
    pub fn with_max_sustain_sample_gap_ms(self, gap_ms: u64) -> (monitor: Self)
        ensures
            monitor@ == (MonitorView {
                max_sustain_sample_gap_ms: if gap_ms >= 1 {
                    gap_ms
                } else {
                    1
                },
                ..self@
            }),
    {
        let mut monitor = self;
        monitor.memory.max_sustain_sample_gap_ms = if gap_ms >= 1 {
            gap_ms
        } else {
            1
        };
        monitor
    }

    /// Takes a sample in, and says what is alarming.
    pub fn ingest_snapshot<F: Fn(Flop) -> u64>(
        &mut self,
        fpu: &Fpu<F>,
        snapshot: FieldEntropySnapshot,
    ) -> (alerts: Vec<EntropyAlert>)
        ensures
            final(self)@ == ingested(fpu@, old(self)@, snapshot),
            alerts@ == alerts_of(
                fpu@,
                old(self)@,
                sane_share(snapshot.mean_normalized_entropy),
                snapshot.sampled_at_ms,
            ),
    {
        let ghost before = self@;
        let snapshot = snapshot.sanitized();
        let mut alerts: Vec<EntropyAlert> = Vec::new();
        let now: u64 = snapshot.sampled_at_ms;
        let h = snapshot.mean_normalized_entropy;
        let previous: Option<u64> = if self.memory.history.len() > 0 {
            Some(self.memory.history[self.memory.history.len() - 1].sampled_at_ms)
        } else {
            None
        };
        let warning = Single::from_bits(MEAN_ORB_ENTROPY_WARNING);
        let severe = Single::from_bits(CREATION_THROTTLE_SEVERE);
        let mut throttle = Single::from_bits(CREATION_THROTTLE_NORMAL);
        if warning.lt(&h) {
            throttle = Single::from_bits(CREATION_THROTTLE_WARNING);
            alerts.push(
                EntropyAlert {
                    severity: AlertSeverity::Warning,
                    kind: EntropyAlertKind::MeanOrbEntropyHigh {
                        mean_normalized_entropy: h,
                        threshold: warning,
                    },
                    timestamp_ms: now,
                },
            );
        }
        let ghost level = alerts@;
        let smoothed = match self.memory.smoothed_mean_normalized_entropy {
            Some(mean) => fpu.add(
                fpu.mul(self.memory.ema_alpha, h),
                fpu.mul(fpu.sub(Single::one(), self.memory.ema_alpha), mean),
            ),
            None => h,
        };
        let mut gap_too_large = false;
        if let Some(earlier) = previous {
            let dt: u64 = if now >= earlier {
                now - earlier
            } else {
                0
            };
            gap_too_large = dt > self.memory.max_sustain_sample_gap_ms;
            if let Some(mean) = self.memory.smoothed_mean_normalized_entropy {
                if dt >= self.memory.min_derivative_interval_ms {
                    let rate = fpu.mul(
                        fpu.div(fpu.sub(smoothed, mean), fpu.from_int(dt)),
                        Single::from_bits(MS_PER_SECOND),
                    );
                    assert(rate_at(fpu@, before, h, now) == Some(rate));
                    if self.memory.spike_rate_threshold.lt(&rate) {
                        throttle = throttle.min(&severe);
                        alerts.push(
                            EntropyAlert {
                                severity: AlertSeverity::Critical,
                                kind: EntropyAlertKind::EntropySpike {
                                    rate,
                                    threshold: self.memory.spike_rate_threshold,
                                },
                                timestamp_ms: now,
                            },
                        );
                    } else if rate.lt(&self.memory.spike_rate_threshold.neg()) {
                        throttle = throttle.min(&severe);
                        alerts.push(
                            EntropyAlert {
                                severity: AlertSeverity::Critical,
                                kind: EntropyAlertKind::EntropyCollapse {
                                    rate,
                                    threshold: self.memory.spike_rate_threshold,
                                },
                                timestamp_ms: now,
                            },
                        );
                    }
                }
            }
        }
        if Single::from_bits(MEAN_ORB_ENTROPY_CRITICAL).lt(&h) {
            let since: u64 = match self.memory.critical_since_ms {
                Some(start) if !gap_too_large => start,
                _ => now,
            };
            self.memory.critical_since_ms = Some(since);
            let sustained_ms: u64 = if now >= since {
                now - since
            } else {
                0
            };
            if sustained_ms >= FIELD_ENTROPY_CRITICAL_SUSTAIN_MS {
                throttle = Single::from_bits(CREATION_THROTTLE_PAUSED);
                alerts.push(
                    EntropyAlert {
                        severity: AlertSeverity::Critical,
                        kind: EntropyAlertKind::SustainedCriticalEntropy {
                            mean_normalized_entropy: h,
                            sustained_ms,
                        },
                        timestamp_ms: now,
                    },
                );
            }
        } else {
            self.memory.critical_since_ms = None;
        }
        assert(self.memory.critical_since_ms == critical_since(before, h, now));
        assert(throttle == throttle_after(fpu@, before, h, now));
        assert(alerts@ =~= alerts_of(fpu@, before, h, now));
        self.memory.smoothed_mean_normalized_entropy = Some(smoothed);
        self.set_creation_throttle(throttle);
        self.push_history(snapshot);
        alerts
    }

    /// The alerts on entities that are to be looked at.
    pub fn evaluate_orbs<F: Fn(Flop) -> u64>(
        &self,
        fpu: &Fpu<F>,
        samples: &[OrbEntropySample],
    ) -> (alerts: Vec<EntropyAlert>)
        ensures
            alerts@ == high_samples(fpu@, samples@).map_values(
                |s: OrbEntropySample| orb_alert(fpu@, s),
            ),
    {
        let ghost shape = |s: OrbEntropySample| orb_alert(fpu@, s);
        let mut alerts: Vec<EntropyAlert> = Vec::new();
        let mut i: usize = 0;
        assert(high_samples(fpu@, samples@.take(0)) =~= Seq::empty()) by {
            reveal(Seq::filter);
        }
        while i < samples.len()
            invariant
                i <= samples@.len(),
                shape == (|s: OrbEntropySample| orb_alert(fpu@, s)),
                alerts@ == high_samples(fpu@, samples@.take(i as int)).map_values(shape),
            decreases samples@.len() - i,
        {
            let sample = samples[i];
            proof {
                lemma_high_step(fpu@, samples@, i as int);
            }
            if sample.is_high(fpu) {
                alerts.push(
                    EntropyAlert {
                        severity: AlertSeverity::Warning,
                        kind: EntropyAlertKind::OrbEntropyHigh {
                            orb_id: sample.orb_id,
                            normalized_entropy: sample.normalized(fpu),
                            threshold: Single::from_bits(ORB_ENTROPY_WARNING_FRACTION),
                        },
                        timestamp_ms: sample.sampled_at_ms,
                    },
                );
            }
            assert(alerts@ =~= high_samples(fpu@, samples@.take(i + 1)).map_values(shape));
            i += 1;
        }
        assert(samples@.take(i as int) =~= samples@);
        alerts
    }

    /// The mean of the newest sample.
    pub fn current_mean_orb_entropy(&self) -> (result: Option<Single>)
        ensures
            result == (if self@.history.len() == 0 {
                None
            } else {
                Some(self@.history.last().mean_normalized_entropy)
            }),
    {
        if self.memory.history.len() == 0 {
            None
        } else {
            Some(self.memory.history[self.memory.history.len() - 1].mean_normalized_entropy)
        }
    }

    /// Another name of [`EntropyMonitor::current_mean_orb_entropy`].
    pub fn current_field_entropy(&self) -> (result: Option<Single>)
        ensures
            result == (if self@.history.len() == 0 {
                None
            } else {
                Some(self@.history.last().mean_normalized_entropy)
            }),
    {
        self.current_mean_orb_entropy()
    }

    /// The mean of the newest samples, as many as the window takes.
    pub fn smoothed_entropy<F: Fn(Flop) -> u64>(&self, fpu: &Fpu<F>, window: usize) -> (result:
        Option<Single>)
        ensures
            result == (if self@.history.len() == 0 || window == 0 {
                None
            } else {
                let values = recent(self@.history, window);
                Some(
                    fpu::quotient(
                        fpu@,
                        numeric::total(fpu@, values),
                        fpu::single_of(fpu@, values.len() as u64),
                    ),
                )
            }),
            averages_history(fpu@, self@.history, window, result),
    {
        proof {
            lemma_history_mean(fpu@, self@.history, window);
        }
        let length: usize = self.memory.history.len();
        if length == 0 || window == 0 {
            return None;
        }
        let ghost values = recent(self@.history, window);
        let mut sum = Single::zero();
        let mut count: usize = 0;
        while count < window && count < length
            invariant
                length == self.memory.history@.len(),
                values == recent(self@.history, window),
                count <= window,
                count <= length,
                sum == numeric::total(fpu@, values.take(count as int)),
            decreases window - count,
        {
            proof {
                numeric::lemma_total_step(fpu@, values, count as int);
            }
            sum = fpu.add(sum, self.memory.history[length - 1 - count].mean_normalized_entropy);
            count += 1;
        }
        assert(values.take(count as int) =~= values);
        Some(fpu.div(sum, fpu.from_int(count as u64)))
    }

    fn high_candidates<F: Fn(Flop) -> u64>(fpu: &Fpu<F>, samples: &[OrbEntropySample]) -> (ids: Vec<
        u128,
    >)
        ensures
            ids@ == high_ids(fpu@, samples@),
    {
        let mut ids: Vec<u128> = Vec::new();
        let mut i: usize = 0;
        assert(high_samples(fpu@, samples@.take(0)) =~= Seq::empty()) by {
            reveal(Seq::filter);
        }
        while i < samples.len()
            invariant
                i <= samples@.len(),
                ids@ == high_ids(fpu@, samples@.take(i as int)),
            decreases samples@.len() - i,
        {
            proof {
                lemma_high_step(fpu@, samples@, i as int);
            }
            if samples[i].is_high(fpu) {
                ids.push(samples[i].orb_id);
            }
            assert(ids@ =~= high_ids(fpu@, samples@.take(i + 1)));
            i += 1;
        }
        assert(samples@.take(i as int) =~= samples@);
        ids
    }

    /// Groups of entities that are to be looked at and might be merged: those
    /// that are similar, directly or by way of others.
    pub fn consolidation_candidates<F: Fn(Flop) -> u64, S: Fn(u128, u128) -> Single>(
        &self,
        fpu: &Fpu<F>,
        high_entropy_orbs: &[OrbEntropySample],
        similarity_threshold: Single,
        similarity_fn: S,
    ) -> (result: Vec<Vec<u128>>)
        requires
            clusters::is_measure(similarity_fn),
        ensures
            clusters::lists_of(result@) == clusters::groups_of(
                clusters::measure_of(similarity_fn),
                similarity_threshold,
                high_ids(fpu@, high_entropy_orbs@),
            ),
    {
        let candidates = EntropyMonitor::high_candidates(fpu, high_entropy_orbs);
        connected_similarity_components(&candidates, similarity_threshold, &similarity_fn)
    }

    /// Of those groups, the ones that hold together on average and in their
    /// weakest pair.
    pub fn consolidation_candidates_with_coherence<
        F: Fn(Flop) -> u64,
        S: Fn(u128, u128) -> Single,
    >(
        &self,
        fpu: &Fpu<F>,
        high_entropy_orbs: &[OrbEntropySample],
        edge_similarity_threshold: Single,
        min_average_similarity: Single,
        min_pairwise_similarity: Single,
        similarity_fn: S,
    ) -> (result: Vec<Vec<u128>>)
        requires
            clusters::is_measure(similarity_fn),
        ensures
            clusters::lists_of(result@) == coherent_groups(
                fpu@,
                clusters::measure_of(similarity_fn),
                clusters::groups_of(
                    clusters::measure_of(similarity_fn),
                    edge_similarity_threshold,
                    high_ids(fpu@, high_entropy_orbs@),
                ),
                sane_share(min_average_similarity),
                sane_share(min_pairwise_similarity),
            ),
    {
        let candidates = EntropyMonitor::high_candidates(fpu, high_entropy_orbs);
        let groups = connected_similarity_components(
            &candidates,
            edge_similarity_threshold,
            &similarity_fn,
        );
        let min_average = sanitize_normalized(min_average_similarity);
        let min_pair = sanitize_normalized(min_pairwise_similarity);
        let ghost measure = clusters::measure_of(similarity_fn);
        let ghost all = clusters::lists_of(groups@);
        let mut result: Vec<Vec<u128>> = Vec::new();
        let mut i: usize = 0;
        assert(clusters::lists_of(result@) =~= coherent_groups(
            fpu@,
            measure,
            all.take(0),
            min_average,
            min_pair,
        )) by {
            reveal(Seq::filter);
        }
        while i < groups.len()
            invariant
                i <= groups@.len(),
                clusters::is_measure(similarity_fn),
                measure == clusters::measure_of(similarity_fn),
                all == clusters::lists_of(groups@),
                clusters::lists_of(result@) == coherent_groups(
                    fpu@,
                    measure,
                    all.take(i as int),
                    min_average,
                    min_pair,
                ),
            decreases groups@.len() - i,
        {
            proof {
                lemma_coherent_step(fpu@, measure, all, min_average, min_pair, i as int);
            }
            let ghost before = result@;
            if cluster_coherence(fpu, &groups[i], min_average, min_pair, &similarity_fn) {
                let group = groups[i].clone();
                assert(group@ =~= groups@[i as int]@);
                result.push(group);
                assert(clusters::lists_of(result@) =~= clusters::lists_of(before).push(all[i as int]));
            }
            i += 1;
        }
        assert(all.take(i as int) =~= all);
        result
    }

    fn set_creation_throttle(&mut self, factor: Single)
        ensures
            final(self)@ == throttled(old(self)@, factor),
    {
        let sane = sanitize_normalized(factor);
        self.creation_throttle_factor = sane;
        self.orb_creation_paused = sane.le(&Single::from_bits(CREATION_THROTTLE_PAUSED));
    }

    fn push_history(&mut self, snapshot: FieldEntropySnapshot)
        ensures
            final(self)@ == (MonitorView {
                history: remembered(old(self)@.history, old(self)@.max_history, snapshot),
                ..old(self)@
            }),
    {
        self.memory.history.push_back(snapshot);
        if self.memory.history.len() > self.memory.max_history {
            self.memory.history.pop_front();
        }
        assert(self.memory.history@ =~= remembered(
            old(self)@.history,
            old(self)@.max_history,
            snapshot,
        ));
    }
}

/// The groups that hold together.
pub open spec fn coherent_groups(
    m: Arithmetic,
    measure: Measure,
    groups: Seq<Seq<u128>>,
    min_average: Single,
    min_pair: Single,
) -> Seq<Seq<u128>> {
    groups.filter(|group: Seq<u128>| coherent(m, measure, group, min_average, min_pair))
}

proof fn lemma_coherent_step(
    m: Arithmetic,
    measure: Measure,
    groups: Seq<Seq<u128>>,
    min_average: Single,
    min_pair: Single,
    i: int,
)
    requires
        0 <= i < groups.len(),
    ensures
        coherent_groups(m, measure, groups.take(i + 1), min_average, min_pair) == (if coherent(
            m,
            measure,
            groups[i],
            min_average,
            min_pair,
        ) {
            coherent_groups(m, measure, groups.take(i), min_average, min_pair).push(groups[i])
        } else {
            coherent_groups(m, measure, groups.take(i), min_average, min_pair)
        }),
{
    reveal(Seq::filter);
    assert(groups.take(i + 1).drop_last() =~= groups.take(i));
}

impl Default for EntropyMonitor {
    fn default() -> (monitor: Self)
        ensures
            monitor@ == fresh_monitor(),
    {
        EntropyMonitor::new()
    }
}

// ---------------------------------------------------------------------------
// Laws
// ---------------------------------------------------------------------------

/// A monitor whose history is bounded and sane, and whose throttle says that
/// creation is paused exactly where it lets nothing through.
pub open spec fn healthy(monitor: MonitorView) -> bool {
    &&& monitor.history.len() <= monitor.max_history
    &&& forall|i: int|
        0 <= i < monitor.history.len() ==> (Single { bits: 0 }).at_most(
            (#[trigger] monitor.history[i]).mean_normalized_entropy,
        ) && monitor.history[i].mean_normalized_entropy.at_most(Single { bits: SINGLE_ONE })
    &&& (Single { bits: 0 }).at_most(monitor.throttle)
    &&& monitor.throttle.at_most(Single { bits: SINGLE_ONE })
    &&& monitor.paused == monitor.throttle.at_most(Single { bits: CREATION_THROTTLE_PAUSED })
}

/// A monitor is healthy from the start and stays so whatever it takes in:
/// malformed samples do not get into the history.
pub proof fn monitors_stay_healthy(
    m: Arithmetic,
    monitor: MonitorView,
    snapshot: FieldEntropySnapshot,
)
    requires
        healthy(monitor),
    ensures
        healthy(fresh_monitor()),
        healthy(ingested(m, monitor, snapshot)),
        ingested(m, monitor, snapshot).max_history == monitor.max_history,
{
    let after = ingested(m, monitor, snapshot);
    let sane = sane_snapshot(snapshot);
    let longer = monitor.history.push(sane);
    assert forall|i: int| 0 <= i < after.history.len() implies (Single { bits: 0 }).at_most(
        (#[trigger] after.history[i]).mean_normalized_entropy,
    ) && after.history[i].mean_normalized_entropy.at_most(Single { bits: SINGLE_ONE }) by {
        let k = if longer.len() > monitor.max_history {
            i + 1
        } else {
            i
        };
        assert(after.history[i] == longer[k]);
        if k < monitor.history.len() {
            assert(longer[k] == monitor.history[k]);
        }
    }
}

/// Creation is paused exactly where the mean has been critical for long enough,
/// and a mean that is not critical ends the count.
pub proof fn pause_means_sustained(
    m: Arithmetic,
    monitor: MonitorView,
    snapshot: FieldEntropySnapshot,
)
    ensures
        ({
            let h = sane_share(snapshot.mean_normalized_entropy);
            let now = snapshot.sampled_at_ms;
            let after = ingested(m, monitor, snapshot);
            &&& after.paused <==> sustained(critical_since(monitor, h, now), now)
            &&& !(Single { bits: MEAN_ORB_ENTROPY_CRITICAL }).below(h)
                ==> after.critical_since_ms is None && !after.paused
        }),
{
}

/// The mean has been critical since the time that the monitor says: a sample
/// that is not critical, or that comes too late after the one before it, is never
/// skipped over.
pub proof fn critical_phases_have_no_gaps(
    m: Arithmetic,
    monitor: MonitorView,
    snapshot: FieldEntropySnapshot,
)
    ensures
        ({
            let now = snapshot.sampled_at_ms;
            let after = ingested(m, monitor, snapshot);
            after.critical_since_ms is Some ==> after.critical_since_ms == Some(now) || (
            after.critical_since_ms == monitor.critical_since_ms && (monitor.history.len() > 0
                ==> trust::elapsed(now, monitor.history.last().sampled_at_ms)
                <= monitor.max_sustain_sample_gap_ms))
        }),
{
}

/// Whether all of these lie between zero and one.
pub open spec fn all_in_unit(values: Seq<Single>) -> bool {
    forall|i: int| 0 <= i < values.len() ==> (#[trigger] values[i]).in_unit()
}

/// The means of so many samples from the end of a history.
pub open spec fn last_means(history: Seq<FieldEntropySnapshot>, n: nat) -> Seq<Single> {
    Seq::new(n, |i: int| history[history.len() - 1 - i].mean_normalized_entropy)
}

/// Whether a result is the mean of the newest samples, as many as the window takes: it lies
/// close to their exact sum, divided by their number.
pub open spec fn averages_history(
    m: Arithmetic,
    history: Seq<FieldEntropySnapshot>,
    window: usize,
    result: Option<Single>,
) -> bool {
    let n: nat = if window <= history.len() {
        window as nat
    } else {
        history.len()
    };
    let newest = last_means(history, n);
    &&& n == 0 <==> result is None
    &&& result matches Some(mean) ==> (rounding::rounds(m) && doubles::rounds_wide(m)
        && rounding::countable(n) && all_in_unit(newest) ==> mean.finite() && rounding::size(
        rounding::value(mean) - rounding::plus(newest) / (n as real),
    ) <= doubles::mean_error(n))
}

proof fn lemma_history_mean(m: Arithmetic, history: Seq<FieldEntropySnapshot>, window: usize)
    ensures
        averages_history(
            m,
            history,
            window,
            if history.len() == 0 || window == 0 {
                None
            } else {
                Some(
                    fpu::quotient(
                        m,
                        numeric::total(m, recent(history, window)),
                        fpu::single_of(m, recent(history, window).len() as u64),
                    ),
                )
            },
        ),
{
    let newest = recent(history, window);
    assert(newest =~= last_means(history, newest.len()));
    if rounding::rounds(m) && doubles::rounds_wide(m) && rounding::countable(newest.len())
        && all_in_unit(newest) && newest.len() > 0 {
        assert forall|i: int| 0 <= i < newest.len() implies (#[trigger] newest[i]).finite()
            && 0 as real <= rounding::value(newest[i]) <= 1 as real by {
            assert(newest[i].in_unit());
            lemma_unit_value(newest[i]);
        }
        doubles::lemma_mean(m, newest);
    }
}

proof fn lemma_unit_value(x: Single)
    requires
        x.in_unit(),
    ensures
        x.finite(),
        0 as real <= rounding::value(x) <= 1 as real,
{
    rounding::lemma_constants();
    rounding::lemma_values_are_ordered(Single { bits: 0 }, x);
    rounding::lemma_values_are_ordered(x, Single { bits: SINGLE_ONE });
}

/// The moving average lies between the newest value and the average before it, as far from
/// the latter as the weight says: it is the weight times the value and the rest times the
/// average, but for rounding. The first value is the average.
pub proof fn averages_move_towards_samples(m: Arithmetic, monitor: MonitorView, h: Single)
    requires
        rounding::rounds(m),
        h.in_unit(),
        monitor.ema_alpha.in_unit(),
        monitor.smoothed matches Some(before) ==> before.finite() && rounding::size(
            rounding::value(before),
        ) <= 2 as real,
    ensures
        monitor.smoothed is None ==> smoothed_with(m, monitor, h) == h,
        monitor.smoothed matches Some(before) ==> {
            let a = rounding::value(monitor.ema_alpha);
            let exact = rounding::value(before) + a * (rounding::value(h) - rounding::value(
                before,
            ));
            &&& smoothed_with(m, monitor, h).finite()
            &&& rounding::size(rounding::value(smoothed_with(m, monitor, h)) - exact) <= 1 as real
                / 1000000 as real
        },
{
    if let Some(before) = monitor.smoothed {
        rounding::lemma_constants();
        rounding::lemma_extremes();
        lemma_unit_value(h);
        lemma_unit_value(monitor.ema_alpha);
        let u = rounding::slip();
        let t = rounding::speck();
        let (a, x, b) = (
            rounding::value(monitor.ema_alpha),
            rounding::value(h),
            rounding::value(before),
        );
        let one = Single { bits: SINGLE_ONE };
        let ax = a * x;
        assert(0 as real <= ax <= 1 as real) by (nonlinear_arith)
            requires
                ax == a * x,
                0 as real <= a <= 1 as real,
                0 as real <= x <= 1 as real,
        ;
        let p = fpu::product(m, monitor.ema_alpha, h);
        assert(rounding::rounded(p, ax, t));
        let rest = fpu::difference(m, one, monitor.ema_alpha);
        assert(rounding::rounded(rest, 1 as real - a, 0 as real));
        let r = rounding::value(rest);
        let c = 1 as real - a;
        assert(u * ax <= 1 as real / 16000000 as real && u * c <= 1 as real / 16000000 as real) by (
            nonlinear_arith)
            requires
                u == 1 as real / 16777216 as real,
                0 as real <= ax <= 1 as real,
                0 as real <= c <= 1 as real,
        ;
        let rb = r * b;
        let cb = c * b;
        assert(-(2 as real / 16000000 as real) <= rb - cb <= 2 as real / 16000000 as real) by (
            nonlinear_arith)
            requires
                rb == r * b,
                cb == c * b,
                -(1 as real / 16000000 as real) <= r - c <= 1 as real / 16000000 as real,
                -(2 as real) <= b <= 2 as real,
        ;
        assert(-(2 as real) <= cb <= 2 as real) by (nonlinear_arith)
            requires
                cb == c * b,
                0 as real <= c <= 1 as real,
                -(2 as real) <= b <= 2 as real,
        ;
        let q = fpu::product(m, rest, before);
        assert(rounding::rounded(q, rb, t));
        let srb = rounding::size(rb);
        assert(u * srb <= 3 as real / 16000000 as real) by (nonlinear_arith)
            requires
                u == 1 as real / 16777216 as real,
                0 as real <= srb <= 3 as real,
        ;
        let (pv, qv) = (rounding::value(p), rounding::value(q));
        let s = fpu::sum(m, p, q);
        assert(rounding::rounded(s, pv + qv, 0 as real));
        let sv = rounding::size(pv + qv);
        assert(u * sv <= 5 as real / 16000000 as real) by (nonlinear_arith)
            requires
                u == 1 as real / 16777216 as real,
                0 as real <= sv <= 5 as real,
        ;
        assert(b + a * (x - b) == ax + cb) by (nonlinear_arith)
            requires
                ax == a * x,
                cb == (1 as real - a) * b,
        ;
    }
}

/// The rate of change is how much the average changed per second: times the milliseconds
/// that went by, it is a thousand times the change, but for rounding. There is one where
/// there are a sample and an average before, and enough time went by.
pub proof fn rates_are_changes_per_second(m: Arithmetic, monitor: MonitorView, h: Single, now: u64)
    requires
        rounding::rounds(m),
        doubles::rounds_wide(m),
    ensures
        ({
            let since: int = if monitor.history.len() > 0 && now
                >= monitor.history.last().sampled_at_ms {
                now - monitor.history.last().sampled_at_ms
            } else {
                0
            };
            let next = smoothed_with(m, monitor, h);
            &&& rate_at(m, monitor, h, now) is Some <==> monitor.history.len() > 0
                && monitor.smoothed is Some && since >= monitor.min_derivative_interval_ms
            &&& rate_at(m, monitor, h, now) matches Some(rate) ==> (since > 0 && next.finite()
                && rounding::size(rounding::value(next)) <= 1000 as real
                && monitor.smoothed->0.finite() && rounding::size(
                rounding::value(monitor.smoothed->0),
            ) <= 1000 as real ==> {
                let change = rounding::value(next) - rounding::value(monitor.smoothed->0);
                &&& rate.finite()
                &&& rounding::size(rounding::value(rate) * (since as real) - 1000 as real * change)
                    <= rounding::size(change) / 1000 as real + 1 as real / 1000000 as real
            })
        }),
{
    let since: int = if monitor.history.len() > 0 && now >= monitor.history.last().sampled_at_ms {
        now - monitor.history.last().sampled_at_ms
    } else {
        0
    };
    let next = smoothed_with(m, monitor, h);
    if rate_at(m, monitor, h, now) is Some && since > 0 && next.finite() && rounding::size(
        rounding::value(next),
    ) <= 1000 as real && monitor.smoothed->0.finite() && rounding::size(
        rounding::value(monitor.smoothed->0),
    ) <= 1000 as real {
        lemma_rate(m, next, monitor.smoothed->0, since as u64);
    }
}

proof fn lemma_rate(m: Arithmetic, next: Single, before: Single, dt: u64)
    requires
        rounding::rounds(m),
        doubles::rounds_wide(m),
        dt > 0,
        next.finite() && rounding::size(rounding::value(next)) <= 1000 as real,
        before.finite() && rounding::size(rounding::value(before)) <= 1000 as real,
    ensures
        ({
            let rate = fpu::product(
                m,
                fpu::quotient(m, fpu::difference(m, next, before), fpu::single_of(m, dt)),
                Single { bits: MS_PER_SECOND },
            );
            let change = rounding::value(next) - rounding::value(before);
            &&& rate.finite()
            &&& rounding::size(rounding::value(rate) * (dt as real) - 1000 as real * change)
                <= rounding::size(change) / 1000 as real + 1 as real / 1000000 as real
        }),
{
    rounding::lemma_extremes();
    rounding::lemma_thousand();
    let u = rounding::slip();
    let t = rounding::speck();
    let change = rounding::value(next) - rounding::value(before);
    let k = rounding::size(change);
    let gap = fpu::difference(m, next, before);
    assert(rounding::rounded(gap, change, 0 as real));
    let g = rounding::value(gap);
    assert(u * k == k / 16777216 as real) by (nonlinear_arith)
        requires
            u == 1 as real / 16777216 as real,
    ;
    let n = dt as real;
    doubles::lemma_shared_out(m, gap, g, 0 as real, dt);
    let quotient = fpu::quotient(m, gap, fpu::single_of(m, dt));
    let q = rounding::value(quotient);
    let sg = rounding::size(g);
    let e = (2 as real * 0 as real + 4 as real * u * sg) / n + t;
    let d = q - g / n;
    assert(q * n == g + d * n) by (nonlinear_arith)
        requires
            d == q - g / n,
            n > 0 as real,
    ;
    let en = e * n;
    assert(en == 4 as real * u * sg + t * n) by (nonlinear_arith)
        requires
            en == e * n,
            e == (2 as real * 0 as real + 4 as real * u * sg) / n + t,
            n > 0 as real,
    ;
    assert(-en <= d * n <= en) by (nonlinear_arith)
        requires
            -e <= d <= e,
            en == e * n,
            n > 0 as real,
    ;
    assert(4 as real * u * sg == sg / 4194304 as real) by (nonlinear_arith)
        requires
            u == 1 as real / 16777216 as real,
    ;
    assert(t * n <= 1 as real / 100000000000 as real) by (nonlinear_arith)
        requires
            0 as real <= t,
            t * 10000000000000000000000000000000000000000 as real <= 1 as real,
            0 as real <= n <= 18446744073709551615 as real,
    ;
    assert(-(3000 as real) <= q <= 3000 as real) by (nonlinear_arith)
        requires
            -(2500 as real) <= q * n <= 2500 as real,
            n >= 1 as real,
    ;
    let thousand = Single { bits: MS_PER_SECOND };
    let exact = q * 1000 as real;
    let rate = fpu::product(m, quotient, thousand);
    assert(rounding::value(quotient) * rounding::value(thousand) == exact);
    assert(rounding::rounded(rate, exact, t));
    let r = rounding::value(rate);
    let se = rounding::size(exact);
    let f = r - exact;
    assert(u * se == se / 16777216 as real) by (nonlinear_arith)
        requires
            u == 1 as real / 16777216 as real,
    ;
    let sen = se * n;
    let qn = q * n;
    assert(sen == 1000 as real * rounding::size(qn)) by (nonlinear_arith)
        requires
            sen == se * n,
            qn == q * n,
            se == (if q * (1000 as real) < 0 as real {
                -(q * 1000 as real)
            } else {
                q * 1000 as real
            }),
            rounding::size(qn) == (if qn < 0 as real {
                -qn
            } else {
                qn
            }),
            n > 0 as real,
    ;
    assert(-(sen / 16777216 as real + t * n) <= f * n <= sen / 16777216 as real + t * n) by (
        nonlinear_arith)
        requires
            -(se / 16777216 as real + t) <= f <= se / 16777216 as real + t,
            sen == se * n,
            n > 0 as real,
    ;
    assert(r * n == 1000 as real * qn + f * n) by (nonlinear_arith)
        requires
            f == r - q * 1000 as real,
            qn == q * n,
    ;
}

/// Whether a share is the similarity of two members of a group.
spec fn of_some_pair(measure: Measure, cluster: Seq<u128>, share: Single) -> bool {
    exists|i: int, j: int|
        0 <= i < j < cluster.len() && share == sane_share(
            #[trigger] measure(cluster[i], cluster[j]),
        )
}

/// What is in the rows of a group: the similarities of its first members with those behind
/// them, each one once.
proof fn lemma_rows(measure: Measure, cluster: Seq<u128>, n: nat)
    requires
        n <= cluster.len(),
    ensures
        2 * rows(measure, cluster, n).len() == n * (2 * cluster.len() - n - 1),
        forall|i: int, j: int|
            0 <= i < n && i < j < cluster.len() ==> rows(measure, cluster, n).contains(
                sane_share(#[trigger] measure(cluster[i], cluster[j])),
            ),
        forall|k: int|
            0 <= k < rows(measure, cluster, n).len() ==> of_some_pair(
                measure,
                cluster,
                #[trigger] rows(measure, cluster, n)[k],
            ),
    decreases n,
{
    if n > 0 {
        let earlier = rows(measure, cluster, (n - 1) as nat);
        let last = row(measure, cluster, n - 1);
        let all = rows(measure, cluster, n);
        lemma_rows(measure, cluster, (n - 1) as nat);
        let c = cluster.len() as int;
        assert(2 * (c - n) + (n - 1) * (2 * c - (n - 1) - 1) == n * (2 * c - n - 1)) by (
            nonlinear_arith);
        assert forall|i: int, j: int| 0 <= i < n && i < j < cluster.len() implies all.contains(
            sane_share(#[trigger] measure(cluster[i], cluster[j])),
        ) by {
            let share = sane_share(measure(cluster[i], cluster[j]));
            if i < n - 1 {
                assert(earlier.contains(share));
                let k = choose|k: int| 0 <= k < earlier.len() && earlier[k] == share;
                assert(all[k] == share);
            } else {
                assert(last[j - i - 1] == share);
                assert(all[earlier.len() + (j - i - 1)] == share);
            }
        }
        assert forall|k: int| 0 <= k < all.len() implies of_some_pair(
            measure,
            cluster,
            #[trigger] all[k],
        ) by {
            if k < earlier.len() {
                assert(all[k] == earlier[k]);
                assert(of_some_pair(measure, cluster, earlier[k]));
            } else {
                let j = n + (k - earlier.len());
                assert(all[k] == last[k - earlier.len()]);
                assert(all[k] == sane_share(measure(cluster[n - 1], cluster[j])));
            }
        }
    }
}

proof fn lemma_weakest(values: Seq<Single>, least: Single)
    requires
        forall|i: int| 0 <= i < values.len() ==> !(#[trigger] values[i]).nan(),
    ensures
        !weakest(values).nan(),
        values.len() > 0 ==> (least.at_most(weakest(values)) <==> forall|i: int|
            0 <= i < values.len() ==> least.at_most(#[trigger] values[i])),
        forall|i: int| 0 <= i < values.len() ==> weakest(values).at_most(#[trigger] values[i]),
        values.len() > 0 ==> weakest(values).rank() <= values.last().rank(),
    decreases values.len(),
{
    if values.len() > 0 {
        let shorter = values.drop_last();
        assert forall|i: int| 0 <= i < shorter.len() implies !(#[trigger] shorter[i]).nan() by {
            assert(shorter[i] == values[i]);
        }
        lemma_weakest(shorter, least);
        let last = values[values.len() - 1];
        assert(!last.nan());
        assert forall|i: int| 0 <= i < values.len() implies weakest(values).at_most(
            #[trigger] values[i],
        ) by {
            if i < shorter.len() {
                assert(shorter[i] == values[i]);
            }
        }
        if least.at_most(weakest(values)) {
            assert forall|i: int| 0 <= i < values.len() implies least.at_most(
                #[trigger] values[i],
            ) by {
                assert(weakest(values).at_most(values[i]));
            }
        }
        if forall|i: int| 0 <= i < values.len() ==> least.at_most(#[trigger] values[i]) {
            assert forall|i: int| 0 <= i < shorter.len() implies least.at_most(
                #[trigger] shorter[i],
            ) by {
                assert(shorter[i] == values[i]);
            }
            assert(least.at_most(last));
            if shorter.len() == 0 {
                assert(weakest(shorter) == (Single { bits: SINGLE_INFINITY }));
            }
        }
    }
}

/// A group is judged by all of its pairs. Each pair counts once; where the group holds
/// together, no pair is weaker than the least one allowed, and the exact mean is no less
/// than the least one allowed, but for rounding. Where no pair is too weak and the mean is
/// high enough, it holds together.
pub proof fn coherence_looks_at_every_pair(
    m: Arithmetic,
    measure: Measure,
    cluster: Seq<u128>,
    min_average: Single,
    min_pair: Single,
)
    requires
        rounding::rounds(m),
        doubles::rounds_wide(m),
        cluster.len() >= 2,
        rounding::countable(pairwise(measure, cluster).len()),
        min_average.finite(),
    ensures
        ({
            let pairs = pairwise(measure, cluster);
            let mean = rounding::plus(pairs) / (pairs.len() as real);
            let strong = forall|i: int, j: int|
                0 <= i < j < cluster.len() ==> min_pair.at_most(
                    sane_share(#[trigger] measure(cluster[i], cluster[j])),
                );
            &&& 2 * pairs.len() == cluster.len() * (cluster.len() - 1)
            &&& forall|i: int, j: int|
                0 <= i < j < cluster.len() ==> pairs.contains(
                    sane_share(#[trigger] measure(cluster[i], cluster[j])),
                )
            &&& coherent(m, measure, cluster, min_average, min_pair) ==> strong && mean
                >= rounding::value(min_average) - doubles::mean_error(pairs.len())
            &&& strong && mean >= rounding::value(min_average) + doubles::mean_error(pairs.len())
                ==> coherent(m, measure, cluster, min_average, min_pair)
        }),
{
    rounding::lemma_constants();
    let pairs = pairwise(measure, cluster);
    lemma_rows(measure, cluster, cluster.len());
    let c = cluster.len() as int;
    assert(c * (2 * c - c - 1) == c * (c - 1)) by (nonlinear_arith);
    assert(c * (c - 1) >= 2) by (nonlinear_arith)
        requires
            c >= 2,
    ;
    assert forall|k: int| 0 <= k < pairs.len() implies (#[trigger] pairs[k]).finite() && 0 as real
        <= rounding::value(pairs[k]) <= 1 as real by {
        assert(of_some_pair(measure, cluster, pairs[k]));
        let (i, j) = choose|i: int, j: int|
            0 <= i < j < cluster.len() && pairs[k] == sane_share(
                #[trigger] measure(cluster[i], cluster[j]),
            );
        let x = measure(cluster[i], cluster[j]);
        if x.finite() {
            rounding::lemma_clamped(x, Single { bits: 0 }, Single { bits: SINGLE_ONE });
        }
    }
    doubles::lemma_mean(m, pairs);
    lemma_weakest(pairs, min_pair);
    let mean = fpu::quotient(m, numeric::total(m, pairs), fpu::single_of(m, pairs.len() as u64));
    rounding::lemma_values_are_ordered(min_average, mean);
    let strong = forall|i: int, j: int|
        0 <= i < j < cluster.len() ==> min_pair.at_most(
            sane_share(#[trigger] measure(cluster[i], cluster[j])),
        );
    if min_pair.at_most(weakest(pairs)) {
        assert forall|i: int, j: int| 0 <= i < j < cluster.len() implies min_pair.at_most(
            sane_share(#[trigger] measure(cluster[i], cluster[j])),
        ) by {
            let share = sane_share(measure(cluster[i], cluster[j]));
            assert(pairs.contains(share));
            let k = choose|k: int| 0 <= k < pairs.len() && pairs[k] == share;
            assert(min_pair.at_most(pairs[k]));
        }
    }
    if strong {
        assert forall|k: int| 0 <= k < pairs.len() implies min_pair.at_most(#[trigger] pairs[k]) by {
            assert(of_some_pair(measure, cluster, pairs[k]));
            let (i, j) = choose|i: int, j: int|
                0 <= i < j < cluster.len() && pairs[k] == sane_share(
                    #[trigger] measure(cluster[i], cluster[j]),
                );
            assert(min_pair.at_most(sane_share(measure(cluster[i], cluster[j]))));
        }
    }
}

/// Whether an alert of a kind is among these.
pub open spec fn raised(alerts: Seq<EntropyAlert>, kind: EntropyAlertKind) -> bool {
    exists|i: int| 0 <= i < alerts.len() && (#[trigger] alerts[i]).kind == kind
}

/// Alerts say what is wrong. The mean is high where it is above `0.6`. It spikes where it
/// rises faster than the monitor allows, and collapses where it falls faster than that. It
/// is critical for long where it is above `0.85` and has been so for ten minutes. There are
/// no other alerts, each has the time of the sample, and only that on the mean is a warning.
pub proof fn alerts_say_what_is_wrong(m: Arithmetic, monitor: MonitorView, h: Single, now: u64)
    ensures
        ({
            let alerts = alerts_of(m, monitor, h, now);
            let rate = rate_at(m, monitor, h, now);
            let limit = monitor.spike_rate_threshold;
            let since = critical_since(monitor, h, now);
            let high = EntropyAlertKind::MeanOrbEntropyHigh {
                mean_normalized_entropy: h,
                threshold: Single { bits: 0x3F19_999A },
            };
            let spike = EntropyAlertKind::EntropySpike { rate: rate->0, threshold: limit };
            let collapse = EntropyAlertKind::EntropyCollapse { rate: rate->0, threshold: limit };
            let long = EntropyAlertKind::SustainedCriticalEntropy {
                mean_normalized_entropy: h,
                sustained_ms: (now - since->0) as u64,
            };
            &&& (Single { bits: 0x3F19_999A }).below(h) <==> raised(alerts, high)
            &&& (rate is Some && limit.below(rate->0)) <==> raised(alerts, spike)
            &&& (rate is Some && !limit.below(rate->0) && rate->0.below(limit.negated())) <==> raised(
                alerts,
                collapse,
            )
            &&& ((Single { bits: 0x3F59_999A }).below(h) && since is Some && now - since->0 >= 600000)
                ==> raised(alerts, long)
            &&& forall|i: int|
                0 <= i < alerts.len() ==> {
                    let alert = #[trigger] alerts[i];
                    &&& alert.timestamp_ms == now
                    &&& alert.kind == high || alert.kind == spike || alert.kind == collapse || (
                    alert.kind == long && since is Some && now - since->0 >= 600000)
                    &&& alert.severity == AlertSeverity::Warning <==> alert.kind == high
                }
        }),
{
    let alerts = alerts_of(m, monitor, h, now);
    let rate = rate_at(m, monitor, h, now);
    let since = critical_since(monitor, h, now);
    let limit = monitor.spike_rate_threshold;
    let a: int = if (Single { bits: MEAN_ORB_ENTROPY_WARNING }).below(h) {
        1
    } else {
        0
    };
    let b: int = if spikes(monitor, rate) || collapses(monitor, rate) {
        1
    } else {
        0
    };
    if a == 1 {
        assert(alerts[0].kind == (EntropyAlertKind::MeanOrbEntropyHigh {
            mean_normalized_entropy: h,
            threshold: Single { bits: 0x3F19_999A },
        }));
    }
    if spikes(monitor, rate) {
        assert(alerts[a].kind == (EntropyAlertKind::EntropySpike {
            rate: rate->0,
            threshold: limit,
        }));
    }
    if collapses(monitor, rate) {
        assert(alerts[a].kind == (EntropyAlertKind::EntropyCollapse {
            rate: rate->0,
            threshold: limit,
        }));
    }
    if sustained(since, now) {
        assert(alerts[a + b].kind == (EntropyAlertKind::SustainedCriticalEntropy {
            mean_normalized_entropy: h,
            sustained_ms: (now - since->0) as u64,
        }));
    }
}

/// How freely entities may be created follows what is wrong: not at all where the mean has
/// been critical for long, at most `0.3` where it spikes or collapses, `0.7` where it is only
/// high, and freely where nothing is wrong.
pub proof fn throttles_follow_what_is_wrong(
    m: Arithmetic,
    monitor: MonitorView,
    snapshot: FieldEntropySnapshot,
)
    ensures
        ({
            let h = sane_share(snapshot.mean_normalized_entropy);
            let now = snapshot.sampled_at_ms;
            let rate = rate_at(m, monitor, h, now);
            let limit = monitor.spike_rate_threshold;
            let since = critical_since(monitor, h, now);
            let after = ingested(m, monitor, snapshot);
            let long = since is Some && now - since->0 >= 600000;
            let wild = rate is Some && (limit.below(rate->0) || rate->0.below(limit.negated()));
            let high = (Single { bits: 0x3F19_999A }).below(h);
            &&& after.throttle.bits == (if long {
                0u32
            } else if wild {
                0x3E99_999Au32
            } else if high {
                0x3F33_3333u32
            } else {
                0x3F80_0000u32
            })
            &&& after.paused == long
            &&& after.history.len() > 0 && monitor.max_history > 0 ==> after.history.last() == (
            FieldEntropySnapshot { mean_normalized_entropy: h, ..snapshot })
            &&& after.smoothed == Some(smoothed_with(m, monitor, h))
        }),
{
}

/// The entities that are to be looked at are those whose share is above `0.8`.
pub proof fn high_samples_are_those_above(
    m: Arithmetic,
    samples: Seq<OrbEntropySample>,
    sample: OrbEntropySample,
)
    ensures
        high_samples(m, samples).contains(sample) <==> samples.contains(sample) && (Single {
            bits: 0x3F4C_CCCD,
        }).below(share_of(m, sample)),
        high_samples(m, samples).contains(sample) ==> high_ids(m, samples).contains(
            sample.orb_id,
        ),
{
    let keep = |s: OrbEntropySample| high(m, s);
    let kept = samples.filter(keep);
    if kept.contains(sample) {
        let k = choose|k: int| 0 <= k < kept.len() && kept[k] == sample;
        samples.lemma_filter_pred(keep, k);
        samples.lemma_filter_contains_rev(keep, sample);
        assert(keep(kept[k]));
        assert(high_ids(m, samples)[k] == sample.orb_id);
    }
    if samples.contains(sample) && high(m, sample) {
        let k = choose|k: int| 0 <= k < samples.len() && samples[k] == sample;
        assert(keep(samples[k]));
        samples.lemma_filter_contains(keep, k);
    }
}

} // verus!
