use piria::entropy::{
    AlertSeverity, EntropyAlertKind, EntropyMonitor, FieldEntropySnapshot, OrbEntropySample,
    CREATION_THROTTLE_NORMAL, CREATION_THROTTLE_PAUSED, CREATION_THROTTLE_SEVERE,
    CREATION_THROTTLE_WARNING, FIELD_ENTROPY_CRITICAL_SUSTAIN_MS,
    FIELD_ENTROPY_MAX_SUSTAIN_SAMPLE_GAP_MS, MEAN_ORB_ENTROPY_WARNING,
};
use piria::float::Single;
use piria::fpu::{Flop, Fpu};
use uuid::Uuid;

fn single(x: f32) -> Single {
    Single::from_bits(x.to_bits())
}

fn value(s: Single) -> f32 {
    f32::from_bits(s.bits)
}

fn quiet(x: f32) -> u64 {
    let x = if x.is_nan() { f32::NAN } else { x };
    x.to_bits() as u64
}

fn wide_quiet(x: f64) -> u64 {
    let x = if x.is_nan() { f64::NAN } else { x };
    x.to_bits()
}

fn evaluate(op: Flop) -> u64 {
    let s = f32::from_bits;
    let d = f64::from_bits;
    match op {
        Flop::Add(a, b) => quiet(s(a) + s(b)),
        Flop::Sub(a, b) => quiet(s(a) - s(b)),
        Flop::Mul(a, b) => quiet(s(a) * s(b)),
        Flop::Div(a, b) => quiet(s(a) / s(b)),
        Flop::Sqrt(a) => quiet(s(a).sqrt()),
        Flop::Log2(a) => quiet(s(a).log2()),
        Flop::FromInt(n) => quiet(n as f32),
        Flop::ToInt(a) => s(a) as u64,
        Flop::WideAdd(a, b) => wide_quiet(d(a) + d(b)),
        Flop::WideSub(a, b) => wide_quiet(d(a) - d(b)),
        Flop::WideMul(a, b) => wide_quiet(d(a) * d(b)),
        Flop::WideDiv(a, b) => wide_quiet(d(a) / d(b)),
        Flop::WideExp(a) => wide_quiet(d(a).exp()),
        Flop::WideFloor(a) => wide_quiet(d(a).floor()),
        Flop::WideFromInt(n) => wide_quiet(n as f64),
        Flop::WideToInt(a) => d(a) as u64,
        Flop::Widen(a) => wide_quiet(s(a) as f64),
        Flop::Narrow(a) => quiet(d(a) as f32),
    }
}

fn native() -> Fpu<fn(Flop) -> u64> {
    Fpu::new(evaluate as fn(Flop) -> u64)
}

fn snapshot(h: f32, ts: u64, n: u64) -> FieldEntropySnapshot {
    FieldEntropySnapshot::new(single(h), n, ts)
}

fn fresh() -> u128 {
    Uuid::now_v7().as_u128()
}

fn orb_sample(entropy: f32, max_entropy: f32) -> OrbEntropySample {
    sample_of(fresh(), entropy, max_entropy)
}

fn sample_of(orb_id: u128, entropy: f32, max_entropy: f32) -> OrbEntropySample {
    OrbEntropySample {
        orb_id,
        entropy_bits: single(entropy),
        max_entropy_bits: single(max_entropy),
        sampled_at_ms: 0,
    }
}

fn throttle(monitor: &EntropyMonitor) -> u32 {
    monitor.creation_throttle_factor.bits
}

#[test]
fn no_alert_below_thresholds() {
    let mut monitor = EntropyMonitor::new();
    let alerts = monitor.ingest_snapshot(&native(), snapshot(0.3, 1_000, 100));
    assert!(alerts.is_empty());
    assert_eq!(throttle(&monitor), CREATION_THROTTLE_NORMAL);
}

#[test]
fn warning_fires_above_mean_orb_threshold() {
    let mut monitor = EntropyMonitor::new();
    let warning = f32::from_bits(MEAN_ORB_ENTROPY_WARNING);
    let alerts = monitor.ingest_snapshot(&native(), snapshot(warning + 0.01, 1_000, 100));
    assert!(alerts
        .iter()
        .any(|a| matches!(a.kind, EntropyAlertKind::MeanOrbEntropyHigh { .. })));
    assert_eq!(throttle(&monitor), CREATION_THROTTLE_WARNING);
}

#[test]
fn spike_alert_fires_on_rapid_increase() {
    let fpu = native();
    let mut monitor = EntropyMonitor::new().with_spike_threshold(single(0.001));
    monitor.ingest_snapshot(&fpu, snapshot(0.1, 1_000, 100));

    let alerts = monitor.ingest_snapshot(&fpu, snapshot(0.5, 2_000, 100));
    assert!(alerts.iter().any(|a| matches!(a.kind, EntropyAlertKind::EntropySpike { .. })));
    assert_eq!(throttle(&monitor), CREATION_THROTTLE_SEVERE);
    assert!(!monitor.orb_creation_paused);
}

#[test]
fn collapse_alert_fires_on_rapid_decrease() {
    let fpu = native();
    let mut monitor = EntropyMonitor::new().with_spike_threshold(single(0.001));
    monitor.ingest_snapshot(&fpu, snapshot(0.9, 1_000, 100));

    let alerts = monitor.ingest_snapshot(&fpu, snapshot(0.1, 2_000, 100));
    assert!(alerts
        .iter()
        .any(|a| matches!(a.kind, EntropyAlertKind::EntropyCollapse { .. })));
    assert_eq!(throttle(&monitor), CREATION_THROTTLE_SEVERE);
}

#[test]
fn derivative_ignores_tiny_sampling_interval() {
    let fpu = native();
    let mut monitor = EntropyMonitor::new().with_spike_threshold(single(0.001));
    monitor.ingest_snapshot(&fpu, snapshot(0.1, 1_000, 100));

    let alerts = monitor.ingest_snapshot(&fpu, snapshot(0.5, 1_001, 100));
    assert!(!alerts.iter().any(|a| matches!(a.kind, EntropyAlertKind::EntropySpike { .. })));
}

#[test]
fn creation_throttle_recovers_when_entropy_drops() {
    let fpu = native();
    let mut monitor = EntropyMonitor::new().with_spike_threshold(single(0.001));
    monitor.ingest_snapshot(&fpu, snapshot(0.1, 1_000, 100));
    monitor.ingest_snapshot(&fpu, snapshot(0.9, 2_000, 100));
    assert_eq!(throttle(&monitor), CREATION_THROTTLE_SEVERE);

    monitor.ingest_snapshot(&fpu, snapshot(0.2, 100_000, 100));
    assert_eq!(throttle(&monitor), CREATION_THROTTLE_NORMAL);
}

#[test]
fn sustained_critical_entropy_pauses_creation() {
    let fpu = native();
    let mut monitor = EntropyMonitor::new();
    let start = 1_000;
    monitor.ingest_snapshot(&fpu, snapshot(0.9, start, 100));
    let mut alerts = Vec::new();

    for offset in (FIELD_ENTROPY_MAX_SUSTAIN_SAMPLE_GAP_MS..=FIELD_ENTROPY_CRITICAL_SUSTAIN_MS)
        .step_by(FIELD_ENTROPY_MAX_SUSTAIN_SAMPLE_GAP_MS as usize)
    {
        alerts = monitor.ingest_snapshot(&fpu, snapshot(0.9, start + offset, 100));
    }

    assert!(alerts
        .iter()
        .any(|a| matches!(a.kind, EntropyAlertKind::SustainedCriticalEntropy { .. })));
    assert_eq!(throttle(&monitor), CREATION_THROTTLE_PAUSED);
    assert!(monitor.orb_creation_paused);
}

#[test]
fn sustained_critical_requires_non_sparse_sampling() {
    let fpu = native();
    let mut monitor =
        EntropyMonitor::new().with_max_sustain_sample_gap_ms(FIELD_ENTROPY_CRITICAL_SUSTAIN_MS);
    monitor.ingest_snapshot(&fpu, snapshot(0.9, 1_000, 100));

    let alerts = monitor.ingest_snapshot(
        &fpu,
        snapshot(0.9, 1_000 + FIELD_ENTROPY_CRITICAL_SUSTAIN_MS + 1, 100),
    );

    assert!(!alerts
        .iter()
        .any(|a| matches!(a.kind, EntropyAlertKind::SustainedCriticalEntropy { .. })));
}

#[test]
fn malformed_entropy_is_sanitized() {
    let fpu = native();
    let mut monitor = EntropyMonitor::new();
    monitor.ingest_snapshot(&fpu, snapshot(f32::NAN, 1_000, 100));
    assert_eq!(monitor.current_mean_orb_entropy(), Some(single(0.0)));

    monitor.ingest_snapshot(&fpu, snapshot(2.0, 2_000, 100));
    assert_eq!(monitor.current_mean_orb_entropy(), Some(single(1.0)));
}

#[test]
fn orb_entropy_alert_for_high_entropy_orb() {
    let monitor = EntropyMonitor::new();
    let samples = vec![orb_sample(1.0, 1.0)];
    let alerts = monitor.evaluate_orbs(&native(), &samples);
    assert_eq!(alerts.len(), 1);
}

#[test]
fn orb_below_threshold_no_alert() {
    let monitor = EntropyMonitor::new();
    let samples = vec![orb_sample(0.5, 2.0)];
    let alerts = monitor.evaluate_orbs(&native(), &samples);
    assert!(alerts.is_empty());
}

#[test]
fn consolidation_candidates_groups_similar_orbs() {
    let monitor = EntropyMonitor::new();
    let id1 = fresh();
    let id2 = fresh();
    let id3 = fresh();

    let samples =
        vec![sample_of(id1, 1.9, 2.0), sample_of(id2, 1.9, 2.0), sample_of(id3, 1.9, 2.0)];

    let clusters = monitor.consolidation_candidates(&native(), &samples, single(0.9), |a, b| {
        if (a == id1 && b == id2) || (a == id2 && b == id1) {
            single(0.95)
        } else {
            single(0.1)
        }
    });

    assert_eq!(clusters.len(), 1);
    assert_eq!(clusters[0].len(), 2);
}

#[test]
fn consolidation_candidates_are_transitive_single_linkage() {
    let monitor = EntropyMonitor::new();
    let id1 = fresh();
    let id2 = fresh();
    let id3 = fresh();

    let samples =
        vec![sample_of(id1, 1.9, 2.0), sample_of(id2, 1.9, 2.0), sample_of(id3, 1.9, 2.0)];

    let clusters = monitor.consolidation_candidates(&native(), &samples, single(0.9), |a, b| {
        if (a == id1 && b == id2)
            || (a == id2 && b == id1)
            || (a == id2 && b == id3)
            || (a == id3 && b == id2)
        {
            single(0.95)
        } else {
            single(0.1)
        }
    });

    assert_eq!(clusters.len(), 1);
    assert_eq!(clusters[0].len(), 3);
}

#[test]
fn coherence_filter_rejects_weak_chain_clusters() {
    let monitor = EntropyMonitor::new();
    let id1 = fresh();
    let id2 = fresh();
    let id3 = fresh();

    let samples =
        vec![sample_of(id1, 1.9, 2.0), sample_of(id2, 1.9, 2.0), sample_of(id3, 1.9, 2.0)];

    let similarity = |a: u128, b: u128| {
        if (a == id1 && b == id2)
            || (a == id2 && b == id1)
            || (a == id2 && b == id3)
            || (a == id3 && b == id2)
        {
            single(0.95)
        } else {
            single(0.1)
        }
    };

    let clusters = monitor.consolidation_candidates_with_coherence(
        &native(),
        &samples,
        single(0.9),
        single(0.8),
        single(0.8),
        similarity,
    );

    assert!(clusters.is_empty());
}

#[test]
fn coherence_filter_keeps_tight_clusters() {
    let monitor = EntropyMonitor::new();
    let samples: Vec<OrbEntropySample> =
        (1..=5).map(|id| sample_of(id, if id == 4 { 0.1 } else { 1.9 }, 2.0)).collect();
    let similarity =
        |a: u128, b: u128| if a % 2 == b % 2 { single(0.95) } else { single(0.1) };
    let clusters = monitor.consolidation_candidates_with_coherence(
        &native(),
        &samples,
        single(0.9),
        single(0.9),
        single(0.9),
        similarity,
    );
    assert_eq!(clusters.len(), 1);
    let mut members = clusters[0].clone();
    members.sort();
    assert_eq!(members, vec![1, 3, 5]);
    let none = monitor.consolidation_candidates(&native(), &samples, single(0.96), similarity);
    assert!(none.is_empty());
}

#[test]
fn alerts_carry_their_numbers() {
    let fpu = native();
    let mut monitor = EntropyMonitor::new().with_spike_threshold(single(0.001));
    assert_eq!(monitor.current_field_entropy(), None);
    monitor.ingest_snapshot(&fpu, snapshot(0.25, 1_000, 100));
    let alerts = monitor.ingest_snapshot(&fpu, snapshot(1.0, 3_000, 7));
    assert_eq!(alerts.len(), 2);
    assert_eq!(alerts[0].timestamp_ms, 3_000);
    assert_eq!(
        alerts[0].kind,
        EntropyAlertKind::MeanOrbEntropyHigh {
            mean_normalized_entropy: single(1.0),
            threshold: single(0.6),
        }
    );
    let expected = 0.35 * 1.0 + (1.0 - 0.35) * 0.25;
    let rate = (expected - 0.25) / 2.0;
    assert_eq!(
        alerts[1].kind,
        EntropyAlertKind::EntropySpike { rate: single(rate), threshold: single(0.001) }
    );
    assert_eq!(alerts[0].severity, AlertSeverity::Warning);
    assert_eq!(alerts[1].severity, AlertSeverity::Critical);
    assert_eq!(monitor.current_field_entropy(), Some(single(1.0)));
    let high = monitor.evaluate_orbs(&fpu, &[sample_of(5, 3.0, 3.0)]);
    assert_eq!(
        high[0].kind,
        EntropyAlertKind::OrbEntropyHigh {
            orb_id: 5,
            normalized_entropy: single(1.0),
            threshold: single(0.8),
        }
    );
}

#[test]
fn smoothing_averages_the_window() {
    let fpu = native();
    let mut monitor = EntropyMonitor::new();
    assert_eq!(monitor.smoothed_entropy(&fpu, 3), None);
    for (i, h) in [0.25, 0.5, 0.0, 0.25].iter().enumerate() {
        monitor.ingest_snapshot(&fpu, snapshot(*h, 1_000 * (i as u64 + 1), 1));
    }
    assert_eq!(monitor.smoothed_entropy(&fpu, 1), Some(single(0.25)));
    assert_eq!(monitor.smoothed_entropy(&fpu, 3), Some(single(0.25)));
    assert_eq!(monitor.smoothed_entropy(&fpu, 4), Some(single(0.25)));
    assert_eq!(monitor.smoothed_entropy(&fpu, 100), Some(single(0.25)));
    assert_eq!(monitor.smoothed_entropy(&fpu, 0), None);
}

#[test]
fn history_is_bounded() {
    let fpu = native();
    let mut monitor = EntropyMonitor::new();
    monitor.ingest_snapshot(&fpu, snapshot(1.0, 0, 1));
    for i in 1..=128 {
        monitor.ingest_snapshot(&fpu, snapshot(0.5, i * 1_000, 1));
    }
    assert_eq!(monitor.smoothed_entropy(&fpu, 1_000), Some(single(0.5)));
}

#[test]
fn samples_normalize() {
    let fpu = native();
    assert_eq!(sample_of(1, 1.0, 2.0).normalized(&fpu), single(0.5));
    assert_eq!(sample_of(1, 9.0, 2.0).normalized(&fpu), single(1.0));
    assert_eq!(sample_of(1, 1.0, 0.0).normalized(&fpu), single(0.0));
    assert_eq!(sample_of(1, f32::NAN, 1.0).normalized(&fpu), single(0.0));
    assert!(sample_of(1, 1.7, 2.0).is_high(&fpu));
    assert!(!sample_of(1, 1.5, 2.0).is_high(&fpu));
}

#[test]
fn a_gap_restarts_the_critical_phase() {
    let fpu = native();
    let mut monitor = EntropyMonitor::new();
    for ms in [0, 100_000, 200_000, 300_000, 400_000, 500_000] {
        monitor.ingest_snapshot(&fpu, snapshot(0.9, ms, 1));
    }
    assert!(!monitor.orb_creation_paused);
    for ms in [620_001, 720_001, 820_001, 920_001, 1_020_001, 1_120_001] {
        monitor.ingest_snapshot(&fpu, snapshot(0.9, ms, 1));
        assert!(!monitor.orb_creation_paused);
    }
    let alerts = monitor.ingest_snapshot(&fpu, snapshot(0.9, 1_220_001, 1));
    assert!(monitor.orb_creation_paused);
    assert!(alerts.iter().any(|a| a.kind
        == EntropyAlertKind::SustainedCriticalEntropy {
            mean_normalized_entropy: single(0.9),
            sustained_ms: 600_000,
        }));
    monitor.ingest_snapshot(&fpu, snapshot(0.5, 1_300_000, 1));
    assert!(!monitor.orb_creation_paused);
}

#[test]
fn clusters_start_with_their_earliest_candidate() {
    let monitor = EntropyMonitor::new();
    let samples: Vec<OrbEntropySample> =
        [8u128, 2, 6, 4, 9].iter().map(|id| sample_of(*id, 1.95, 2.0)).collect();
    let even = |a: u128, b: u128| {
        let close = [(8, 4), (2, 9), (2, 6)];
        single(if close.contains(&(a, b)) || close.contains(&(b, a)) { 0.99 } else { 0.1 })
    };
    let groups = monitor.consolidation_candidates(&native(), &samples, single(0.9), even);
    assert_eq!(groups.len(), 2);
    assert_eq!(groups[0], vec![8, 4]);
    assert_eq!(groups[1][0], 2);
    assert_eq!(groups[1].len(), 3);
}

#[test]
fn monitor_shows_its_throttle() {
    let mut monitor = EntropyMonitor::new();
    assert_eq!(value(monitor.creation_throttle_factor), 1.0);
    assert!(!monitor.orb_creation_paused);
    monitor.ingest_snapshot(&native(), snapshot(0.95, 1_000, 10));
    assert!(value(monitor.creation_throttle_factor) < 1.0);
    assert!(!monitor.orb_creation_paused);
}
