//! Trust scores, their decay over time and the ceiling that evidence sets.

use vstd::prelude::*;

use crate::doubles;
use crate::error::PiriaError;
use crate::float::{Double, Single, SINGLE_ONE};
use crate::fpu;
use crate::fpu::{Arithmetic, Flop, Fpu};
use crate::outside::now_ms;
use crate::rounding;

verus! {

/// No score is ever below this one (`0.01`).
pub const TRUST_FLOOR: u32 = 0x3C23_D70A;

/// The score of a new entity (`0.095`).
pub const INITIAL_TRUST: u32 = 0x3DC2_8F5C;

/// The share of all trust (`0.05`) that a single entity may hold.
pub const TRUST_CONCENTRATION_CAP: u32 = 0x3D4C_CCCD;

/// How far (`1e-5`) rounding may carry a score above its ceiling.
pub const CEILING_TOLERANCE: u32 = 0x3727_C5AC;

/// The decay rate of trust per day (`0.001`): its half-life is about 693 days.
pub const TRUST_DECAY_RATE_PER_DAY: u64 = 0x3F50_624D_D2F1_A9FC;

/// The growth constant of the ceiling (`0.1`).
pub const TRUST_EVIDENCE_CONSTANT: u64 = 0x3FB9_9999_9999_999A;

/// Milliseconds of a day (`86400000.0`).
pub const DAY_MS: u64 = 0x4194_9970_0000_0000;

/// `1.0` in double precision.
pub const DOUBLE_ONE: u64 = 0x3FF0_0000_0000_0000;

/// A trust score, with the evidence behind it and the time of its last change.
#[derive(Debug, Clone, Copy, PartialEq, Eq, Structural)]
pub struct TrustRecord {
    pub score: Single,
    /// Pieces of evidence; never decreases.
    pub evidence_count: u32,
    /// Unix milliseconds of the last change.
    pub last_updated_ms: u64,
}

/// The record of a new entity.
pub open spec fn initial_trust(now: u64) -> TrustRecord {
    TrustRecord {
        score: Single { bits: INITIAL_TRUST },
        evidence_count: 1,
        last_updated_ms: now,
    }
}

/// The highest score that so much evidence supports: `1 - exp(-0.1 * e)`.
pub open spec fn ceiling_of(m: Arithmetic, evidence: u32) -> Single {
    fpu::narrowed(
        m,
        fpu::wide_difference(
            m,
            Double { bits: DOUBLE_ONE },
            fpu::wide_exponential(
                m,
                fpu::wide_product(
                    m,
                    (Double { bits: TRUST_EVIDENCE_CONSTANT }).negated(),
                    fpu::double_of(m, evidence as u64),
                ),
            ),
        ),
    )
}

/// Milliseconds from `earlier` to `later`, none where the order is the other way.
pub open spec fn elapsed(later: u64, earlier: u64) -> u64 {
    if later >= earlier {
        (later - earlier) as u64
    } else {
        0
    }
}

/// The score at a time: `score * exp(-0.001 * days)`, but never below the floor.
pub open spec fn effective(m: Arithmetic, record: TrustRecord, now: u64) -> Single {
    let days = fpu::wide_quotient(
        m,
        fpu::double_of(m, elapsed(now, record.last_updated_ms)),
        Double { bits: DAY_MS },
    );
    let decay = fpu::wide_exponential(
        m,
        fpu::wide_product(m, (Double { bits: TRUST_DECAY_RATE_PER_DAY }).negated(), days),
    );
    fpu::narrowed(m, fpu::wide_product(m, fpu::widened(m, record.score), decay)).larger(
        Single { bits: TRUST_FLOOR },
    )
}

/// One more piece of evidence, as far as the counter reaches.
pub open spec fn more_evidence(count: u32) -> u32 {
    if count < u32::MAX {
        (count + 1) as u32
    } else {
        u32::MAX
    }
}

/// The score that an observation suggests, kept between the floor and one.
pub open spec fn revised(
    m: Arithmetic,
    current: Single,
    observation_weight: Single,
    outcome: Single,
    learning_rate: Single,
) -> Single {
    fpu::sum(
        m,
        current,
        fpu::product(
            m,
            learning_rate,
            fpu::difference(m, fpu::product(m, observation_weight, outcome), current),
        ),
    ).clamped(Single { bits: TRUST_FLOOR }, Single { bits: SINGLE_ONE })
}

/// Whether a score is above a ceiling by more than rounding explains.
pub open spec fn above_ceiling(m: Arithmetic, score: Single, ceiling: Single) -> bool {
    fpu::sum(m, ceiling, Single { bits: CEILING_TOLERANCE }).below(score)
}

/// The order of records that settles which of two stays where nothing else does:
/// by evidence, time and score, one after the other.
pub open spec fn outranked(a: TrustRecord, b: TrustRecord) -> bool {
    if a.evidence_count != b.evidence_count {
        a.evidence_count < b.evidence_count
    } else if a.last_updated_ms != b.last_updated_ms {
        a.last_updated_ms < b.last_updated_ms
    } else {
        a.score.bits < b.score.bits
    }
}

/// The order of records places any two different ones, and has no circles.
pub proof fn records_are_ordered(a: TrustRecord, b: TrustRecord, c: TrustRecord)
    ensures
        a == b || outranked(a, b) || outranked(b, a),
        !(outranked(a, b) && outranked(b, a)),
        outranked(a, b) && outranked(b, c) ==> outranked(a, c),
{
}

impl TrustRecord {
    /// Whether `other` stays rather than this record where nothing else settles it.
    pub fn is_outranked_by(&self, other: &TrustRecord) -> (result: bool)
        ensures
            result == outranked(*self, *other),
    {
        if self.evidence_count != other.evidence_count {
            self.evidence_count < other.evidence_count
        } else if self.last_updated_ms != other.last_updated_ms {
            self.last_updated_ms < other.last_updated_ms
        } else {
            self.score.bits < other.score.bits
        }
    }

    /// The record of an entity that is new at `now`.
    pub fn initial_at(now: u64) -> (record: TrustRecord)
        ensures
            record == initial_trust(now),
    {
        TrustRecord {
            score: Single::from_bits(INITIAL_TRUST),
            evidence_count: 1,
            last_updated_ms: now,
        }
    }

    /// The record of a new entity.
    pub fn initial() -> (record: TrustRecord)
        ensures
            record == initial_trust(record.last_updated_ms),
    {
        TrustRecord::initial_at(now_ms())
    }

    /// The highest score that the evidence supports.
    pub fn ceiling<F: Fn(Flop) -> u64>(&self, fpu: &Fpu<F>) -> (result: Single)
        ensures
            result == ceiling_of(fpu@, self.evidence_count),
            supported(fpu@, self.evidence_count, result),
    {
        proof {
            evidence_supports(fpu@, self.evidence_count);
        }
        let exponent = fpu.wide_mul(
            Double { bits: TRUST_EVIDENCE_CONSTANT }.neg(),
            fpu.wide_from_int(self.evidence_count as u64),
        );
        fpu.narrow(fpu.wide_sub(Double { bits: DOUBLE_ONE }, fpu.wide_exp(exponent)))
    }

    /// The score at `now`, after its decay.
    pub fn effective_score_at<F: Fn(Flop) -> u64>(&self, fpu: &Fpu<F>, now: u64) -> (result: Single)
        ensures
            result == effective(fpu@, *self, now),
            worth(fpu@, *self, now, result),
    {
        proof {
            trust_fades(fpu@, *self, now);
        }
        let age: u64 = if now >= self.last_updated_ms {
            now - self.last_updated_ms
        } else {
            0
        };
        let days = fpu.wide_div(fpu.wide_from_int(age), Double { bits: DAY_MS });
        let rate = Double { bits: TRUST_DECAY_RATE_PER_DAY }.neg();
        let decay = fpu.wide_exp(fpu.wide_mul(rate, days));
        fpu.narrow(fpu.wide_mul(fpu.widen(self.score), decay)).max(&Single::from_bits(TRUST_FLOOR))
    }

    /// The score now, after its decay.
    pub fn effective_score<F: Fn(Flop) -> u64>(&self, fpu: &Fpu<F>) -> (result: Single)
        ensures
            exists|now: u64| result == #[trigger] effective(fpu@, *self, now),
    {
        let now = now_ms();
        self.effective_score_at(fpu, now)
    }

    /// Revises the score as it stands at `now`, and marks the record as changed
    /// at `done`. The evidence counts even where the revised score is refused
    /// because it lies above the ceiling.
    pub fn update_at<F: Fn(Flop) -> u64>(
        &mut self,
        fpu: &Fpu<F>,
        observation_weight: Single,
        outcome: Single,
        learning_rate: Single,
        orb_id: u128,
        now: u64,
        done: u64,
    ) -> (result: Result<(), PiriaError>)
        ensures
            ({
                let candidate = revised(
                    fpu@,
                    effective(fpu@, *old(self), now),
                    observation_weight,
                    outcome,
                    learning_rate,
                );
                let evidence = more_evidence(old(self).evidence_count);
                let ceiling = ceiling_of(fpu@, evidence);
                &&& result is Err <==> above_ceiling(fpu@, candidate, ceiling)
                &&& result matches Err(error) ==> error == (PiriaError::TrustCeilingViolated {
                    orb_id,
                    trust: candidate,
                    ceiling,
                })
                &&& result is Err ==> *final(self) == (TrustRecord {
                    evidence_count: evidence,
                    ..*old(self)
                })
                &&& result is Ok ==> *final(self) == (TrustRecord {
                    score: candidate.smaller(ceiling),
                    evidence_count: evidence,
                    last_updated_ms: done,
                })
            }),
            reconsidered(
                fpu@,
                *old(self),
                observation_weight,
                outcome,
                learning_rate,
                now,
                *final(self),
                result is Ok,
            ),
    {
        proof {
            observations_move_scores(
                fpu@,
                effective(fpu@, *self, now),
                observation_weight,
                outcome,
                learning_rate,
                ceiling_of(fpu@, more_evidence(self.evidence_count)),
            );
        }
        let current = self.effective_score_at(fpu, now);
        let delta = fpu.mul(
            learning_rate,
            fpu.sub(fpu.mul(observation_weight, outcome), current),
        );
        let candidate = fpu.add(current, delta).clamp(
            &Single::from_bits(TRUST_FLOOR),
            &Single::one(),
        );
        self.evidence_count = self.evidence_count.saturating_add(1);
        let ceiling = self.ceiling(fpu);
        if fpu.add(ceiling, Single::from_bits(CEILING_TOLERANCE)).lt(&candidate) {
            assert(moved(
                fpu@,
                current,
                observation_weight,
                outcome,
                learning_rate,
                ceiling,
                self.score,
                false,
            ));
            return Err(
                PiriaError::TrustCeilingViolated { orb_id, trust: candidate, ceiling },
            );
        }
        self.score = candidate.min(&ceiling);
        self.last_updated_ms = done;
        assert(moved(
            fpu@,
            current,
            observation_weight,
            outcome,
            learning_rate,
            ceiling,
            self.score,
            true,
        ));
        Ok(())
    }

    /// Revises the score now.
    pub fn update<F: Fn(Flop) -> u64>(
        &mut self,
        fpu: &Fpu<F>,
        observation_weight: Single,
        outcome: Single,
        learning_rate: Single,
        orb_id: u128,
    ) -> (result: Result<(), PiriaError>)
        ensures
            final(self).evidence_count == more_evidence(old(self).evidence_count),
            exists|now: u64|
                {
                    let candidate = revised(
                        fpu@,
                        #[trigger] effective(fpu@, *old(self), now),
                        observation_weight,
                        outcome,
                        learning_rate,
                    );
                    let ceiling = ceiling_of(fpu@, final(self).evidence_count);
                    &&& result is Err <==> above_ceiling(fpu@, candidate, ceiling)
                    &&& result matches Err(error) ==> error == (PiriaError::TrustCeilingViolated {
                        orb_id,
                        trust: candidate,
                        ceiling,
                    }) && final(self).score == old(self).score && final(self).last_updated_ms
                        == old(self).last_updated_ms
                    &&& result is Ok ==> final(self).score == candidate.smaller(ceiling)
                },
            exists|now: u64| #[trigger]
                reconsidered(
                    fpu@,
                    *old(self),
                    observation_weight,
                    outcome,
                    learning_rate,
                    now,
                    *final(self),
                    result is Ok,
                ),
    {
        let now = now_ms();
        let done = now_ms();
        let ghost witness = effective(fpu@, *self, now);
        self.update_at(fpu, observation_weight, outcome, learning_rate, orb_id, now, done)
    }
}

/// A score after its decay is a number, and never below the floor.
pub proof fn trust_floor_holds(m: Arithmetic, record: TrustRecord, now: u64)
    ensures
        (Single { bits: TRUST_FLOOR }).at_most(effective(m, record, now)),
{
}

/// A revised score that was accepted never exceeds the ceiling that the
/// evidence sets, and stays at the floor or above where the ceiling does.
pub proof fn trust_ceiling_holds(
    m: Arithmetic,
    current: Single,
    observation_weight: Single,
    outcome: Single,
    learning_rate: Single,
    evidence: u32,
)
    requires
        (Single { bits: TRUST_FLOOR }).at_most(ceiling_of(m, evidence)),
    ensures
        ({
            let candidate = revised(m, current, observation_weight, outcome, learning_rate);
            let score = candidate.smaller(ceiling_of(m, evidence));
            &&& score.at_most(ceiling_of(m, evidence))
            &&& (Single { bits: TRUST_FLOOR }).at_most(score)
        }),
{
}

// ---------------------------------------------------------------------------
// What scores mean
// ---------------------------------------------------------------------------

/// Whether a score is what a record is worth at a time: its score, which fades by the
/// exponential of a thousandth per day that has passed since its last change, and never
/// less than one hundredth; all this but for rounding.
pub open spec fn worth(m: Arithmetic, record: TrustRecord, now: u64, score: Single) -> bool {
    forall|e: spec_fn(real) -> real|
        rounding::rounds(m) && doubles::rounds_wide(m) && #[trigger] doubles::exponentiates(m, e)
            && record.score.finite() && rounding::size(rounding::value(record.score))
            <= 1000000 as real ==> {
            let ms: int = if now >= record.last_updated_ms {
                now - record.last_updated_ms
            } else {
                0
            };
            let faded = rounding::value(record.score) * e(
                -(ms as real / 86400000 as real) / 1000 as real,
            );
            &&& score.finite()
            &&& rounding::size(
                rounding::value(score) - rounding::most(faded, 1 as real / 100 as real),
            ) <= rounding::size(rounding::value(record.score)) / 20000 as real + 1 as real
                / 1000000000 as real
        }
}

/// Trust fades with time, and never below the floor.
pub proof fn trust_fades(m: Arithmetic, record: TrustRecord, now: u64)
    ensures
        worth(m, record, now, effective(m, record, now)),
{
    assert forall|e: spec_fn(real) -> real|
        rounding::rounds(m) && doubles::rounds_wide(m) && #[trigger] doubles::exponentiates(m, e)
            && record.score.finite() && rounding::size(rounding::value(record.score))
            <= 1000000 as real implies ({
        let ms: int = if now >= record.last_updated_ms {
            now - record.last_updated_ms
        } else {
            0
        };
        let faded = rounding::value(record.score) * e(
            -(ms as real / 86400000 as real) / 1000 as real,
        );
        let score = effective(m, record, now);
        &&& score.finite()
        &&& rounding::size(rounding::value(score) - rounding::most(faded, 1 as real / 100 as real))
            <= rounding::size(rounding::value(record.score)) / 20000 as real + 1 as real
            / 1000000000 as real
    }) by {
        lemma_fades(m, e, record, now);
    }
}

proof fn lemma_fades(m: Arithmetic, e: spec_fn(real) -> real, record: TrustRecord, now: u64)
    requires
        rounding::rounds(m),
        doubles::rounds_wide(m),
        doubles::exponentiates(m, e),
        record.score.finite(),
        rounding::size(rounding::value(record.score)) <= 1000000 as real,
    ensures
        ({
            let ms = elapsed(now, record.last_updated_ms);
            let faded = rounding::value(record.score) * e(
                -(ms as real / 86400000 as real) / 1000 as real,
            );
            let score = effective(m, record, now);
            &&& score.finite()
            &&& rounding::size(
                rounding::value(score) - rounding::most(faded, 1 as real / 100 as real),
            ) <= rounding::size(rounding::value(record.score)) / 20000 as real + 1 as real
                / 1000000000 as real
        }),
{
    rounding::lemma_constants();
    rounding::lemma_extremes();
    doubles::lemma_wide_constants();
    let ms = elapsed(now, record.last_updated_ms);
    let span = Double { bits: DAY_MS };
    doubles::lemma_time_ratio(m, ms, span);
    let days = fpu::wide_quotient(m, fpu::double_of(m, ms), span);
    let exact_days = ms as real / 86400000 as real;
    let rate = Double { bits: TRUST_DECAY_RATE_PER_DAY };
    doubles::lemma_negated(rate);
    let d = doubles::wide_value(days);
    let k = doubles::wide_value(rate);
    let x = fpu::wide_product(m, rate.negated(), days);
    let exact = -exact_days / 1000 as real;
    assert(rounding::size((-k) * d - exact) <= 1 as real / 1000000 as real && -(1000000000 as real)
        <= (-k) * d <= 0 as real) by (nonlinear_arith)
        requires
            k == 4611686018427388 as real / 4611686018427387904 as real,
            exact == -exact_days / 1000 as real,
            0 as real <= exact_days <= 300000000000 as real,
            rounding::size(d - exact_days) <= exact_days / 3000000000000000 as real + 1 as real
                / 1000000000 as real,
            d >= 0 as real,
    ;
    assert(doubles::wide_rounded(x, (-k) * d));
    let y = (-k) * d;
    assert(doubles::wide_slip() * rounding::size(y) <= 1 as real / 1000000 as real) by (
        nonlinear_arith)
        requires
            doubles::wide_slip() == 1 as real / 9007199254740992 as real,
            0 as real <= rounding::size(y) <= 1000000000 as real,
    ;
    doubles::lemma_decay(m, e, x, exact);
    let decay = fpu::wide_exponential(m, x);
    let g = doubles::wide_value(decay);
    let w = e(exact);
    let s = rounding::value(record.score);
    let wide = fpu::widened(m, record.score);
    let z = fpu::wide_product(m, wide, decay);
    let c = rounding::size(s);
    assert(rounding::size(s * g - s * w) <= c * (4 as real / 100000 as real) && rounding::size(s * g)
        <= 2 as real * c) by {
        let h = g - w;
        assert(rounding::size(h) <= 4 as real / 100000 as real);
        assert(s * g - s * w == s * h) by (nonlinear_arith)
            requires
                h == g - w,
        ;
        assert(-(c * (4 as real / 100000 as real)) <= s * h <= c * (4 as real / 100000 as real)) by (
            nonlinear_arith)
            requires
                -(4 as real / 100000 as real) <= h <= 4 as real / 100000 as real,
                c == s || c == -s,
                c >= 0 as real,
        ;
        assert(-(2 as real * c) <= s * g <= 2 as real * c) by (nonlinear_arith)
            requires
                0 as real <= g <= 2 as real,
                c == s || c == -s,
                c >= 0 as real,
        ;
    }
    assert(doubles::wide_rounded(z, s * g));
    let v = doubles::wide_value(z);
    let q = s * g;
    assert(doubles::wide_slip() * rounding::size(q) <= c / 1000000000 as real) by (nonlinear_arith)
        requires
            doubles::wide_slip() == 1 as real / 9007199254740992 as real,
            0 as real <= rounding::size(q) <= 2 as real * c,
    ;
    let narrow = fpu::narrowed(m, z);
    assert(rounding::rounded(narrow, v, rounding::speck()));
    assert(rounding::slip() * rounding::size(v) <= c / 1000000 as real + 1 as real
        / 100000000000 as real) by (nonlinear_arith)
        requires
            rounding::slip() == 1 as real / 16777216 as real,
            0 as real <= rounding::size(v) <= 3 as real * c + 1 as real / 100000000000 as real,
            c >= 0 as real,
    ;
    let floor = Single { bits: TRUST_FLOOR };
    rounding::lemma_clamped(narrow, floor, floor);
}

/// Whether a score is the highest one that so much evidence supports: one less the
/// exponential of minus a tenth of it, but for rounding.
pub open spec fn supported(m: Arithmetic, evidence: u32, ceiling: Single) -> bool {
    forall|e: spec_fn(real) -> real|
        rounding::rounds(m) && doubles::rounds_wide(m) && #[trigger] doubles::exponentiates(m, e)
            ==> ceiling.finite() && rounding::size(
            rounding::value(ceiling) - (1 as real - e(-(evidence as real / 10 as real))),
        ) <= 1 as real / 20000 as real
}

/// The ceiling grows with the evidence, towards one.
pub proof fn evidence_supports(m: Arithmetic, evidence: u32)
    ensures
        supported(m, evidence, ceiling_of(m, evidence)),
{
    assert forall|e: spec_fn(real) -> real|
        rounding::rounds(m) && doubles::rounds_wide(m) && #[trigger] doubles::exponentiates(
            m,
            e,
        ) implies ceiling_of(m, evidence).finite() && rounding::size(
        rounding::value(ceiling_of(m, evidence)) - (1 as real - e(
            -(evidence as real / 10 as real),
        )),
    ) <= 1 as real / 20000 as real by {
        rounding::lemma_extremes();
        doubles::lemma_wide_constants();
        let rate = Double { bits: TRUST_EVIDENCE_CONSTANT };
        doubles::lemma_negated(rate);
        let count = fpu::double_of(m, evidence as u64);
        let n = evidence as real;
        assert(doubles::wide_rounded(count, n));
        let c = doubles::wide_value(count);
        let k = doubles::wide_value(rate);
        let exact = -(n / 10 as real);
        assert(doubles::wide_slip() * n <= 1 as real / 1000000 as real) by (nonlinear_arith)
            requires
                doubles::wide_slip() == 1 as real / 9007199254740992 as real,
                0 as real <= n <= 4294967295 as real,
        ;
        assert(rounding::size((-k) * c - exact) <= 1 as real / 400000 as real && -(500000000 as real)
            <= (-k) * c <= 0 as real) by (nonlinear_arith)
            requires
                k == 7205759403792794 as real / 72057594037927936 as real,
                exact == -(n / 10 as real),
                0 as real <= n <= 4294967295 as real,
                rounding::size(c - n) <= 1 as real / 900000 as real,
                c >= 0 as real,
        ;
        let x = fpu::wide_product(m, rate.negated(), count);
        let y = (-k) * c;
        assert(doubles::wide_rounded(x, y));
        assert(doubles::wide_slip() * rounding::size(y) <= 1 as real / 1000000 as real) by (
            nonlinear_arith)
            requires
                doubles::wide_slip() == 1 as real / 9007199254740992 as real,
                0 as real <= rounding::size(y) <= 500000000 as real,
        ;
        doubles::lemma_decay(m, e, x, exact);
        let one = Double { bits: DOUBLE_ONE };
        let g = doubles::wide_value(fpu::wide_exponential(m, x));
        let gap = fpu::wide_difference(m, one, fpu::wide_exponential(m, x));
        assert(doubles::wide_rounded(gap, 1 as real - g));
        let h = 1 as real - g;
        assert(doubles::wide_slip() * rounding::size(h) <= 1 as real / 1000000 as real) by (
            nonlinear_arith)
            requires
                doubles::wide_slip() == 1 as real / 9007199254740992 as real,
                0 as real <= rounding::size(h) <= 2 as real,
        ;
        let v = doubles::wide_value(gap);
        assert(rounding::rounded(fpu::narrowed(m, gap), v, rounding::speck()));
        assert(rounding::slip() * rounding::size(v) <= 1 as real / 1000000 as real) by (
            nonlinear_arith)
            requires
                rounding::slip() == 1 as real / 16777216 as real,
                0 as real <= rounding::size(v) <= 3 as real,
        ;
    }
}

/// The score that an observation suggests, over the reals: the current one, moved by the
/// learning rate towards weight times outcome, between one hundredth and one.
pub open spec fn suggested(current: real, weight: real, outcome: real, rate: real) -> real {
    rounding::between(
        current + rate * (weight * outcome - current),
        1 as real / 100 as real,
        1 as real,
    )
}

/// How far rounding may carry a suggested score.
pub open spec fn suggestion_error(current: real, weight: real, outcome: real, rate: real) -> real {
    (rounding::size(current) + rounding::size(rate) * (rounding::size(weight * outcome)
        + rounding::size(current))) / 1000000 as real + 1 as real / 1000000000 as real
}

/// Whether numbers are finite and not very large.
pub open spec fn moderate(a: Single) -> bool {
    a.finite() && rounding::size(rounding::value(a)) <= 1000 as real
}

/// The difference of a product and a number, but for rounding.
proof fn lemma_gap_error(p: real, c: real, pv: real, dv: real, t: real)
    requires
        0 as real <= t <= 1 as real / 1000000000000 as real,
        rounding::size(pv - p) <= rounding::slip() * rounding::size(p) + t,
        rounding::size(dv - (pv - c)) <= rounding::slip() * rounding::size(pv - c),
    ensures
        rounding::size(dv - (p - c)) <= (rounding::size(p) + rounding::size(c)) / 7000000 as real
            + 2 as real * t,
{
    let u = rounding::slip();
    let a = rounding::size(p);
    let g = rounding::size(pv - c);
    assert(u * a == a / 16777216 as real && u * g == g / 16777216 as real) by (nonlinear_arith)
        requires
            u == 1 as real / 16777216 as real,
    ;
}

/// A rate times a difference, but for rounding.
proof fn lemma_step_error(r: real, d: real, k: real, dv: real, sv: real, t: real)
    requires
        0 as real <= t <= 1 as real / 1000000000000 as real,
        rounding::size(r) <= 1000 as real,
        rounding::size(d) <= k,
        rounding::size(dv - d) <= k / 7000000 as real + 2 as real * t,
        rounding::size(sv - r * dv) <= rounding::slip() * rounding::size(r * dv) + t,
    ensures
        rounding::size(r * d) <= rounding::size(r) * k,
        rounding::size(sv - r * d) <= rounding::size(r) * k / 4000000 as real + 3000 as real * t,
{
    let n = rounding::size(r);
    let q = r * d;
    let j = n * k;
    let h = dv - d;
    let f = k / 7000000 as real + 2 as real * t;
    let x = r * dv;
    assert(x == q + r * h) by (nonlinear_arith)
        requires
            h == dv - d,
            q == r * d,
            x == r * dv,
    ;
    assert(-(n * f) <= r * h <= n * f) by (nonlinear_arith)
        requires
            -f <= h <= f,
            n == r || n == -r,
            n >= 0 as real,
    ;
    assert(-j <= q <= j) by (nonlinear_arith)
        requires
            -k <= d <= k,
            q == r * d,
            j == n * k,
            n == r || n == -r,
            n >= 0 as real,
    ;
    assert(n * f <= j / 7000000 as real + 2000 as real * t) by (nonlinear_arith)
        requires
            f == k / 7000000 as real + 2 as real * t,
            j == n * k,
            0 as real <= n <= 1000 as real,
            t >= 0 as real,
    ;
    let y = rounding::size(x);
    let u = rounding::slip();
    assert(u * y == y / 16777216 as real) by (nonlinear_arith)
        requires
            u == 1 as real / 16777216 as real,
    ;
}

/// A revised score is the suggested one, but for rounding.
pub proof fn revisions_follow_observations(
    m: Arithmetic,
    current: Single,
    weight: Single,
    outcome: Single,
    rate: Single,
)
    requires
        rounding::rounds(m),
        moderate(current) && moderate(weight) && moderate(outcome) && moderate(rate),
    ensures
        revised(m, current, weight, outcome, rate).finite(),
        ({
            let (c, w, o, r) = (
                rounding::value(current),
                rounding::value(weight),
                rounding::value(outcome),
                rounding::value(rate),
            );
            rounding::size(
                rounding::value(revised(m, current, weight, outcome, rate)) - suggested(c, w, o, r),
            ) <= suggestion_error(c, w, o, r)
        }),
{
    rounding::lemma_constants();
    rounding::lemma_extremes();
    let (c, w, o, r) = (
        rounding::value(current),
        rounding::value(weight),
        rounding::value(outcome),
        rounding::value(rate),
    );
    let u = rounding::slip();
    let t = rounding::speck();
    let p = w * o;
    let (a, b) = (rounding::size(p), rounding::size(c));
    assert(a <= 1000000 as real) by (nonlinear_arith)
        requires
            -(1000 as real) <= w <= 1000 as real,
            -(1000 as real) <= o <= 1000 as real,
            a == w * o || a == -(w * o),
    ;
    let product = fpu::product(m, weight, outcome);
    assert(rounding::rounded(product, p, t));
    assert(u * a == a / 16777216 as real) by (nonlinear_arith)
        requires
            u == 1 as real / 16777216 as real,
    ;
    let pv = rounding::value(product);
    let gap = fpu::difference(m, product, current);
    assert(rounding::rounded(gap, pv - c, 0 as real));
    let dv = rounding::value(gap);
    lemma_gap_error(p, c, pv, dv, t);
    let k = a + b;
    let step = fpu::product(m, rate, gap);
    let x = r * dv;
    assert(rounding::size(x) <= 3000000000 as real) by (nonlinear_arith)
        requires
            -(1000 as real) <= r <= 1000 as real,
            -(3000000 as real) <= dv <= 3000000 as real,
            x == r * dv,
    ;
    assert(rounding::rounded(step, x, t));
    let sv = rounding::value(step);
    lemma_step_error(r, p - c, k, dv, sv, t);
    let j = rounding::size(r) * k;
    assert(0 as real <= j <= 1100000000 as real) by (nonlinear_arith)
        requires
            j == rounding::size(r) * k,
            0 as real <= rounding::size(r) <= 1000 as real,
            0 as real <= k <= 1001000 as real,
    ;
    let sum = fpu::sum(m, current, step);
    let y = rounding::size(c + sv);
    assert(rounding::rounded(sum, c + sv, 0 as real));
    assert(u * y == y / 16777216 as real) by (nonlinear_arith)
        requires
            u == 1 as real / 16777216 as real,
    ;
    rounding::lemma_clamped(sum, Single { bits: TRUST_FLOOR }, Single { bits: SINGLE_ONE });
}

/// Whether a record and an outcome are what an observation makes of a record whose
/// score stands at `current`: one more piece of evidence, and the suggested score but for
/// rounding, though never above the ceiling. A suggestion that is clearly above the
/// ceiling is refused, and one that is not is taken.
pub open spec fn moved(
    m: Arithmetic,
    current: Single,
    weight: Single,
    outcome: Single,
    rate: Single,
    ceiling: Single,
    score: Single,
    taken: bool,
) -> bool {
    rounding::rounds(m) && moderate(current) && moderate(weight) && moderate(outcome) && moderate(
        rate,
    ) && moderate(ceiling) ==> {
        let (c, w, o, r) = (
            rounding::value(current),
            rounding::value(weight),
            rounding::value(outcome),
            rounding::value(rate),
        );
        let goal = suggested(c, w, o, r);
        let error = suggestion_error(c, w, o, r);
        let top = rounding::value(ceiling);
        &&& goal <= top - error - rounding::size(top) / 1000000 as real ==> taken
        &&& goal > top + error + 2 as real / 100000 as real + rounding::size(top) / 1000000 as real
            ==> !taken
        &&& taken ==> score.finite() && rounding::size(
            rounding::value(score) - rounding::least(goal, top),
        ) <= error
    }
}

/// Whether a record is what an observation makes of another one at a time: it has one
/// more piece of evidence, as far as the counter reaches, its score has moved as it
/// should from what the other was worth, and where that was refused nothing else changes.
pub open spec fn reconsidered(
    m: Arithmetic,
    before: TrustRecord,
    weight: Single,
    outcome: Single,
    rate: Single,
    now: u64,
    after: TrustRecord,
    taken: bool,
) -> bool {
    &&& after.evidence_count as int == if before.evidence_count < u32::MAX {
        before.evidence_count + 1
    } else {
        u32::MAX as int
    }
    &&& !taken ==> after.score == before.score && after.last_updated_ms == before.last_updated_ms
    &&& exists|current: Single, ceiling: Single|
        worth(m, before, now, current) && supported(m, after.evidence_count, ceiling)
            && #[trigger] moved(
            m,
            current,
            weight,
            outcome,
            rate,
            ceiling,
            after.score,
            taken,
        )
}

/// An observation moves a score towards weight times outcome.
pub proof fn observations_move_scores(
    m: Arithmetic,
    current: Single,
    weight: Single,
    outcome: Single,
    rate: Single,
    ceiling: Single,
)
    ensures
        ({
            let candidate = revised(m, current, weight, outcome, rate);
            moved(
                m,
                current,
                weight,
                outcome,
                rate,
                ceiling,
                candidate.smaller(ceiling),
                !above_ceiling(m, candidate, ceiling),
            )
        }),
{
    if rounding::rounds(m) && moderate(current) && moderate(weight) && moderate(outcome)
        && moderate(rate) && moderate(ceiling) {
        revisions_follow_observations(m, current, weight, outcome, rate);
        rounding::lemma_constants();
        rounding::lemma_extremes();
        let candidate = revised(m, current, weight, outcome, rate);
        let tolerance = Single { bits: CEILING_TOLERANCE };
        let top = rounding::value(ceiling);
        let limit = fpu::sum(m, ceiling, tolerance);
        rounding::lemma_ceiling_tolerance();
        let k = top + rounding::value(tolerance);
        assert(rounding::rounded(limit, k, 0 as real));
        assert(rounding::slip() * rounding::size(k) <= rounding::size(k) / 10000000 as real) by (
            nonlinear_arith)
            requires
                rounding::slip() == 1 as real / 16777216 as real,
                rounding::size(k) >= 0 as real,
        ;
        rounding::lemma_values_are_ordered(limit, candidate);
        rounding::lemma_clamped(candidate, ceiling, ceiling);
    }
}

/// Where nothing times a number is nothing, an observation without weight counts as one
/// of no outcome.
pub proof fn weightless_observations_count_for_nothing(
    m: Arithmetic,
    current: Single,
    weight: Single,
    outcome: Single,
    rate: Single,
)
    requires
        fpu::product(m, weight, Single { bits: 0 }) == (Single { bits: 0 }),
        fpu::product(m, Single { bits: 0 }, outcome) == (Single { bits: 0 }),
    ensures
        revised(m, current, Single { bits: 0 }, outcome, rate) == revised(
            m,
            current,
            weight,
            Single { bits: 0 },
            rate,
        ),
{
}

} // verus!
