//! Running totals and moving averages.
//!
//! Averages are kept as scaled integers: waits in thousandths of a millisecond,
//! quality in ten-thousandths, cycle times in hundredths of a microsecond.

use vstd::prelude::*;

use crate::fixed::{clamp_to_i64, div_towards_zero, lemma_trunc_div, saturate_i64, trunc_div, Ratio};

verus! {

/// What the engine counts and averages.
#[derive(Debug, Clone, Copy)]
pub struct Metrics {
    /// Matches formed.
    pub matches_formed: u64,
    /// Players matched.
    pub players_matched: u64,
    /// Matching cycles run.
    pub cycle_count: u64,
    /// Moving average of the wait: milliseconds times a thousand.
    pub ema_wait_ms_x1000: i64,
    /// Moving average of the quality score, times ten thousand.
    pub ema_quality_x10000: i64,
    /// Moving average of a cycle's duration: microseconds times a hundred.
    pub ema_cycle_us_x100: i64,
}

/// The metrics as reported.
#[derive(Debug, Clone, Copy)]
pub struct MetricsSnapshot {
    pub matches_formed: u64,
    pub players_matched: u64,
    pub cycle_count: u64,
    pub avg_wait_ms: Ratio,
    pub avg_quality: Ratio,
    pub avg_cycle_us: Ratio,
}

/// The sum of two counters, which start again from zero when they run over.
pub open spec fn wrapped_sum(x: u64, y: u64) -> u64 {
    ((x + y) % 0x1_0000_0000_0000_0000) as u64
}

/// The two's complement reading of an unsigned value.
pub open spec fn as_signed(x: u64) -> i64 {
    if x <= i64::MAX {
        x as i64
    } else {
        (x - 0x1_0000_0000_0000_0000) as i64
    }
}

/// A moving average after a new value, where `keep` parts in `of` are kept of
/// the old average. The fraction is dropped.
pub open spec fn blended(average: i64, value: i64, keep: u8, of: u8) -> i64 {
    trunc_div(keep * average + (of - keep) * value, of as int) as i64
}

/// A quality score in whole ten-thousandths.
pub open spec fn scaled_quality(quality: Ratio) -> i64 {
    saturate_i64(trunc_div(quality.num * 10_000, quality.den as int)) as i64
}

proof fn lemma_blend_between(average: i64, value: i64, keep: u8, of: u8, low: int, high: int)
    requires
        keep <= of,
        0 < of,
        low <= average <= high,
        low <= value <= high,
    ensures
        low * of <= keep * average + (of - keep) * value <= high * of,
        low <= trunc_div(keep * average + (of - keep) * value, of as int) <= high,
{
    let v = keep * average + (of - keep) * value;
    let d = of as int;
    assert(low * d <= v <= high * d) by (nonlinear_arith)
        requires
            v == keep * average + (d - keep) * value,
            0 <= keep <= d,
            low <= average <= high,
            low <= value <= high,
    ;
    if v >= 0 {
        assert(low <= v / d <= high) by (nonlinear_arith)
            requires
                low * d <= v <= high * d,
                d > 0,
        ;
    } else {
        let m = -v;
        assert(-high <= m / d <= -low) by (nonlinear_arith)
            requires
                low * d <= -m <= high * d,
                d > 0,
        ;
    }
}

/// Folds a value into a moving average.
fn blend(average: i64, value: i64, keep: u8, of: u8) -> (r: i64)
    requires
        keep <= of,
        0 < of,
    ensures
        r == blended(average, value, keep, of),
        r == trunc_div(keep * average + (of - keep) * value, of as int),
{
    proof {
        lemma_blend_between(average, value, keep, of, i64::MIN as int, i64::MAX as int);
        assert(i64::MIN * 255 <= i64::MIN * of && i64::MAX * of <= i64::MAX * 255) by (nonlinear_arith)
            requires
                0 < of <= 255,
        ;
        assert(-0x8000_0000_0000_0000 * 255 <= keep * average <= 0x8000_0000_0000_0000 * 255) by (nonlinear_arith)
            requires
                0 <= keep <= 255,
                -0x8000_0000_0000_0000 <= average <= 0x8000_0000_0000_0000,
        ;
        assert(-0x8000_0000_0000_0000 * 255 <= (of - keep) * value <= 0x8000_0000_0000_0000 * 255) by (nonlinear_arith)
            requires
                0 <= of - keep <= 255,
                -0x8000_0000_0000_0000 <= value <= 0x8000_0000_0000_0000,
        ;
    }
    let v: i128 = keep as i128 * average as i128 + (of - keep) as i128 * value as i128;
    div_towards_zero(v, of as u128) as i64
}

impl Metrics {
    /// Ten players have been counted for each match.
    pub open spec fn wf(self) -> bool {
        self.players_matched == (self.matches_formed * 10) % 0x1_0000_0000_0000_0000
    }

    /// Nothing counted, and quality taken as perfect until a match says otherwise.
    pub open spec fn initial() -> Metrics {
        Metrics {
            matches_formed: 0,
            players_matched: 0,
            cycle_count: 0,
            ema_wait_ms_x1000: 0,
            ema_quality_x10000: 10_000,
            ema_cycle_us_x100: 0,
        }
    }

    /// The metrics after a match of the given quality, whose players had waited
    /// for `avg_wait_secs` billionths of a second on average.
    pub open spec fn after_match(self, quality: Ratio, avg_wait_secs: u64) -> Metrics {
        Metrics {
            matches_formed: wrapped_sum(self.matches_formed, 1),
            players_matched: wrapped_sum(self.players_matched, 10),
            ema_wait_ms_x1000: blended(self.ema_wait_ms_x1000, (avg_wait_secs / 1000) as i64, 9, 10),
            ema_quality_x10000: blended(self.ema_quality_x10000, scaled_quality(quality), 9, 10),
            ..self
        }
    }

    /// The metrics after a cycle that took `duration_micros` microseconds.
    pub open spec fn after_cycle(self, duration_micros: u64) -> Metrics {
        Metrics {
            cycle_count: wrapped_sum(self.cycle_count, 1),
            ema_cycle_us_x100: blended(self.ema_cycle_us_x100, as_signed((duration_micros * 100) as u64), 19, 20),
            ..self
        }
    }

    /// The metrics as they are reported, each average in its own unit.
    pub open spec fn reported(self) -> MetricsSnapshot {
        MetricsSnapshot {
            matches_formed: self.matches_formed,
            players_matched: self.players_matched,
            cycle_count: self.cycle_count,
            avg_wait_ms: Ratio { num: self.ema_wait_ms_x1000 as i128, den: 1_000 },
            avg_quality: Ratio { num: self.ema_quality_x10000 as i128, den: 10_000 },
            avg_cycle_us: Ratio { num: self.ema_cycle_us_x100 as i128, den: 100 },
        }
    }

    /// The metrics of an engine that has just started.
    pub fn new() -> (m: Self)
        ensures
            m == Metrics::initial(),
            m.matches_formed == 0,
            m.players_matched == 0,
            m.cycle_count == 0,
            m.ema_wait_ms_x1000 == 0,
            m.ema_quality_x10000 == 10_000,
            m.ema_cycle_us_x100 == 0,
            m.wf(),
    {
        Metrics {
            matches_formed: 0,
            players_matched: 0,
            cycle_count: 0,
            ema_wait_ms_x1000: 0,
            ema_quality_x10000: 10_000,
            ema_cycle_us_x100: 0,
        }
    }

    /// Counts a match and folds its quality and its players' average wait, in
    /// billionths of a second, into the averages.
    pub fn record_match(&mut self, quality: Ratio, avg_wait_secs: u64)
        requires
            quality.wf(),
            -i128::MAX <= quality.num * 10_000 <= i128::MAX,
        ensures
            *final(self) == old(self).after_match(quality, avg_wait_secs),
            final(self).matches_formed == (old(self).matches_formed + 1) % 0x1_0000_0000_0000_0000,
            final(self).players_matched == (old(self).players_matched + 10) % 0x1_0000_0000_0000_0000,
            final(self).cycle_count == old(self).cycle_count,
            final(self).ema_cycle_us_x100 == old(self).ema_cycle_us_x100,
            9 * old(self).ema_wait_ms_x1000 + avg_wait_secs as int / 1_000 >= 0 ==>
                10 * final(self).ema_wait_ms_x1000 <= 9 * old(self).ema_wait_ms_x1000 + avg_wait_secs as int / 1_000
                < 10 * final(self).ema_wait_ms_x1000 + 10,
            9 * old(self).ema_wait_ms_x1000 + avg_wait_secs as int / 1_000 < 0 ==>
                10 * final(self).ema_wait_ms_x1000 - 10 < 9 * old(self).ema_wait_ms_x1000 + avg_wait_secs as int / 1_000
                <= 10 * final(self).ema_wait_ms_x1000,
            0 <= quality.num <= quality.den && old(self).ema_quality_x10000 >= 0 ==>
                10 * final(self).ema_quality_x10000
                <= 9 * old(self).ema_quality_x10000 + quality.num * 10_000 / (quality.den as int)
                < 10 * final(self).ema_quality_x10000 + 10,
            old(self).wf() ==> final(self).wf(),
    {
        proof {
            law_match_is_averaged(*old(self), quality, avg_wait_secs);
        }
        self.matches_formed = self.matches_formed.wrapping_add(1);
        self.players_matched = self.players_matched.wrapping_add(10);
        let new_wait: i64 = (avg_wait_secs / 1000) as i64;
        self.ema_wait_ms_x1000 = blend(self.ema_wait_ms_x1000, new_wait, 9, 10);
        let new_quality: i64 = clamp_to_i64(div_towards_zero(quality.num * 10_000, quality.den));
        self.ema_quality_x10000 = blend(self.ema_quality_x10000, new_quality, 9, 10);
    }

    /// Counts a cycle and folds its duration into the average.
    pub fn record_cycle(&mut self, duration_micros: u64)
        requires
            duration_micros * 100 <= u64::MAX,
        ensures
            *final(self) == old(self).after_cycle(duration_micros),
            final(self).cycle_count == (old(self).cycle_count + 1) % 0x1_0000_0000_0000_0000,
            final(self).matches_formed == old(self).matches_formed,
            final(self).players_matched == old(self).players_matched,
            final(self).ema_wait_ms_x1000 == old(self).ema_wait_ms_x1000,
            final(self).ema_quality_x10000 == old(self).ema_quality_x10000,
            duration_micros * 100 <= i64::MAX && old(self).ema_cycle_us_x100 >= 0 ==>
                20 * final(self).ema_cycle_us_x100 <= 19 * old(self).ema_cycle_us_x100 + duration_micros * 100
                < 20 * final(self).ema_cycle_us_x100 + 20,
            old(self).wf() ==> final(self).wf(),
    {
        proof {
            law_cycle_is_averaged(*old(self), duration_micros);
        }
        self.cycle_count = self.cycle_count.wrapping_add(1);
        let scaled: u64 = duration_micros * 100;
        let new_cycle: i64 = if scaled <= 0x7fff_ffff_ffff_ffff {
            scaled as i64
        } else {
            (scaled as i128 - 0x1_0000_0000_0000_0000) as i64
        };
        self.ema_cycle_us_x100 = blend(self.ema_cycle_us_x100, new_cycle, 19, 20);
    }

    /// The metrics as they stand.
    pub fn snapshot(&self) -> (s: MetricsSnapshot)
        ensures
            s == self.reported(),
            s.matches_formed == self.matches_formed,
            s.players_matched == self.players_matched,
            s.cycle_count == self.cycle_count,
            s.avg_wait_ms.num == self.ema_wait_ms_x1000 && s.avg_wait_ms.den == 1_000,
            s.avg_quality.num == self.ema_quality_x10000 && s.avg_quality.den == 10_000,
            s.avg_cycle_us.num == self.ema_cycle_us_x100 && s.avg_cycle_us.den == 100,
    {
        MetricsSnapshot {
            matches_formed: self.matches_formed,
            players_matched: self.players_matched,
            cycle_count: self.cycle_count,
            avg_wait_ms: Ratio { num: self.ema_wait_ms_x1000 as i128, den: 1_000 },
            avg_quality: Ratio { num: self.ema_quality_x10000 as i128, den: 10_000 },
            avg_cycle_us: Ratio { num: self.ema_cycle_us_x100 as i128, den: 100 },
        }
    }
}

proof fn lemma_blend(average: i64, value: i64, keep: u8, of: u8)
    requires
        keep <= of,
        0 < of,
    ensures
        keep * average + (of - keep) * value >= 0 ==> {
            &&& blended(average, value, keep, of) * of <= keep * average + (of - keep) * value
            &&& keep * average + (of - keep) * value < blended(average, value, keep, of) * of + of
        },
        keep * average + (of - keep) * value < 0 ==> {
            &&& blended(average, value, keep, of) * of - of < keep * average + (of - keep) * value
            &&& keep * average + (of - keep) * value <= blended(average, value, keep, of) * of
        },
{
    lemma_blend_between(average, value, keep, of, i64::MIN as int, i64::MAX as int);
    lemma_trunc_div(keep * average + (of - keep) * value, of as int);
}

/// A match changes each average to nine tenths of what it was and a tenth of what
/// the match brings: its players' average wait in whole microseconds, and its
/// quality in whole ten-thousandths. What is left of a division is dropped.
pub proof fn law_match_is_averaged(m: Metrics, quality: Ratio, avg_wait_secs: u64)
    requires
        quality.wf(),
    ensures
        ({
            let after = m.after_match(quality, avg_wait_secs);
            let wait = 9 * m.ema_wait_ms_x1000 + avg_wait_secs as int / 1_000;
            let score = 9 * m.ema_quality_x10000 + quality.num * 10_000 / (quality.den as int);
            &&& wait >= 0 ==> 10 * after.ema_wait_ms_x1000 <= wait < 10 * after.ema_wait_ms_x1000 + 10
            &&& wait < 0 ==> 10 * after.ema_wait_ms_x1000 - 10 < wait <= 10 * after.ema_wait_ms_x1000
            &&& 0 <= quality.num <= quality.den && score >= 0 ==>
                10 * after.ema_quality_x10000 <= score < 10 * after.ema_quality_x10000 + 10
            &&& 0 <= quality.num <= quality.den && score < 0 ==>
                10 * after.ema_quality_x10000 - 10 < score <= 10 * after.ema_quality_x10000
            &&& after.matches_formed == (m.matches_formed + 1) % 0x1_0000_0000_0000_0000
            &&& after.players_matched == (m.players_matched + 10) % 0x1_0000_0000_0000_0000
            &&& after.cycle_count == m.cycle_count
            &&& after.ema_cycle_us_x100 == m.ema_cycle_us_x100
        }),
{
    lemma_blend(m.ema_wait_ms_x1000, (avg_wait_secs / 1000) as i64, 9, 10);
    let n = quality.num as int;
    let d = quality.den as int;
    if 0 <= n <= d {
        assert(0 <= (n * 10_000) / d <= 10_000) by (nonlinear_arith)
            requires
                0 <= n <= d,
                d > 0,
        ;
        lemma_blend(m.ema_quality_x10000, scaled_quality(quality), 9, 10);
    }
}

/// Whatever the quality of a match, a tenth of its whole ten-thousandths is added: the
/// fraction is dropped, and what is beyond the range of the average is cut off at its
/// end. `score` is that number.
pub proof fn law_any_quality_is_averaged(m: Metrics, quality: Ratio, avg_wait_secs: u64, score: i64)
    requires
        quality.wf(),
        quality.num >= 0 ==> {
            &&& 0 <= score
            &&& score * quality.den <= quality.num * 10_000
            &&& quality.num * 10_000 < score * quality.den + quality.den || score == i64::MAX
        },
        quality.num < 0 ==> {
            &&& score <= 0
            &&& quality.num * 10_000 <= score * quality.den
            &&& score * quality.den - quality.den < quality.num * 10_000 || score == i64::MIN
        },
    ensures
        ({
            let after = m.after_match(quality, avg_wait_secs).ema_quality_x10000;
            let sum = 9 * m.ema_quality_x10000 + score;
            &&& sum >= 0 ==> 10 * after <= sum < 10 * after + 10
            &&& sum < 0 ==> 10 * after - 10 < sum <= 10 * after
        }),
{
    let v = quality.num * 10_000;
    let d = quality.den as int;
    let s = score as int;
    let t = trunc_div(v, d);
    lemma_trunc_div(v, d);
    assert(score == saturate_i64(t)) by {
        if v >= 0 {
            assert(s <= t) by (nonlinear_arith)
                requires
                    s * d <= v < t * d + d,
                    d > 0,
            ;
            if v < s * d + d {
                assert(t <= s) by (nonlinear_arith)
                    requires
                        t * d <= v < s * d + d,
                        d > 0,
                ;
            }
        } else {
            assert(t <= s) by (nonlinear_arith)
                requires
                    t * d - d < v <= s * d,
                    d > 0,
            ;
            if s * d - d < v {
                assert(s <= t) by (nonlinear_arith)
                    requires
                        s * d - d < v <= t * d,
                        d > 0,
                ;
            }
        }
    }
    lemma_blend(m.ema_quality_x10000, scaled_quality(quality), 9, 10);
}

/// A cycle changes the average duration to nineteen twentieths of what it was and a
/// twentieth of the cycle's, and nothing else but the count of cycles. A scaled
/// duration beyond the range of the average is read as a negative number.
pub proof fn law_cycle_is_averaged(m: Metrics, duration_micros: u64)
    requires
        duration_micros * 100 <= u64::MAX,
    ensures
        ({
            let after = m.after_cycle(duration_micros);
            let length = 19 * m.ema_cycle_us_x100 + (if duration_micros * 100 <= i64::MAX {
                duration_micros * 100
            } else {
                duration_micros * 100 - 0x1_0000_0000_0000_0000
            });
            &&& length >= 0 ==> 20 * after.ema_cycle_us_x100 <= length < 20 * after.ema_cycle_us_x100 + 20
            &&& length < 0 ==> 20 * after.ema_cycle_us_x100 - 20 < length <= 20 * after.ema_cycle_us_x100
            &&& after.cycle_count == (m.cycle_count + 1) % 0x1_0000_0000_0000_0000
            &&& after.matches_formed == m.matches_formed
            &&& after.players_matched == m.players_matched
            &&& after.ema_wait_ms_x1000 == m.ema_wait_ms_x1000
            &&& after.ema_quality_x10000 == m.ema_quality_x10000
        }),
{
    lemma_blend(m.ema_cycle_us_x100, as_signed((duration_micros * 100) as u64), 19, 20);
}

/// What is reported are the counts and averages that are kept, each average divided
/// by the scale it is kept at.
pub proof fn law_report_shows_what_is_kept(m: Metrics)
    ensures
        m.reported().matches_formed == m.matches_formed,
        m.reported().players_matched == m.players_matched,
        m.reported().cycle_count == m.cycle_count,
        m.reported().avg_wait_ms.num == m.ema_wait_ms_x1000,
        m.reported().avg_wait_ms.den == 1_000,
        m.reported().avg_quality.num == m.ema_quality_x10000,
        m.reported().avg_quality.den == 10_000,
        m.reported().avg_cycle_us.num == m.ema_cycle_us_x100,
        m.reported().avg_cycle_us.den == 100,
{
}

/// A match moves the reported quality to nine tenths of what was reported before and
/// a tenth of its own score, but for less than two ten-thousandths that are dropped.
pub proof fn law_reported_quality_follows_matches(m: Metrics, quality: Ratio, avg_wait_secs: u64)
    requires
        quality.wf(),
        0 <= quality.num <= quality.den,
        m.ema_quality_x10000 >= 0,
    ensures
        ({
            let before = m.reported().avg_quality;
            let after = m.after_match(quality, avg_wait_secs).reported().avg_quality;
            let exact = 9 * before.num * quality.den + quality.num * 10_000;
            &&& before.den == 10_000
            &&& after.den == 10_000
            &&& 10 * after.num * quality.den <= exact < (10 * after.num + 11) * quality.den
        }),
{
    law_match_is_averaged(m, quality, avg_wait_secs);
    let n = quality.num as int;
    let d = quality.den as int;
    let b = m.ema_quality_x10000 as int;
    let a = m.after_match(quality, avg_wait_secs).ema_quality_x10000 as int;
    let q = (n * 10_000) / d;
    assert(q * d <= n * 10_000 < q * d + d) by (nonlinear_arith)
        requires
            q == (n * 10_000) / d,
            d > 0,
    ;
    assert(10 * a * d <= 9 * b * d + n * 10_000 < (10 * a + 11) * d) by (nonlinear_arith)
        requires
            q * d <= n * 10_000 < q * d + d,
            10 * a <= 9 * b + q < 10 * a + 10,
            d > 0,
    ;
}

/// A moving average never leaves the range between its old value and the value
/// folded in, so a value that stays the same is what the average stays at.
pub proof fn law_average_stays_between(average: i64, value: i64, keep: u8, of: u8)
    requires
        keep <= of,
        0 < of,
    ensures
        average <= value ==> average <= blended(average, value, keep, of) <= value,
        value <= average ==> value <= blended(average, value, keep, of) <= average,
{
    if average <= value {
        lemma_blend_between(average, value, keep, of, average as int, value as int);
    }
    if value <= average {
        lemma_blend_between(average, value, keep, of, value as int, average as int);
    }
}

/// As long as matches score between nothing and one, so does the average quality.
pub proof fn law_average_quality_stays_a_score(m: Metrics, quality: Ratio, avg_wait_secs: u64)
    requires
        quality.wf(),
        0 <= quality.num <= quality.den,
        0 <= m.ema_quality_x10000 <= 10_000,
    ensures
        0 <= m.after_match(quality, avg_wait_secs).ema_quality_x10000 <= 10_000,
{
    let v = quality.num * 10_000;
    let d = quality.den as int;
    assert(0 <= v / d <= 10_000) by (nonlinear_arith)
        requires
            0 <= v <= d * 10_000,
            d > 0,
    ;
    lemma_blend_between(m.ema_quality_x10000, scaled_quality(quality), 9, 10, 0, 10_000);
}

} // verus!
