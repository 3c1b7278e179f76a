//! Peaks and averages over a session.

use crate::ieee::{
    above, exactly, fit, is_zero, lemma_integer_fits, lemma_single_magnitude, one, quotient, sum,
    whole, Double, Num, Single, Width,
};
use crate::metrics::{as_double, Metrics};
use crate::rounding::{
    law_rounding_error, lemma_pow2_le, lemma_quantum_monotone, lemma_quantum_range,
    lemma_rounded_le, lemma_rounded_relative, quantum, rounded,
};
use vstd::arithmetic::div_mod::*;
use vstd::arithmetic::mul::*;
use vstd::arithmetic::power2::*;
use vstd::prelude::*;

verus! {

/// The highest reading of each kind so far, and the sums that the averages are taken from.
#[derive(Clone, Copy, Debug)]
pub struct PeakStats {
    pub cpu_power: Single,
    pub gpu_power: Single,
    pub ane_power: Single,
    pub all_power: Single,
    pub sys_power: Single,
    pub cpu_temp: Single,
    pub gpu_temp: Single,
    pub ecpu_freq: u32,
    pub pcpu_freq: u32,
    pub gpu_freq: u32,
    pub cpu_usage: Single,
    pub ram_usage: u64,
    pub sum_cpu_power: Double,
    pub sum_gpu_power: Double,
    pub sum_ane_power: Double,
    pub sum_all_power: Double,
    pub sum_sys_power: Double,
    pub count: u64,
}

/// The peak after one more reading: the reading where it compares above the peak.
pub open spec fn peak(so_far: Single, reading: Single) -> Single {
    if above(reading.num(), so_far.num()) {
        reading
    } else {
        so_far
    }
}

/// The greater of two integers.
pub open spec fn greater(a: int, b: int) -> int {
    if b > a {
        b
    } else {
        a
    }
}

/// A running sum after one more reading.
pub open spec fn added(so_far: Double, reading: Single) -> Num {
    fit(Width::Double, sum(so_far.num(), reading.num()))
}

/// The average of `count` readings that add up to `total`; zero of none.
pub open spec fn average(total: Num, count: nat) -> Num {
    if count > 0 {
        fit(Width::Single, exactly(fit(Width::Double, quotient(total, as_double(count)))))
    } else {
        whole(0)
    }
}

impl PeakStats {
    /// No sample has been taken.
    pub open spec fn is_fresh(self) -> bool {
        let zero = Num::Fin { neg: false, mag: 0 };
        &&& self.cpu_power.num() == zero
        &&& self.gpu_power.num() == zero
        &&& self.ane_power.num() == zero
        &&& self.all_power.num() == zero
        &&& self.sys_power.num() == zero
        &&& self.cpu_temp.num() == zero
        &&& self.gpu_temp.num() == zero
        &&& self.cpu_usage.num() == zero
        &&& self.sum_cpu_power.num() == zero
        &&& self.sum_gpu_power.num() == zero
        &&& self.sum_ane_power.num() == zero
        &&& self.sum_all_power.num() == zero
        &&& self.sum_sys_power.num() == zero
        &&& self.ecpu_freq == 0
        &&& self.pcpu_freq == 0
        &&& self.gpu_freq == 0
        &&& self.ram_usage == 0
        &&& self.count == 0
    }

    /// `next` is `self` after the sample `m`.
    pub open spec fn advances(self, m: Metrics, next: PeakStats) -> bool {
        &&& next.cpu_power == peak(self.cpu_power, m.cpu_power)
        &&& next.gpu_power == peak(self.gpu_power, m.gpu_power)
        &&& next.ane_power == peak(self.ane_power, m.ane_power)
        &&& next.all_power == peak(self.all_power, m.all_power)
        &&& next.sys_power == peak(self.sys_power, m.sys_power)
        &&& next.cpu_temp == peak(self.cpu_temp, m.temp.cpu_temp_avg)
        &&& next.gpu_temp == peak(self.gpu_temp, m.temp.gpu_temp_avg)
        &&& next.ecpu_freq == greater(self.ecpu_freq as int, m.ecpu_usage.0 as int)
        &&& next.pcpu_freq == greater(self.pcpu_freq as int, m.pcpu_usage.0 as int)
        &&& next.gpu_freq == greater(self.gpu_freq as int, m.gpu_usage.0 as int)
        &&& next.cpu_usage == peak(self.cpu_usage, m.cpu_usage_pct)
        &&& next.ram_usage == greater(self.ram_usage as int, m.memory.ram_usage as int)
        &&& next.sum_cpu_power.num() == added(self.sum_cpu_power, m.cpu_power)
        &&& next.sum_gpu_power.num() == added(self.sum_gpu_power, m.gpu_power)
        &&& next.sum_ane_power.num() == added(self.sum_ane_power, m.ane_power)
        &&& next.sum_all_power.num() == added(self.sum_all_power, m.all_power)
        &&& next.sum_sys_power.num() == added(self.sum_sys_power, m.sys_power)
        &&& next.count == self.count + 1
    }

    /// No reading of `m` compares above its peak.
    pub open spec fn covers(self, m: Metrics) -> bool {
        &&& !above(m.cpu_power.num(), self.cpu_power.num())
        &&& !above(m.gpu_power.num(), self.gpu_power.num())
        &&& !above(m.ane_power.num(), self.ane_power.num())
        &&& !above(m.all_power.num(), self.all_power.num())
        &&& !above(m.sys_power.num(), self.sys_power.num())
        &&& !above(m.temp.cpu_temp_avg.num(), self.cpu_temp.num())
        &&& !above(m.temp.gpu_temp_avg.num(), self.gpu_temp.num())
        &&& m.ecpu_usage.0 <= self.ecpu_freq
        &&& m.pcpu_usage.0 <= self.pcpu_freq
        &&& m.gpu_usage.0 <= self.gpu_freq
        &&& !above(m.cpu_usage_pct.num(), self.cpu_usage.num())
        &&& m.memory.ram_usage <= self.ram_usage
    }

    /// The state before the first sample.
    pub fn new() -> (r: PeakStats)
        ensures
            r.is_fresh(),
    {
        PeakStats {
            cpu_power: Single::zero(),
            gpu_power: Single::zero(),
            ane_power: Single::zero(),
            all_power: Single::zero(),
            sys_power: Single::zero(),
            cpu_temp: Single::zero(),
            gpu_temp: Single::zero(),
            ecpu_freq: 0,
            pcpu_freq: 0,
            gpu_freq: 0,
            cpu_usage: Single::zero(),
            ram_usage: 0,
            sum_cpu_power: Double::zero(),
            sum_gpu_power: Double::zero(),
            sum_ane_power: Double::zero(),
            sum_all_power: Double::zero(),
            sum_sys_power: Double::zero(),
            count: 0,
        }
    }

    /// Takes one more sample in.
    pub fn update(&mut self, m: &Metrics)
        requires
            old(self).count < u64::MAX,
        ensures
            old(self).advances(*m, *final(self)),
    {
        self.cpu_power = peak_of(self.cpu_power, m.cpu_power);
        self.gpu_power = peak_of(self.gpu_power, m.gpu_power);
        self.ane_power = peak_of(self.ane_power, m.ane_power);
        self.all_power = peak_of(self.all_power, m.all_power);
        self.sys_power = peak_of(self.sys_power, m.sys_power);
        self.cpu_temp = peak_of(self.cpu_temp, m.temp.cpu_temp_avg);
        self.gpu_temp = peak_of(self.gpu_temp, m.temp.gpu_temp_avg);
        if m.ecpu_usage.0 > self.ecpu_freq {
            self.ecpu_freq = m.ecpu_usage.0;
        }
        if m.pcpu_usage.0 > self.pcpu_freq {
            self.pcpu_freq = m.pcpu_usage.0;
        }
        if m.gpu_usage.0 > self.gpu_freq {
            self.gpu_freq = m.gpu_usage.0;
        }
        self.cpu_usage = peak_of(self.cpu_usage, m.cpu_usage_pct);
        if m.memory.ram_usage > self.ram_usage {
            self.ram_usage = m.memory.ram_usage;
        }
        self.sum_cpu_power = self.sum_cpu_power.plus(Double::from_single(m.cpu_power));
        self.sum_gpu_power = self.sum_gpu_power.plus(Double::from_single(m.gpu_power));
        self.sum_ane_power = self.sum_ane_power.plus(Double::from_single(m.ane_power));
        self.sum_all_power = self.sum_all_power.plus(Double::from_single(m.all_power));
        self.sum_sys_power = self.sum_sys_power.plus(Double::from_single(m.sys_power));
        self.count = self.count + 1;
    }

    /// The average CPU power.
    pub fn avg_cpu_power(&self) -> (r: Single)
        ensures
            r.num() == average(self.sum_cpu_power.num(), self.count as nat),
    {
        average_of(self.sum_cpu_power, self.count)
    }

    /// The average GPU power.
    pub fn avg_gpu_power(&self) -> (r: Single)
        ensures
            r.num() == average(self.sum_gpu_power.num(), self.count as nat),
    {
        average_of(self.sum_gpu_power, self.count)
    }

    /// The average power of the neural engine.
    pub fn avg_ane_power(&self) -> (r: Single)
        ensures
            r.num() == average(self.sum_ane_power.num(), self.count as nat),
    {
        average_of(self.sum_ane_power, self.count)
    }

    /// The average power of the whole chip.
    pub fn avg_all_power(&self) -> (r: Single)
        ensures
            r.num() == average(self.sum_all_power.num(), self.count as nat),
    {
        average_of(self.sum_all_power, self.count)
    }

    /// The average power of the whole system.
    pub fn avg_sys_power(&self) -> (r: Single)
        ensures
            r.num() == average(self.sum_sys_power.num(), self.count as nat),
    {
        average_of(self.sum_sys_power, self.count)
    }
}

fn peak_of(so_far: Single, reading: Single) -> (r: Single)
    ensures
        r == peak(so_far, reading),
{
    if reading.exceeds(so_far) {
        reading
    } else {
        so_far
    }
}

fn average_of(total: Double, count: u64) -> (r: Single)
    ensures
        r.num() == average(total.num(), count as nat),
{
    if count > 0 {
        Single::from_double(total.over(Double::from_u64(count)))
    } else {
        Single::from_u16(0)
    }
}

/// A peak is not below the reading that was taken in, nor below what it was, and what it covered
/// it still covers.
proof fn lemma_peak(so_far: Single, reading: Single, earlier: Single)
    ensures
        !above(reading.num(), peak(so_far, reading).num()),
        !above(earlier.num(), so_far.num()) ==> !above(earlier.num(), peak(so_far, reading).num()),
{
}

/// A sample that was taken in is covered, and so is what was covered before.
proof fn lemma_covers(p: PeakStats, m: Metrics, q: PeakStats, x: Metrics)
    requires
        p.advances(m, q),
    ensures
        q.covers(m),
        p.covers(x) ==> q.covers(x),
{
    lemma_peak(p.cpu_power, m.cpu_power, x.cpu_power);
    lemma_peak(p.gpu_power, m.gpu_power, x.gpu_power);
    lemma_peak(p.ane_power, m.ane_power, x.ane_power);
    lemma_peak(p.all_power, m.all_power, x.all_power);
    lemma_peak(p.sys_power, m.sys_power, x.sys_power);
    lemma_peak(p.cpu_temp, m.temp.cpu_temp_avg, x.temp.cpu_temp_avg);
    lemma_peak(p.gpu_temp, m.temp.gpu_temp_avg, x.temp.gpu_temp_avg);
    lemma_peak(p.cpu_usage, m.cpu_usage_pct, x.cpu_usage_pct);
}

/// `states[i]` is the state before the sample `samples[i]`, from the very first on.
pub open spec fn is_session(states: Seq<PeakStats>, samples: Seq<Metrics>) -> bool {
    &&& states.len() == samples.len() + 1
    &&& states[0].is_fresh()
    &&& forall|i: int|
        0 <= i < samples.len() ==> states[i].advances(#[trigger] samples[i], states[i + 1])
}

proof fn lemma_covers_all(states: Seq<PeakStats>, samples: Seq<Metrics>, k: int)
    requires
        is_session(states, samples),
        0 <= k < states.len(),
    ensures
        states[k].count == k,
        forall|i: int| 0 <= i < k ==> states[k].covers(#[trigger] samples[i]),
    decreases k,
{
    if k > 0 {
        lemma_covers_all(states, samples, k - 1);
        assert(states[k - 1].advances(samples[k - 1], states[k]));
        assert forall|i: int| 0 <= i < k implies states[k].covers(#[trigger] samples[i]) by {
            lemma_covers(states[k - 1], samples[k - 1], states[k], samples[i]);
        }
    }
}

/// After a session the peaks cover every sample that was taken in, and the count is their number.
pub proof fn law_peaks_cover_the_session(states: Seq<PeakStats>, samples: Seq<Metrics>)
    requires
        is_session(states, samples),
    ensures
        states.last().count == samples.len(),
        forall|i: int| 0 <= i < samples.len() ==> states.last().covers(#[trigger] samples[i]),
{
    lemma_covers_all(states, samples, samples.len() as int);
}

/// A peak is zero, or one of the readings.
pub open spec fn was_read(
    peak: Single,
    samples: Seq<Metrics>,
    reading: spec_fn(Metrics) -> Single,
) -> bool {
    is_zero(peak.num()) || exists|i: int|
        0 <= i < samples.len() && reading(#[trigger] samples[i]) == peak
}

/// A peak is zero, or one of the values.
pub open spec fn was_seen(
    peak: int,
    samples: Seq<Metrics>,
    value: spec_fn(Metrics) -> int,
) -> bool {
    peak == 0 || exists|i: int| 0 <= i < samples.len() && value(#[trigger] samples[i]) == peak
}

/// `field` is the peak of `reading`.
pub open spec fn is_peak_of(
    field: spec_fn(PeakStats) -> Single,
    reading: spec_fn(Metrics) -> Single,
) -> bool {
    &&& forall|p: PeakStats| #[trigger] p.is_fresh() ==> is_zero(field(p).num())
    &&& forall|p: PeakStats, m: Metrics, q: PeakStats| #[trigger]
        p.advances(m, q) ==> field(q) == peak(field(p), reading(m))
}

pub proof fn lemma_was_read(
    states: Seq<PeakStats>,
    samples: Seq<Metrics>,
    field: spec_fn(PeakStats) -> Single,
    reading: spec_fn(Metrics) -> Single,
    k: int,
)
    requires
        is_session(states, samples),
        is_peak_of(field, reading),
        0 <= k < states.len(),
    ensures
        was_read(field(states[k]), samples, reading),
    decreases k,
{
    if k > 0 {
        lemma_was_read(states, samples, field, reading, k - 1);
        assert(states[k - 1].advances(samples[k - 1], states[k]));
    } else {
        assert(states[0].is_fresh());
    }
}

/// A peak is a number, whatever was read.
pub proof fn lemma_peak_is_number(
    states: Seq<PeakStats>,
    samples: Seq<Metrics>,
    field: spec_fn(PeakStats) -> Single,
    reading: spec_fn(Metrics) -> Single,
    k: int,
)
    requires
        is_session(states, samples),
        is_peak_of(field, reading),
        0 <= k < states.len(),
    ensures
        !(field(states[k]).num() is Nan),
    decreases k,
{
    if k > 0 {
        lemma_peak_is_number(states, samples, field, reading, k - 1);
        assert(states[k - 1].advances(samples[k - 1], states[k]));
    } else {
        assert(states[0].is_fresh());
    }
}

proof fn lemma_was_seen(
    states: Seq<PeakStats>,
    samples: Seq<Metrics>,
    field: spec_fn(PeakStats) -> int,
    value: spec_fn(Metrics) -> int,
    k: int,
)
    requires
        is_session(states, samples),
        forall|p: PeakStats| #[trigger] p.is_fresh() ==> field(p) == 0,
        forall|p: PeakStats, m: Metrics, q: PeakStats| #[trigger]
            p.advances(m, q) ==> field(q) == greater(field(p), value(m)),
        0 <= k < states.len(),
    ensures
        was_seen(field(states[k]), samples, value),
    decreases k,
{
    if k > 0 {
        lemma_was_seen(states, samples, field, value, k - 1);
        assert(states[k - 1].advances(samples[k - 1], states[k]));
    } else {
        assert(states[0].is_fresh());
    }
}

/// After a session every peak is zero, or was read.
pub proof fn law_peaks_were_read(states: Seq<PeakStats>, samples: Seq<Metrics>)
    requires
        is_session(states, samples),
    ensures
        was_read(states.last().cpu_power, samples, |m: Metrics| m.cpu_power),
        was_read(states.last().gpu_power, samples, |m: Metrics| m.gpu_power),
        was_read(states.last().ane_power, samples, |m: Metrics| m.ane_power),
        was_read(states.last().all_power, samples, |m: Metrics| m.all_power),
        was_read(states.last().sys_power, samples, |m: Metrics| m.sys_power),
        was_read(states.last().cpu_temp, samples, |m: Metrics| m.temp.cpu_temp_avg),
        was_read(states.last().gpu_temp, samples, |m: Metrics| m.temp.gpu_temp_avg),
        was_read(states.last().cpu_usage, samples, |m: Metrics| m.cpu_usage_pct),
        was_seen(states.last().ecpu_freq as int, samples, |m: Metrics| m.ecpu_usage.0 as int),
        was_seen(states.last().pcpu_freq as int, samples, |m: Metrics| m.pcpu_usage.0 as int),
        was_seen(states.last().gpu_freq as int, samples, |m: Metrics| m.gpu_usage.0 as int),
        was_seen(states.last().ram_usage as int, samples, |m: Metrics| m.memory.ram_usage as int),
{
    let n = samples.len() as int;
    lemma_was_read(states, samples, |p: PeakStats| p.cpu_power, |m: Metrics| m.cpu_power, n);
    lemma_was_read(states, samples, |p: PeakStats| p.gpu_power, |m: Metrics| m.gpu_power, n);
    lemma_was_read(states, samples, |p: PeakStats| p.ane_power, |m: Metrics| m.ane_power, n);
    lemma_was_read(states, samples, |p: PeakStats| p.all_power, |m: Metrics| m.all_power, n);
    lemma_was_read(states, samples, |p: PeakStats| p.sys_power, |m: Metrics| m.sys_power, n);
    lemma_was_read(states, samples, |p: PeakStats| p.cpu_temp, |m: Metrics| m.temp.cpu_temp_avg, n);
    lemma_was_read(states, samples, |p: PeakStats| p.gpu_temp, |m: Metrics| m.temp.gpu_temp_avg, n);
    lemma_was_read(states, samples, |p: PeakStats| p.cpu_usage, |m: Metrics| m.cpu_usage_pct, n);
    lemma_was_seen(
        states,
        samples,
        |p: PeakStats| p.ecpu_freq as int,
        |m: Metrics| m.ecpu_usage.0 as int,
        n,
    );
    lemma_was_seen(
        states,
        samples,
        |p: PeakStats| p.pcpu_freq as int,
        |m: Metrics| m.pcpu_usage.0 as int,
        n,
    );
    lemma_was_seen(
        states,
        samples,
        |p: PeakStats| p.gpu_freq as int,
        |m: Metrics| m.gpu_usage.0 as int,
        n,
    );
    lemma_was_seen(
        states,
        samples,
        |p: PeakStats| p.ram_usage as int,
        |m: Metrics| m.memory.ram_usage as int,
        n,
    );
}

/// Every reading is a finite number that is not negative.
pub open spec fn all_proper(samples: Seq<Metrics>, reading: spec_fn(Metrics) -> Single) -> bool {
    forall|i: int| 0 <= i < samples.len() ==> is_proper(reading(#[trigger] samples[i]).num())
}

/// A finite number that is not negative; a negative zero counts as zero.
pub open spec fn is_proper(x: Num) -> bool {
    x matches Num::Fin { neg, mag } && (neg ==> mag == 0)
}

/// The sum of the readings, in units.
pub open spec fn magnitudes(samples: Seq<Metrics>, reading: spec_fn(Metrics) -> Single) -> nat
    decreases samples.len(),
{
    if samples.len() == 0 {
        0
    } else {
        magnitudes(samples.drop_last(), reading) + reading(samples.last()).num()->Fin_mag
    }
}

/// The distance between `binary32` values of the size of `mag`.
pub open spec fn single_step(mag: nat) -> nat {
    pow2(quantum(mag, 24, 925))
}

/// `avg` is an average of the readings: not negative, not above their peak, and within one step of
/// `binary32`, at the size of the peak, of their mean.
pub open spec fn is_fair(
    avg: Num,
    peak: Num,
    samples: Seq<Metrics>,
    reading: spec_fn(Metrics) -> Single,
) -> bool {
    let n = samples.len();
    let all = magnitudes(samples, reading);
    &&& avg matches Num::Fin { neg, .. } && !neg
    &&& is_proper(peak)
    &&& !above(avg, peak)
    &&& n * avg->Fin_mag - all <= n * single_step(peak->Fin_mag)
    &&& all - n * avg->Fin_mag <= n * single_step(peak->Fin_mag)
}

/// `total` is the running sum of `reading`.
spec fn is_sum_of(
    total: spec_fn(PeakStats) -> Double,
    reading: spec_fn(Metrics) -> Single,
) -> bool {
    &&& forall|p: PeakStats| #[trigger]
        p.is_fresh() ==> total(p).num() == (Num::Fin { neg: false, mag: 0 })
    &&& forall|p: PeakStats, m: Metrics, q: PeakStats| #[trigger]
        p.advances(m, q) ==> total(q).num() == added(total(p), reading(m))
}

/// One more reading: the sum stays under its bound, and its error grows by what one rounding adds.
proof fn lemma_added(s: nat, x: Num, t: nat, k: nat, m: nat, e: nat)
    requires
        is_proper(x),
        x->Fin_mag <= m * pow2(e),
        m < pow2(24),
        e <= 1178,
        k < pow2(28),
        s <= k * (m * pow2(e)),
        (s - t) * pow2(53) <= k * k * (m * pow2(e)),
        (t - s) * pow2(53) <= k * k * (m * pow2(e)),
    ensures
        ({
            let top = m * pow2(e);
            let r = fit(Width::Double, sum(Num::Fin { neg: false, mag: s }, x));
            let after = t + x->Fin_mag;
            &&& r matches Num::Fin { neg, .. } && !neg
            &&& r->Fin_mag <= (k + 1) * top
            &&& (r->Fin_mag - after) * pow2(53) <= (k + 1) * (k + 1) * top
            &&& (after - r->Fin_mag) * pow2(53) <= (k + 1) * (k + 1) * top
        }),
{
    let top = m * pow2(e);
    let n = s + x->Fin_mag;
    let r = rounded(n, 1, 53, 0);
    let j = (k + 1) * m;
    lemma2_to64();
    lemma2_to64_rest();
    lemma_pow2_pos(e);
    assert((k + 1) * top == k * top + top) by (nonlinear_arith);
    assert((k + 1) * top == j * pow2(e)) by (nonlinear_arith)
        requires
            top == m * pow2(e),
            j == (k + 1) * m,
    ;
    assert(j < pow2(53)) by (nonlinear_arith)
        requires
            j == (k + 1) * m,
            k + 1 <= 0x1000_0000,
            m < 0x100_0000,
            pow2(53) == 0x20_0000_0000_0000,
            m >= 0,
    ;
    lemma_mul_basics(((k + 1) * top) as int);
    lemma_rounded_le(n, 1, j, e, 53, 0);
    lemma_pow2_adds(53, e);
    lemma_pow2_le(53 + e, 2098);
    assert(j * pow2(e) < pow2(53) * pow2(e)) by (nonlinear_arith)
        requires
            j < pow2(53),
            pow2(e) > 0,
    ;
    lemma_rounded_relative(n, 53);
    let c = (t + x->Fin_mag) - r;
    let big = pow2(53);
    assert(c * big == (t - s) * big + (n - r) * big) by (nonlinear_arith)
        requires
            c == (t - s) + (n - r),
    ;
    assert(-c * big == (s - t) * big + (r - n) * big) by (nonlinear_arith)
        requires
            c == (t - s) + (n - r),
    ;
    assert((k + 1) * (k + 1) * top == k * k * top + k * top + (k + 1) * top) by (nonlinear_arith);
    assert(k * top >= 0) by (nonlinear_arith)
        requires
            k >= 0,
            top >= 0,
    ;
}

proof fn lemma_running_sum(
    states: Seq<PeakStats>,
    samples: Seq<Metrics>,
    total: spec_fn(PeakStats) -> Double,
    reading: spec_fn(Metrics) -> Single,
    m: nat,
    e: nat,
    k: nat,
)
    requires
        is_session(states, samples),
        is_sum_of(total, reading),
        all_proper(samples, reading),
        forall|i: int|
            0 <= i < samples.len() ==> reading(#[trigger] samples[i]).num()->Fin_mag <= m * pow2(e),
        m < pow2(24),
        e <= 1178,
        k < states.len(),
        samples.len() < pow2(28),
    ensures
        ({
            let top = m * pow2(e);
            let s = total(states[k as int]).num();
            let t = magnitudes(samples.take(k as int), reading);
            &&& s matches Num::Fin { neg, .. } && !neg
            &&& s->Fin_mag <= k * top
            &&& (s->Fin_mag - t) * pow2(53) <= k * k * top
            &&& (t - s->Fin_mag) * pow2(53) <= k * k * top
        }),
    decreases k,
{
    if k > 0 {
        let j = (k - 1) as nat;
        lemma_running_sum(states, samples, total, reading, m, e, j);
        assert(states[j as int].advances(samples[j as int], states[k as int]));
        assert(is_proper(reading(samples[j as int]).num()));
        assert(samples.take(k as int).drop_last() =~= samples.take(j as int));
        let s = total(states[j as int]).num()->Fin_mag;
        let t = magnitudes(samples.take(j as int), reading);
        lemma_added(s, reading(samples[j as int]).num(), t, j, m, e);
    } else {
        assert(states[0].is_fresh());
        assert(samples.take(0).len() == 0);
        lemma_mul_basics((m * pow2(e)) as int);
        lemma_mul_basics(pow2(53) as int);
    }
}

/// The average of a sum that is close to `t`.
proof fn lemma_average(s: nat, t: nat, n: nat, m: nat, e: nat)
    requires
        1 <= n < pow2(28),
        m < pow2(24),
        925 <= e <= 1178,
        s <= n * (m * pow2(e)),
        (s - t) * pow2(53) <= n * n * (m * pow2(e)),
        (t - s) * pow2(53) <= n * n * (m * pow2(e)),
    ensures
        ({
            let top = m * pow2(e);
            let avg = average(Num::Fin { neg: false, mag: s }, n);
            &&& avg matches Num::Fin { neg, .. } && !neg
            &&& avg->Fin_mag <= top
            &&& n * avg->Fin_mag - t <= n * single_step(top)
            &&& t - n * avg->Fin_mag <= n * single_step(top)
        }),
{
    let u = one();
    let top = m * pow2(e);
    lemma2_to64();
    lemma2_to64_rest();
    lemma_pow2_pos(1074);
    lemma_pow2_pos(e);
    lemma_pow2_le(24, 53);
    lemma_integer_fits(n);
    // the quotient
    let d = n * u;
    assert(d > 0) by (nonlinear_arith)
        requires
            d == n * u,
            n > 0,
            u > 0,
    ;
    assert(s * u <= top * d) by (nonlinear_arith)
        requires
            s <= n * top,
            d == n * u,
            u > 0,
    ;
    lemma_rounded_le(s * u, d, m, e, 53, 0);
    let a = rounded(s * u, d, 53, 0);
    lemma_pow2_adds(24, e);
    lemma_pow2_le(24 + e, 1202);
    lemma_pow2_le(1202, 2098);
    assert(top < pow2(24) * pow2(e)) by (nonlinear_arith)
        requires
            top == m * pow2(e),
            m < pow2(24),
            pow2(e) > 0,
    ;
    assert(fit(Width::Double, quotient(Num::Fin { neg: false, mag: s }, as_double(n)))
        == (Num::Fin { neg: false, mag: a })) by {
        assert(n * u != 0);
    }
    // the narrower format
    lemma_mul_basics(top as int);
    lemma_rounded_le(a, 1, m, e, 24, 925);
    let v = rounded(a, 1, 24, 925);
    // the errors
    law_rounding_error(s * u, d, 53, 0);
    law_rounding_error(a, 1, 24, 925);
    lemma_div_basics(a as int);
    lemma_mul_basics(v as int);
    let near = pow2(quantum((s * u) / d, 53, 0));
    let fine = pow2(quantum(a, 24, 925));
    let step = single_step(top);
    lemma_mul_basics(fine as int);
    lemma_quantum_monotone(a, top, 24, 925);
    lemma_pow2_le(quantum(a, 24, 925), quantum(top, 24, 925));
    lemma_quantum_range(top, 24, 925);
    lemma_pow2_adds(24, quantum(top, 24, 925));
    assert(m > 0 ==> near * pow2(52) <= top) by {
        if m > 0 {
            assert(top >= pow2(e)) by (nonlinear_arith)
                requires
                    top == m * pow2(e),
                    m >= 1,
                    pow2(e) > 0,
            ;
            lemma_pow2_le(925, e);
            lemma_div_is_ordered((s * u) as int, (top * d) as int, d as int);
            lemma_div_by_multiple(top as int, d as int);
            lemma_quantum_monotone((s * u) / d, top, 53, 0);
            let g = quantum(top, 53, 0);
            lemma_quantum_range(top, 53, 0);
            lemma_pow2_le(quantum((s * u) / d, 53, 0), g);
            lemma_pow2_strictly_increases(53, 925);
            lemma_pow2_adds(52, g);
            assert(g > 0);
            lemma_mul_is_commutative(near as int, pow2(52) as int);
            lemma_mul_inequality(near as int, pow2(g) as int, pow2(52) as int);
        }
    }
    if m == 0 {
        lemma_mul_basics(pow2(e) as int);
        lemma_mul_basics(n as int);
        lemma_mul_basics((n * n) as int);
        assert(t == 0) by (nonlinear_arith)
            requires
                (t - s) * pow2(53) <= 0,
                s == 0,
                t >= 0,
                pow2(53) > 0,
        ;
        lemma_pow2_pos(quantum(top, 24, 925));
        assert(n * step >= 0) by (nonlinear_arith)
            requires
                n >= 1,
                step >= 0,
        ;
    } else {
        assert(2 * (s - a * n) <= n * near && 2 * (a * n - s) <= n * near) by (nonlinear_arith)
            requires
                2 * (s * u - a * d) <= d * near,
                2 * (a * d - s * u) <= d * near,
                d == n * u,
                u > 0,
        ;
        lemma_average_error(s, t, n, a, v, top, near, fine, step);
    }
}

/// The errors of sum, quotient and narrower format, put together.
proof fn lemma_average_error(
    s: nat,
    t: nat,
    n: nat,
    a: nat,
    v: nat,
    top: nat,
    near: nat,
    fine: nat,
    step: nat,
)
    requires
        1 <= n < pow2(28),
        near * pow2(52) <= top,
        top < pow2(24) * step,
        fine <= step,
        (s - t) * pow2(53) <= n * n * top,
        (t - s) * pow2(53) <= n * n * top,
        2 * (s - a * n) <= n * near,
        2 * (a * n - s) <= n * near,
        2 * (a - v) <= fine,
        2 * (v - a) <= fine,
    ensures
        n * v - t <= n * step,
        t - n * v <= n * step,
{
    lemma2_to64();
    lemma2_to64_rest();
    let h = pow2(52);
    let x = n * v - t;
    let p = n * (v - a);
    let q = n * a - s;
    assert(x == p + q + (s - t)) by (nonlinear_arith)
        requires
            x == n * v - t,
            p == n * (v - a),
            q == n * a - s,
    ;
    lemma_mul_is_commutative(a as int, n as int);
    assert(2 * p <= n * step && -2 * p <= n * step) by (nonlinear_arith)
        requires
            p == n * (v - a),
            2 * (v - a) <= step,
            -2 * (v - a) <= step,
            n >= 1,
    ;
    assert(2 * q * h <= n * top && -2 * q * h <= n * top) by (nonlinear_arith)
        requires
            2 * q <= n * near,
            -2 * q <= n * near,
            near * h <= top,
            n >= 1,
            h > 0,
    {
        assert((2 * q) * h <= (n * near) * h);
        assert((-2 * q) * h <= (n * near) * h);
        assert((n * near) * h == n * (near * h));
        assert(n * (near * h) <= n * top);
    }
    let all = n * step;
    assert(n * top + n * n * top <= h * all) by (nonlinear_arith)
        requires
            all == n * step,
            n + 1 <= 0x1000_0000,
            top <= 0x100_0000 * step,
            h == 0x10_0000_0000_0000,
            n >= 1,
            step >= 0,
    {
        assert(n * top + n * n * top == n * ((n + 1) * top));
        assert((n + 1) * top <= 0x1000_0000 * top);
        assert((n + 1) * top <= h * step);
        assert(n * ((n + 1) * top) <= n * (h * step));
        assert(n * (h * step) == h * (n * step));
    }
    let w = s - t;
    assert((2 * x) * h <= (2 * all) * h && (-2 * x) * h <= (2 * all) * h) by (nonlinear_arith)
        requires
            x == p + q + w,
            2 * p <= all,
            -2 * p <= all,
            2 * q * h <= n * top,
            -2 * q * h <= n * top,
            w * (2 * h) <= n * n * top,
            -w * (2 * h) <= n * n * top,
            n * top + n * n * top <= h * all,
            h > 0,
    {
        assert((2 * x) * h == (2 * p) * h + 2 * q * h + w * (2 * h));
        assert((2 * p) * h <= all * h);
        assert((-2 * p) * h <= all * h);
    }
    assert(x <= all && -x <= all) by (nonlinear_arith)
        requires
            (2 * x) * h <= (2 * all) * h,
            (-2 * x) * h <= (2 * all) * h,
            h > 0,
    ;
}

proof fn lemma_fair(
    states: Seq<PeakStats>,
    samples: Seq<Metrics>,
    field: spec_fn(PeakStats) -> Single,
    total: spec_fn(PeakStats) -> Double,
    reading: spec_fn(Metrics) -> Single,
)
    requires
        is_session(states, samples),
        is_peak_of(field, reading),
        is_sum_of(total, reading),
        forall|p: PeakStats, m: Metrics| #[trigger]
            p.covers(m) ==> !above(reading(m).num(), field(p).num()),
        1 <= samples.len() < pow2(28),
        all_proper(samples, reading),
    ensures
        is_fair(
            average(total(states.last()).num(), states.last().count as nat),
            field(states.last()).num(),
            samples,
            reading,
        ),
{
    let n = samples.len();
    let last = states.last();
    law_peaks_cover_the_session(states, samples);
    lemma_was_read(states, samples, field, reading, n as int);
    let peak = field(last);
    assert(is_proper(peak.num())) by {
        if !is_zero(peak.num()) {
            let i = choose|i: int|
                0 <= i < samples.len() && reading(#[trigger] samples[i]) == peak;
            assert(is_proper(reading(samples[i]).num()));
        }
    }
    let (m, e) = lemma_single_magnitude(peak);
    assert forall|i: int| 0 <= i < n implies reading(#[trigger] samples[i]).num()->Fin_mag <= m
        * pow2(e) by {
        assert(is_proper(reading(samples[i]).num()));
        assert(last.covers(samples[i]));
    }
    lemma_running_sum(states, samples, total, reading, m, e, n);
    assert(samples.take(n as int) =~= samples);
    lemma_average(total(last).num()->Fin_mag, magnitudes(samples, reading), n, m, e);
}

/// After a session of fewer than `2^28` samples every average of powers that were read as finite
/// numbers, none of them negative, lies between zero and their peak, within one step of `binary32`
/// of their mean.
pub proof fn law_averages_are_fair(states: Seq<PeakStats>, samples: Seq<Metrics>)
    requires
        is_session(states, samples),
        samples.len() < pow2(28),
    ensures
        all_proper(samples, |m: Metrics| m.cpu_power) ==> is_fair(
            average(states.last().sum_cpu_power.num(), samples.len()),
            states.last().cpu_power.num(),
            samples,
            |m: Metrics| m.cpu_power,
        ),
        all_proper(samples, |m: Metrics| m.gpu_power) ==> is_fair(
            average(states.last().sum_gpu_power.num(), samples.len()),
            states.last().gpu_power.num(),
            samples,
            |m: Metrics| m.gpu_power,
        ),
        all_proper(samples, |m: Metrics| m.ane_power) ==> is_fair(
            average(states.last().sum_ane_power.num(), samples.len()),
            states.last().ane_power.num(),
            samples,
            |m: Metrics| m.ane_power,
        ),
        all_proper(samples, |m: Metrics| m.all_power) ==> is_fair(
            average(states.last().sum_all_power.num(), samples.len()),
            states.last().all_power.num(),
            samples,
            |m: Metrics| m.all_power,
        ),
        all_proper(samples, |m: Metrics| m.sys_power) ==> is_fair(
            average(states.last().sum_sys_power.num(), samples.len()),
            states.last().sys_power.num(),
            samples,
            |m: Metrics| m.sys_power,
        ),
{
    law_peaks_cover_the_session(states, samples);
    if samples.len() == 0 {
        assert(states.last().is_fresh());
        lemma_mul_basics(one() as int);
        assert(is_proper(whole(0)));
    }
    if samples.len() > 0 && all_proper(samples, |m: Metrics| m.cpu_power) {
        lemma_fair(
            states,
            samples,
            |p: PeakStats| p.cpu_power,
            |p: PeakStats| p.sum_cpu_power,
            |m: Metrics| m.cpu_power,
        );
    }
    if samples.len() > 0 && all_proper(samples, |m: Metrics| m.gpu_power) {
        lemma_fair(
            states,
            samples,
            |p: PeakStats| p.gpu_power,
            |p: PeakStats| p.sum_gpu_power,
            |m: Metrics| m.gpu_power,
        );
    }
    if samples.len() > 0 && all_proper(samples, |m: Metrics| m.ane_power) {
        lemma_fair(
            states,
            samples,
            |p: PeakStats| p.ane_power,
            |p: PeakStats| p.sum_ane_power,
            |m: Metrics| m.ane_power,
        );
    }
    if samples.len() > 0 && all_proper(samples, |m: Metrics| m.all_power) {
        lemma_fair(
            states,
            samples,
            |p: PeakStats| p.all_power,
            |p: PeakStats| p.sum_all_power,
            |m: Metrics| m.all_power,
        );
    }
    if samples.len() > 0 && all_proper(samples, |m: Metrics| m.sys_power) {
        lemma_fair(
            states,
            samples,
            |p: PeakStats| p.sys_power,
            |p: PeakStats| p.sum_sys_power,
            |m: Metrics| m.sys_power,
        );
    }
}

} // verus!
