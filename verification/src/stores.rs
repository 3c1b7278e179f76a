//! The short histories behind the charts, newest value first.

use crate::float_laws::law_truncated;
use crate::ieee::{
    above, fit, is_zero, law_fit_is_monotone, lemma_integer_fits, one, opposite, product, quotient,
    signed, sum, truncated, whole, Double, Num, Single, Width,
};
use crate::metrics::{as_double, MemMetrics};
use crate::report::{law_percentage_is_close, lemma_percentage_bound, percentage};
use crate::rounding::{
    lemma_pow2_le, lemma_rounded_le, lemma_rounded_ratio, lemma_rounded_relative,
    lemma_rounded_same, reveal_pow2_zero, rounded,
};
use vstd::arithmetic::div_mod::*;
use vstd::arithmetic::mul::*;
use vstd::arithmetic::power2::*;
use vstd::prelude::*;

verus! {

/// How many values a chart keeps.
pub const MAX_SPARKLINE: usize = 128;

/// How many temperatures are kept.
pub const MAX_TEMPS: usize = 8;

/// `items` with `value` in front, cut off after `cap` values.
pub open spec fn pushed<T>(items: Seq<T>, value: T, cap: nat) -> Seq<T> {
    let all = seq![value] + items;
    if all.len() <= cap {
        all
    } else {
        all.take(cap as int)
    }
}

/// The sum of the values.
pub open spec fn total(items: Seq<u64>) -> nat
    decreases items.len(),
{
    if items.len() == 0 {
        0
    } else {
        total(items.drop_last()) + items.last() as nat
    }
}

/// The greatest of the values, or zero where there is none.
pub open spec fn greatest(items: Seq<u64>) -> u64
    decreases items.len(),
{
    if items.len() == 0 {
        0
    } else if items.last() > greatest(items.drop_last()) {
        items.last()
    } else {
        greatest(items.drop_last())
    }
}

/// The greatest value is one of the values, and none is greater.
pub proof fn law_greatest(items: Seq<u64>)
    ensures
        forall|i: int| 0 <= i < items.len() ==> #[trigger] items[i] <= greatest(items),
        items.len() > 0 ==> items.contains(greatest(items)),
        items.len() == 0 ==> greatest(items) == 0,
    decreases items.len(),
{
    if items.len() > 0 {
        let rest = items.drop_last();
        law_greatest(rest);
        assert forall|i: int| 0 <= i < items.len() implies #[trigger] items[i] <= greatest(items) by {
            if i < rest.len() {
                assert(rest[i] == items[i]);
            }
        }
        assert(items[items.len() - 1] == items.last());
        if rest.len() > 0 {
            let j = choose|j: int| 0 <= j < rest.len() && rest[j] == greatest(rest);
            assert(items[j] == greatest(rest));
        }
    }
}

fn push_front(items: &mut Vec<u64>, value: u64, cap: usize)
    requires
        old(items).len() < usize::MAX,
    ensures
        final(items)@ == pushed(old(items)@, value, cap as nat),
{
    let ghost before = items@;
    items.insert(0, value);
    items.truncate(cap);
    assert(items@ =~= pushed(before, value, cap as nat));
}

/// The same values once more.
pub fn copied(items: &Vec<u64>) -> (r: Vec<u64>)
    ensures
        r@ == items@,
{
    let mut r: Vec<u64> = Vec::new();
    let mut i: usize = 0;
    while i < items.len()
        invariant
            i <= items.len(),
            r@ =~= items@.take(i as int),
        decreases items.len() - i,
    {
        r.push(items[i]);
        i = i + 1;
    }
    assert(r@ =~= items@);
    r
}

fn sum_of(items: &Vec<u64>) -> (r: u64)
    requires
        total(items@) <= u64::MAX,
    ensures
        r == total(items@),
{
    let mut r: u64 = 0;
    let mut i: usize = 0;
    while i < items.len()
        invariant
            i <= items.len(),
            r == total(items@.take(i as int)),
            total(items@) <= u64::MAX,
        decreases items.len() - i,
    {
        proof {
            lemma_total_prefix(items@, (i + 1) as nat);
            assert(items@.take(i + 1).drop_last() =~= items@.take(i as int));
        }
        r = r + items[i];
        i = i + 1;
    }
    assert(items@.take(i as int) =~= items@);
    r
}

proof fn lemma_total_prefix(items: Seq<u64>, k: nat)
    requires
        k <= items.len(),
    ensures
        total(items.take(k as int)) <= total(items),
    decreases items.len(),
{
    if k < items.len() {
        lemma_total_prefix(items.drop_last(), k);
        assert(items.drop_last().take(k as int) =~= items.take(k as int));
    } else {
        assert(items.take(k as int) =~= items);
    }
}

/// Whether the sum of the values fits 64 bits.
fn sum_fits(items: &Vec<u64>) -> (r: bool)
    ensures
        r == (total(items@) <= u64::MAX),
{
    let mut r: u64 = 0;
    let mut i: usize = 0;
    while i < items.len()
        invariant
            i <= items.len(),
            r == total(items@.take(i as int)),
        decreases items.len() - i,
    {
        proof {
            lemma_total_prefix(items@, (i + 1) as nat);
            assert(items@.take(i + 1).drop_last() =~= items@.take(i as int));
        }
        if items[i] > u64::MAX - r {
            return false;
        }
        r = r + items[i];
        i = i + 1;
    }
    assert(items@.take(i as int) =~= items@);
    true
}

fn max_of(items: &Vec<u64>) -> (r: u64)
    ensures
        r == greatest(items@),
{
    let mut r: u64 = 0;
    let mut i: usize = 0;
    while i < items.len()
        invariant
            i <= items.len(),
            r == greatest(items@.take(i as int)),
        decreases items.len() - i,
    {
        proof {
            assert(items@.take(i + 1).drop_last() =~= items@.take(i as int));
        }
        if items[i] > r {
            r = items[i];
        }
        i = i + 1;
    }
    assert(items@.take(i as int) =~= items@);
    r
}

/// The average of two values, used to smooth readings; a zero first value does not count.
pub open spec fn smoothed_pair(a: Num, b: Num) -> Num {
    if is_zero(a) {
        b
    } else {
        fit(Width::Double, quotient(fit(Width::Double, sum(a, b)), whole(2)))
    }
}

/// The average of two values, used to smooth readings; a zero first value does not count.
pub fn avg2(a: Double, b: Double) -> (r: Double)
    ensures
        r.num() == smoothed_pair(a.num(), b.num()),
{
    if a.is_zero() {
        b
    } else {
        a.plus(b).over(Double::from_u64(2))
    }
}

/// Load and frequency of a cluster.
#[derive(Debug)]
pub struct FreqStore {
    /// Loads in percent.
    pub items: Vec<u64>,
    /// The latest frequency, in megahertz.
    pub top_value: u64,
    /// The latest load, between zero and one.
    pub usage: Double,
}

/// A load in whole percent.
pub open spec fn percent(usage: Num) -> nat {
    truncated(percentage(usage))
}

impl FreqStore {
    pub open spec fn wf(self) -> bool {
        self.items.len() <= MAX_SPARKLINE
    }

    /// Nothing has been taken in.
    pub open spec fn is_fresh(self) -> bool {
        &&& self.items@ == Seq::<u64>::empty()
        &&& self.top_value == 0
        &&& self.usage.num() == (Num::Fin { neg: false, mag: 0 })
    }

    /// An empty history.
    pub fn new() -> (r: FreqStore)
        ensures
            r.wf(),
            r.is_fresh(),
    {
        FreqStore { items: Vec::new(), top_value: 0, usage: Double::zero() }
    }

    /// `next` is `self` after a frequency and a load.
    pub open spec fn advances(self, value: u64, usage: Num, next: FreqStore) -> bool {
        &&& next.items@ == pushed(self.items@, percent(usage) as u64, MAX_SPARKLINE as nat)
        &&& next.top_value == value
        &&& next.usage.num() == usage
    }

    /// Takes a frequency and a load in.
    pub fn push(&mut self, value: u64, usage: Double)
        requires
            old(self).wf(),
        ensures
            final(self).wf(),
            old(self).advances(value, usage.num(), *final(self)),
            final(self).usage == usage,
    {
        let load: u64 = usage.times(Double::from_u64(100)).truncate();
        push_front(&mut self.items, load, MAX_SPARKLINE);
        self.top_value = value;
        self.usage = usage;
    }
}

/// Power over time.
#[derive(Debug)]
pub struct PowerStore {
    /// Milliwatts.
    pub items: Vec<u64>,
    /// The latest reading, smoothed with the one before, in watts.
    pub top_value: Double,
    /// The highest of the readings kept, in watts.
    pub max_value: Double,
    /// The average of the readings kept, in watts.
    pub avg_value: Double,
}

/// A power in whole milliwatts.
pub open spec fn milliwatts(watts: Num) -> nat {
    truncated(fit(Width::Double, product(watts, whole(1000))))
}

/// Milliwatts in watts.
pub open spec fn watts(milliwatts: Num) -> Num {
    fit(Width::Double, quotient(milliwatts, whole(1000)))
}

/// The latest reading in watts, as it was kept; zero where there is none.
pub open spec fn latest_watts(items: Seq<u64>) -> Num {
    if items.len() > 0 {
        watts(as_double(items[0] as nat))
    } else {
        whole(0)
    }
}

impl PowerStore {
    pub open spec fn wf(self) -> bool {
        self.items.len() <= MAX_SPARKLINE
    }

    /// The readings after `value` was taken in.
    pub open spec fn items_after(self, value: Num) -> Seq<u64> {
        pushed(self.items@, milliwatts(value) as u64, MAX_SPARKLINE as nat)
    }

    /// The sum of the readings after `value` was taken in fits 64 bits.
    pub open spec fn accepts(self, value: Num) -> bool {
        total(self.items_after(value)) <= u64::MAX
    }

    /// `next` is `self` after the reading `value`.
    pub open spec fn advances(self, value: Num, next: PowerStore) -> bool {
        let items = self.items_after(value);
        &&& next.items@ == items
        &&& next.top_value.num() == smoothed_pair(latest_watts(self.items@), value)
        &&& next.avg_value.num() == watts(
            fit(Width::Double, quotient(as_double(total(items)), as_double(items.len()))),
        )
        &&& next.max_value.num() == watts(as_double(greatest(items) as nat))
    }

    /// Nothing has been taken in.
    pub open spec fn is_fresh(self) -> bool {
        &&& self.items@ == Seq::<u64>::empty()
        &&& self.top_value.num() == (Num::Fin { neg: false, mag: 0 })
        &&& self.max_value.num() == (Num::Fin { neg: false, mag: 0 })
        &&& self.avg_value.num() == (Num::Fin { neg: false, mag: 0 })
    }

    /// An empty history.
    pub fn new() -> (r: PowerStore)
        ensures
            r.wf(),
            r.is_fresh(),
    {
        PowerStore {
            items: Vec::new(),
            top_value: Double::zero(),
            max_value: Double::zero(),
            avg_value: Double::zero(),
        }
    }

    /// Whether the sum of the readings after `value` was taken in fits 64 bits.
    pub fn can_push(&self, value: Double) -> (r: bool)
        requires
            self.wf(),
        ensures
            r == self.accepts(value.num()),
    {
        let mut items: Vec<u64> = copied(&self.items);
        let reading: u64 = value.times(Double::from_u64(1000)).truncate();
        push_front(&mut items, reading, MAX_SPARKLINE);
        sum_fits(&items)
    }

    /// Takes a reading in watts in.
    pub fn push(&mut self, value: Double)
        requires
            old(self).wf(),
            old(self).accepts(value.num()),
        ensures
            final(self).wf(),
            old(self).advances(value.num(), *final(self)),
    {
        let thousand: Double = Double::from_u64(1000);
        let was_top: Double = if self.items.len() > 0 {
            Double::from_u64(self.items[0]).over(thousand)
        } else {
            Double::from_u64(0)
        };
        let reading: u64 = value.times(thousand).truncate();
        push_front(&mut self.items, reading, MAX_SPARKLINE);
        self.top_value = avg2(was_top, value);
        let count: u64 = self.items.len() as u64;
        self.avg_value = Double::from_u64(sum_of(&self.items)).over(Double::from_u64(count)).over(
            thousand,
        );
        self.max_value = Double::from_u64(max_of(&self.items)).over(thousand);
    }
}

/// Memory over time.
#[derive(Debug)]
pub struct MemoryStore {
    /// Bytes of RAM in use.
    pub items: Vec<u64>,
    pub ram_usage: u64,
    pub ram_total: u64,
    pub swap_usage: u64,
    pub swap_total: u64,
    /// The highest use among the values kept.
    pub max_ram: u64,
}

impl MemoryStore {
    pub open spec fn wf(self) -> bool {
        &&& self.items.len() <= MAX_SPARKLINE
        &&& self.max_ram == greatest(self.items@)
    }

    /// Nothing has been taken in.
    pub open spec fn is_fresh(self) -> bool {
        &&& self.items@ == Seq::<u64>::empty()
        &&& self.ram_usage == 0
        &&& self.ram_total == 0
        &&& self.swap_usage == 0
        &&& self.swap_total == 0
        &&& self.max_ram == 0
    }

    /// An empty history.
    pub fn new() -> (r: MemoryStore)
        ensures
            r.wf(),
            r.is_fresh(),
    {
        MemoryStore {
            items: Vec::new(),
            ram_usage: 0,
            ram_total: 0,
            swap_usage: 0,
            swap_total: 0,
            max_ram: 0,
        }
    }

    /// `next` is `self` after memory figures.
    pub open spec fn advances(self, value: MemMetrics, next: MemoryStore) -> bool {
        &&& next.items@ == pushed(self.items@, value.ram_usage, MAX_SPARKLINE as nat)
        &&& next.ram_usage == value.ram_usage
        &&& next.ram_total == value.ram_total
        &&& next.swap_usage == value.swap_usage
        &&& next.swap_total == value.swap_total
        &&& next.max_ram == greatest(next.items@)
    }

    /// Takes memory figures in.
    pub fn push(&mut self, value: MemMetrics)
        requires
            old(self).wf(),
        ensures
            final(self).wf(),
            old(self).advances(value, *final(self)),
    {
        push_front(&mut self.items, value.ram_usage, MAX_SPARKLINE);
        self.ram_usage = value.ram_usage;
        self.ram_total = value.ram_total;
        self.swap_usage = value.swap_usage;
        self.swap_total = value.swap_total;
        self.max_ram = max_of(&self.items);
    }
}

/// Temperatures over time.
#[derive(Debug)]
pub struct TempStore {
    /// Degrees Celsius.
    pub items: Vec<Single>,
}

/// The values of the readings.
pub open spec fn nums(items: Seq<Single>) -> Seq<Num> {
    Seq::new(items.len(), |i: int| items[i].num())
}

/// One step of exponential smoothing: `alpha * item + (1 - alpha) * before`.
pub open spec fn smoothing_step(alpha: Num, item: Num, before: Num) -> Num {
    let rest = fit(Width::Single, sum(whole(1), opposite(alpha)));
    fit(
        Width::Single,
        sum(
            fit(Width::Single, product(alpha, item)),
            fit(Width::Single, product(rest, before)),
        ),
    )
}

/// Exponential smoothing of readings, the newest of which comes first.
pub open spec fn smoothed(items: Seq<Num>, alpha: Num) -> Num
    decreases items.len(),
{
    if items.len() == 0 {
        whole(0)
    } else if items.len() == 1 {
        items[0]
    } else {
        smoothing_step(alpha, items[0], smoothed(items.drop_first(), alpha))
    }
}

/// The trend of the readings; zero of fewer than two.
pub open spec fn trend(items: Seq<Num>, alpha: Num) -> Num {
    if items.len() < 2 {
        whole(0)
    } else {
        smoothed(items, alpha)
    }
}

/// The weight of the newest reading where a trend stands in for a sensor that is silent: the
/// `binary32` value nearest to 0.8.
pub open spec fn trend_weight() -> Single {
    Single { bits: 0x3f4c_cccd }
}

/// What is taken in for a reading: the reading, or the trend where the sensor is silent.
pub open spec fn reading_or_trend(items: Seq<Num>, value: Num) -> Num {
    if is_zero(value) {
        trend(items, trend_weight().num())
    } else {
        value
    }
}

/// The history after a reading; a zero is not kept.
pub open spec fn temps_after(items: Seq<Num>, value: Num) -> Seq<Num> {
    let kept = reading_or_trend(items, value);
    if is_zero(kept) {
        items
    } else {
        pushed(items, kept, MAX_TEMPS as nat)
    }
}

impl TempStore {
    /// At most [`MAX_TEMPS`] readings, and no zero among them.
    pub open spec fn wf(self) -> bool {
        &&& self.items.len() <= MAX_TEMPS
        &&& forall|i: int| 0 <= i < self.items.len() ==> !is_zero((#[trigger] self.items@[i]).num())
    }

    /// An empty history.
    pub fn new() -> (r: TempStore)
        ensures
            r.wf(),
            r.items@ == Seq::<Single>::empty(),
    {
        TempStore { items: Vec::new() }
    }

    /// The value of the latest reading, or zero where there is none.
    pub open spec fn latest(self) -> Num {
        if self.items.len() > 0 {
            self.items@[0].num()
        } else {
            whole(0)
        }
    }

    /// The latest reading, or zero where there is none.
    pub fn last(&self) -> (r: Single)
        ensures
            r.num() == self.latest(),
            self.items.len() > 0 ==> r == self.items@[0],
    {
        if self.items.len() > 0 {
            self.items[0]
        } else {
            Single::from_u16(0)
        }
    }

    /// Takes a reading in; where the sensor is silent, the trend.
    pub fn push(&mut self, value: Single)
        requires
            old(self).wf(),
        ensures
            final(self).wf(),
            nums(final(self).items@) == temps_after(nums(old(self).items@), value.num()),
    {
        let ghost before = self.items@;
        let kept: Single = if value.is_zero() {
            self.trend_ema(Single { bits: 0x3f4c_cccd })
        } else {
            value
        };
        if kept.is_zero() {
            return;
        }
        self.items.insert(0, kept);
        self.items.truncate(MAX_TEMPS);
        proof {
            assert(self.items@ =~= pushed(before, kept, MAX_TEMPS as nat));
            assert(nums(self.items@) =~= pushed(nums(before), kept.num(), MAX_TEMPS as nat));
            assert forall|i: int| 0 <= i < self.items@.len() implies !is_zero(
                (#[trigger] self.items@[i]).num(),
            ) by {
                if i > 0 {
                    assert(self.items@[i] == before[i - 1]);
                }
            }
        }
    }

    /// The trend of the readings, by exponential smoothing.
    pub fn trend_ema(&self, alpha: Single) -> (r: Single)
        ensures
            r.num() == trend(nums(self.items@), alpha.num()),
    {
        if self.items.len() < 2 {
            return Single::from_u16(0);
        }
        let rest: Single = Single::from_u16(1).plus(alpha.negated());
        let ghost all = nums(self.items@);
        let mut i: usize = self.items.len() - 1;
        let mut ema: Single = self.items[i];
        while i > 0
            invariant
                i < self.items.len(),
                all == nums(self.items@),
                rest.num() == fit(Width::Single, sum(whole(1), opposite(alpha.num()))),
                ema.num() == smoothed(all.skip(i as int), alpha.num()),
            decreases i,
        {
            i = i - 1;
            ema = alpha.times(self.items[i]).plus(rest.times(ema));
            assert(all.skip(i as int).drop_first() =~= all.skip(i + 1));
        }
        assert(all.skip(0) =~= all);
        ema
    }
}

/// A silent sensor does not change a history of fewer than two readings.
pub proof fn law_silent_sensor(items: Seq<Num>, value: Num)
    requires
        items.len() < 2,
        is_zero(value),
    ensures
        temps_after(items, value) == items,
{
    lemma_mul_basics(one() as int);
}

/// What was taken in last comes first, and the others keep their order behind it.
pub proof fn law_newest_first<T>(items: Seq<T>, value: T, cap: nat)
    requires
        cap > 0,
    ensures
        pushed(items, value, cap)[0] == value,
        pushed(items, value, cap).len() == if items.len() < cap {
            items.len() + 1
        } else {
            cap
        },
        forall|i: int|
            1 <= i < pushed(items, value, cap).len() ==> #[trigger] pushed(items, value, cap)[i]
                == items[i - 1],
{
}

/// `items` holds the last of `values`, the newest first, as far as `cap` values go.
pub open spec fn is_history<T>(items: Seq<T>, values: Seq<T>, cap: nat) -> bool {
    &&& items.len() == if values.len() < cap {
        values.len()
    } else {
        cap
    }
    &&& forall|i: int|
        0 <= i < items.len() ==> #[trigger] items[i] == values[values.len() - 1 - i]
}

/// A history holds the values that were taken in last, the newest first, and no more than `cap`.
///
/// `states[i]` is the history before the value `values[i]`.
pub proof fn law_history<T>(states: Seq<Seq<T>>, values: Seq<T>, cap: nat)
    requires
        states.len() == values.len() + 1,
        states[0] == Seq::<T>::empty(),
        forall|i: int|
            0 <= i < values.len() ==> states[i + 1] == pushed(states[i], #[trigger] values[i], cap),
    ensures
        is_history(states.last(), values, cap),
    decreases values.len(),
{
    if values.len() > 0 {
        let n = (values.len() - 1) as int;
        let before = states.drop_last();
        let earlier = values.drop_last();
        assert forall|i: int| 0 <= i < earlier.len() implies before[i + 1] == pushed(
            before[i],
            #[trigger] earlier[i],
            cap,
        ) by {
            assert(earlier[i] == values[i]);
        }
        law_history(before, earlier, cap);
        assert(before.last() == states[n]);
        assert(states[n + 1] == pushed(states[n], values[n], cap));
        assert forall|i: int| 0 <= i < states.last().len() implies #[trigger] states.last()[i]
            == values[values.len() - 1 - i] by {
            if i > 0 {
                assert(states.last()[i] == states[n][i - 1]);
            }
        }
    }
}

/// A sum is made of the sums of its parts, down to single values.
pub proof fn law_total(a: Seq<u64>, b: Seq<u64>, x: u64)
    ensures
        total(Seq::<u64>::empty()) == 0,
        total(seq![x]) == x,
        total(a + b) == total(a) + total(b),
    decreases b.len(),
{
    reveal_with_fuel(total, 2);
    if b.len() > 0 {
        law_total(a, b.drop_last(), x);
        assert((a + b).drop_last() =~= a + b.drop_last());
    } else {
        assert(a + b =~= a);
    }
}

/// A load is kept in percent, cut off: within a rounding it is not more than the load, and less than
/// one percent under it.
pub proof fn law_percent_is_close(usage: Num)
    requires
        usage is Fin,
        !above(whole(0), usage),
        usage->Fin_mag <= pow2(50) * one(),
    ensures
        (percent(usage) * one() - 100 * usage->Fin_mag) * pow2(53) <= 100 * usage->Fin_mag,
        (100 * usage->Fin_mag - (percent(usage) + 1) * one()) * pow2(53) < 100 * usage->Fin_mag
            || usage->Fin_mag == 0,
{
    let u = one();
    let m = usage->Fin_mag;
    lemma_pow2_pos(1074);
    lemma_pow2_pos(53);
    lemma2_to64_rest();
    lemma_mul_basics(u as int);
    lemma_pow2_adds(50, 1074);
    lemma_pow2_le(1124, 2000);
    law_percentage_is_close(usage);
    law_truncated(percentage(usage));
    let p = percentage(usage)->Fin_mag;
    let k = percent(usage);
    if m > 0 {
        assert(!usage->Fin_neg);
        assert(p < (u64::MAX + 1) * u) by (nonlinear_arith)
            requires
                (p - 100 * m) * pow2(53) <= 100 * m,
                m <= pow2(50) * u,
                pow2(50) == 0x4_0000_0000_0000,
                pow2(53) == 0x20_0000_0000_0000,
                u > 0,
        {
            assert((p - 100 * m) <= 100 * m) by (nonlinear_arith)
                requires
                    (p - 100 * m) * pow2(53) <= 100 * m,
                    m >= 0,
                    pow2(53) == 0x20_0000_0000_0000,
            ;
        }
        assert(k * u <= p < (k + 1) * u);
        let e = p - 100 * m;
        assert((k * u - 100 * m) * pow2(53) <= e * pow2(53)) by (nonlinear_arith)
            requires
                k * u - 100 * m <= e,
                pow2(53) > 0,
        ;
        assert((100 * m - (k + 1) * u) * pow2(53) < -e * pow2(53)) by (nonlinear_arith)
            requires
                100 * m - (k + 1) * u < -e,
                pow2(53) > 0,
        ;
    } else {
        assert(k == 0);
        lemma_mul_basics(pow2(53) as int);
    }
}

/// A load of one or less is kept as at most one hundred percent.
pub proof fn law_percent_range(usage: Num)
    requires
        !above(usage, whole(1)),
    ensures
        percent(usage) <= 100,
{
    lemma_pow2_pos(1074);
    lemma_mul_basics(one() as int);
    if let Num::Fin { neg, .. } = usage {
        if !neg {
            lemma_percentage_bound(usage);
            let m = percentage(usage)->Fin_mag;
            lemma_div_is_ordered(m as int, (100 * one()) as int, one() as int);
            lemma_div_by_multiple(100, one() as int);
        }
    }
}

/// The greatest value is at most the sum, and the sum at most the greatest value times their
/// number.
proof fn lemma_total_bounds(items: Seq<u64>)
    ensures
        greatest(items) <= total(items),
        total(items) <= items.len() * greatest(items),
    decreases items.len(),
{
    if items.len() > 0 {
        let rest = items.drop_last();
        lemma_total_bounds(rest);
        let g = greatest(items);
        assert(rest.len() * greatest(rest) <= rest.len() * g) by (nonlinear_arith)
            requires
                greatest(rest) <= g,
        ;
        assert(items.len() * g == rest.len() * g + g) by (nonlinear_arith)
            requires
                items.len() == rest.len() + 1,
        ;
    }
}

/// The sum of values that are at most `top`.
proof fn lemma_total_under(items: Seq<u64>, top: nat)
    requires
        forall|i: int| 0 <= i < items.len() ==> #[trigger] items[i] <= top,
    ensures
        total(items) <= items.len() * top,
{
    law_greatest(items);
    lemma_total_bounds(items);
    if items.len() > 0 {
        let g = greatest(items);
        let i = choose|i: int| 0 <= i < items.len() && items[i] == g;
        assert(items[i] <= top);
        assert(items.len() * g <= items.len() * top) by (nonlinear_arith)
            requires
                g <= top,
        ;
    }
}

/// Watts keep the order of milliwatts, and are finite.
proof fn lemma_watts(x: nat, y: nat)
    requires
        x <= y,
        y <= pow2(64) * one(),
    ensures
        ({
            let a = watts(Num::Fin { neg: false, mag: x });
            let b = watts(Num::Fin { neg: false, mag: y });
            &&& a matches Num::Fin { neg, mag } && !neg && mag <= pow2(64) * one()
            &&& b matches Num::Fin { neg, mag } && !neg && mag <= pow2(64) * one()
            &&& !above(a, b)
        }),
{
    let u = one();
    lemma_pow2_pos(1074);
    let d = 1000 * u;
    lemma_mul_inequality(x as int, y as int, u as int);
    lemma_mul_inequality((x * u) as int, (y * u) as int, d as int);
    law_fit_is_monotone(Width::Double, x * u, d, y * u, d);
    lemma_pow2_adds(64, 1074);
    lemma_pow2_strictly_increases(64 + 1074, 2098);
    reveal_pow2_zero();
    lemma_pow2_le(1, 53);
    let top = pow2(64) * u;
    lemma_mul_basics(top as int);
    assert(x * u <= top * d && y * u <= top * d) by (nonlinear_arith)
        requires
            x <= y,
            y <= top,
            u <= d,
    ;
    lemma_rounded_le(x * u, d, 1, 64 + 1074, 53, 0);
    lemma_rounded_le(y * u, d, 1, 64 + 1074, 53, 0);
}

/// The average and the latest reading are finite, not negative, and not above the highest one.
pub open spec fn is_orderly(store: PowerStore) -> bool {
    let latest = latest_watts(store.items@);
    &&& 1 <= store.items@.len() <= MAX_SPARKLINE
    &&& store.max_value.num() matches Num::Fin { neg, .. } && !neg
    &&& store.avg_value.num() matches Num::Fin { neg, .. } && !neg
    &&& latest matches Num::Fin { neg, .. } && !neg
    &&& !above(store.avg_value.num(), store.max_value.num())
    &&& !above(latest, store.max_value.num())
}

/// The average of powers is not above the highest one, where their sum in milliwatts is exact, which
/// it is under `2^53`.
pub proof fn law_average_power_is_in_range(before: PowerStore, value: Num, next: PowerStore)
    requires
        before.wf(),
        before.advances(value, next),
        total(next.items@) < pow2(53),
    ensures
        is_orderly(next),
{
    let items = next.items@;
    let u = one();
    let sum = total(items);
    let n = items.len();
    let g = greatest(items) as nat;
    lemma_pow2_pos(1074);
    lemma2_to64();
    lemma2_to64_rest();
    lemma_total_bounds(items);
    law_greatest(items);
    law_newest_first(before.items@, milliwatts(value) as u64, MAX_SPARKLINE as nat);
    lemma_integer_fits(sum);
    lemma_integer_fits(n);
    lemma_integer_fits(g);
    lemma_integer_fits(items[0] as nat);
    // the average of the milliwatts
    let d = n * u;
    assert(d > 0) by (nonlinear_arith)
        requires
            d == n * u,
            n > 0,
            u > 0,
    ;
    assert((sum * u) * u * 1 <= (g * u) * d) by (nonlinear_arith)
        requires
            sum <= n * g,
            d == n * u,
            u > 0,
    ;
    law_fit_is_monotone(Width::Double, (sum * u) * u, d, g * u, 1);
    let avg = fit(Width::Double, quotient(as_double(sum), as_double(n)));
    assert(!above(avg, whole(g)));
    assert(avg is Fin && !avg->Fin_neg && avg->Fin_mag <= g * u);
    lemma_mul_inequality(g as int, pow2(64) as int, u as int);
    lemma_watts(avg->Fin_mag, g * u);
    lemma_mul_inequality(items[0] as int, g as int, u as int);
    lemma_watts(items[0] as nat * u, g * u);
}

/// A power of at most a gigawatt.
pub open spec fn is_moderate(value: Num) -> bool {
    &&& value is Fin
    &&& !above(whole(0), value)
    &&& !above(value, whole(1_000_000_000))
}

/// Every reading is at most a gigawatt.
spec fn is_mild(items: Seq<u64>) -> bool {
    &&& items.len() <= MAX_SPARKLINE
    &&& forall|i: int| 0 <= i < items.len() ==> #[trigger] items[i] <= 1_000_000_000_000
}

proof fn lemma_mild_push(before: PowerStore, value: Num)
    requires
        is_mild(before.items@),
        is_moderate(value),
    ensures
        is_mild(before.items_after(value)),
        total(before.items_after(value)) < pow2(53),
        before.accepts(value),
{
    let u = one();
    let mag = value->Fin_mag;
    lemma_pow2_pos(1074);
    lemma2_to64();
    lemma2_to64_rest();
    lemma_mul_basics(u as int);
    let n = mag * (1000 * u);
    let top = 1_000_000_000_000 * u;
    assert(n <= top * u) by (nonlinear_arith)
        requires
            n == mag * (1000 * u),
            top == 1_000_000_000_000 * u,
            mag <= 1_000_000_000 * u,
            u > 0,
    ;
    lemma_rounded_le(n, u, 1_000_000_000_000, 1074, 53, 0);
    lemma_pow2_adds(53, 1074);
    lemma_pow2_le(53 + 1074, 2098);
    assert(top < pow2(53) * u) by (nonlinear_arith)
        requires
            top == 1_000_000_000_000 * u,
            pow2(53) > 1_000_000_000_000,
            u > 0,
    ;
    let r = rounded(n, u, 53, 0);
    lemma_div_is_ordered(r as int, top as int, u as int);
    lemma_div_by_multiple(1_000_000_000_000, u as int);
    assert(milliwatts(value) <= 1_000_000_000_000);
    let items = before.items_after(value);
    law_newest_first(before.items@, milliwatts(value) as u64, MAX_SPARKLINE as nat);
    assert forall|i: int| 0 <= i < items.len() implies #[trigger] items[i]
        <= 1_000_000_000_000 by {
        if i > 0 {
            assert(items[i] == before.items@[i - 1]);
        }
    }
    lemma_total_under(items, 1_000_000_000_000);
    lemma_mul_inequality(items.len() as int, 128, 1_000_000_000_000);
}

/// The smoothed reading of powers of at most a gigawatt is finite.
proof fn lemma_smoothed_is_finite(items: Seq<u64>, value: Num)
    requires
        is_moderate(value),
    ensures
        smoothed_pair(latest_watts(items), value) is Fin,
{
    let u = one();
    let a = latest_watts(items);
    lemma_pow2_pos(1074);
    lemma2_to64();
    lemma2_to64_rest();
    lemma_mul_basics(u as int);
    let top = pow2(64) * u;
    if items.len() > 0 {
        lemma_integer_fits(items[0] as nat);
        let x = as_double(items[0] as nat)->Fin_mag;
        lemma_watts(x, x);
    } else {
        assert(top >= 0) by (nonlinear_arith)
            requires
                top == pow2(64) * u,
        ;
    }
    assert(a is Fin && !a->Fin_neg && a->Fin_mag <= top);
    if !is_zero(a) {
        let t = a->Fin_mag + signed(value->Fin_neg, value->Fin_mag);
        lemma_mul_inequality(1_000_000_000, pow2(64) as int, u as int);
        lemma_pow2_adds(64, 1074);
        lemma_pow2_unfold(1139);
        lemma_pow2_strictly_increases(1139, 2098);
        reveal_pow2_zero();
        lemma_pow2_le(1, 53);
        let roof = pow2(1139);
        lemma_mul_basics(roof as int);
        assert(0 < t <= roof);
        lemma_rounded_le(t as nat, 1, 1, 1139, 53, 0);
        let r = rounded(t as nat, 1, 53, 0);
        assert(fit(Width::Double, sum(a, value)) == (Num::Fin { neg: false, mag: r }));
        let d = 2 * u;
        assert(r * u <= roof * d) by (nonlinear_arith)
            requires
                r <= roof,
                u <= d,
        ;
        lemma_rounded_le(r * u, d, 1, 1139, 53, 0);
    }
}

/// A power history that has only seen powers of up to a gigawatt takes every further one in: no
/// sum leaves 64 bits, everything shown is finite, and neither the average nor the latest reading
/// is above the highest one.
///
/// `states[i]` is the history before the power `values[i]`.
pub proof fn law_power_history(states: Seq<PowerStore>, values: Seq<Num>)
    requires
        states.len() == values.len() + 1,
        states[0].is_fresh(),
        forall|i: int| 0 <= i < values.len() ==> is_moderate(#[trigger] values[i]),
        forall|i: int|
            0 <= i < values.len() ==> states[i].advances(#[trigger] values[i], states[i + 1]),
    ensures
        forall|i: int|
            #![trigger values[i]]
            0 <= i < values.len() ==> {
                &&& states[i].accepts(values[i])
                &&& is_orderly(states[i + 1])
                &&& states[i + 1].top_value.num() is Fin
            },
{
    assert forall|i: int|
        #![trigger values[i]]
        0 <= i < values.len() implies {
        &&& states[i].accepts(values[i])
        &&& is_orderly(states[i + 1])
        &&& states[i + 1].top_value.num() is Fin
    } by {
        lemma_stays_mild(states, values, i);
        lemma_moderate_push(states[i], values[i], states[i + 1]);
    }
}

/// One more power of up to a gigawatt.
proof fn lemma_moderate_push(before: PowerStore, value: Num, next: PowerStore)
    requires
        is_mild(before.items@),
        is_moderate(value),
        before.advances(value, next),
    ensures
        before.accepts(value),
        is_mild(next.items@),
        is_orderly(next),
        next.top_value.num() is Fin,
{
    lemma_mild_push(before, value);
    law_average_power_is_in_range(before, value, next);
    lemma_smoothed_is_finite(before.items@, value);
}

proof fn lemma_stays_mild(states: Seq<PowerStore>, values: Seq<Num>, k: int)
    requires
        states.len() == values.len() + 1,
        states[0].is_fresh(),
        forall|i: int| 0 <= i < values.len() ==> is_moderate(#[trigger] values[i]),
        forall|i: int|
            0 <= i < values.len() ==> states[i].advances(#[trigger] values[i], states[i + 1]),
        0 <= k < states.len(),
    ensures
        is_mild(states[k].items@),
    decreases k,
{
    if k > 0 {
        lemma_stays_mild(states, values, k - 1);
        lemma_moderate_push(states[k - 1], values[k - 1], states[k]);
    }
}

/// A power is kept in milliwatts, cut off: it is not more than the power, and less than a
/// milliwatt under it, up to a thousandth of a milliwatt and a rounding in between.
pub proof fn law_milliwatts_are_close(value: Num)
    requires
        is_moderate(value),
    ensures
        milliwatts(value) <= 1_000_000_000_000,
        1000 * (milliwatts(value) * one()) <= 1000 * (1000 * value->Fin_mag) + one(),
        1000 * (1000 * value->Fin_mag) <= 1000 * (milliwatts(value) * one() + one()) + one(),
{
    let u = one();
    let mag = value->Fin_mag;
    lemma_pow2_pos(1074);
    lemma2_to64();
    lemma2_to64_rest();
    lemma_mul_basics(u as int);
    let n = mag * (1000 * u);
    let k = 1000 * mag;
    assert(n * 1 == k * u) by (nonlinear_arith)
        requires
            n == mag * (1000 * u),
            k == 1000 * mag,
    ;
    lemma_rounded_same(n, u, k, 1, 53, 0);
    let r = rounded(k, 1, 53, 0);
    lemma_rounded_relative(k, 53);
    let top = 1_000_000_000_000 * u;
    lemma_mul_basics(top as int);
    lemma_rounded_le(k, 1, 1_000_000_000_000, 1074, 53, 0);
    lemma_pow2_adds(53, 1074);
    lemma_pow2_le(53 + 1074, 2098);
    assert(top < pow2(53) * u) by (nonlinear_arith)
        requires
            top == 1_000_000_000_000 * u,
            pow2(53) > 1_000_000_000_000,
            u > 0,
    ;
    if value->Fin_neg {
        assert(mag == 0);
        assert(milliwatts(value) == 0);
        lemma_mul_basics(u as int);
    } else {
        let w = r / u;
        lemma_div_is_ordered(r as int, top as int, u as int);
        lemma_div_by_multiple(1_000_000_000_000, u as int);
        lemma_fundamental_div_mod(r as int, u as int);
        lemma_mod_bound(r as int, u as int);
        lemma_mul_is_commutative(u as int, w as int);
        assert(milliwatts(value) == w);
        assert(1000 * (k - r) <= u && 1000 * (r - k) <= u) by (nonlinear_arith)
            requires
                (k - r) * pow2(53) <= k,
                (r - k) * pow2(53) <= k,
                k <= 1_000_000_000_000 * u,
                pow2(53) == 0x20_0000_0000_0000,
                u > 0,
        ;
    }
}

/// `v` is `n / d` in units, to one part in `2^51`.
pub open spec fn is_close(v: Num, n: nat, d: nat) -> bool {
    &&& v matches Num::Fin { neg, .. } && !neg
    &&& (v->Fin_mag * d - n) * pow2(51) <= n
    &&& (n - v->Fin_mag * d) * pow2(51) <= n
}

/// Watts are milliwatts by a thousand.
proof fn lemma_watts_are_close(x: nat)
    requires
        x == 0 || one() <= 1000 * x,
        x <= pow2(64) * one(),
    ensures
        watts(Num::Fin { neg: false, mag: x }) matches Num::Fin { neg, mag } && !neg && (mag * 1000
            - x) * pow2(53) <= x && (x - mag * 1000) * pow2(53) <= x,
{
    let u = one();
    lemma_pow2_pos(1074);
    lemma_pow2_pos(53);
    lemma_watts(x, x);
    let d = 1000 * u;
    let r = rounded(x * u, d, 53, 0);
    if x == 0 {
        lemma_mul_basics(u as int);
        lemma_mul_basics(d as int);
        lemma_mul_basics(pow2(53) as int);
        lemma_rounded_le(0, d, 0, 1074, 53, 0);
    } else {
        lemma2_to64();
        lemma2_to64_rest();
        lemma_pow2_adds(53, 1021);
        lemma_pow2_le(20, 1021);
        assert(x * u >= pow2(53) * d) by (nonlinear_arith)
            requires
                1000 * x >= u,
                d == 1000 * u,
                u == pow2(53) * pow2(1021),
                pow2(1021) >= 1_048_576,
                pow2(53) > 0,
        {
            assert(1000 * x >= pow2(53) * 1_048_576);
            assert(x >= pow2(53) * 1000);
        }
        lemma_rounded_ratio(x * u, d, 53);
        let y = r * 1000 - x;
        assert(y * pow2(53) <= x && -y * pow2(53) <= x) by (nonlinear_arith)
            requires
                (x * u - r * d) * pow2(53) <= x * u,
                (r * d - x * u) * pow2(53) <= x * u,
                d == 1000 * u,
                y == r * 1000 - x,
                u > 0,
        {
            assert(r * d - x * u == y * u);
            assert((y * pow2(53)) * u <= x * u);
            assert((-y * pow2(53)) * u <= x * u);
        }
    }
}

/// What a power history shows is what its readings are, in milliwatts: the highest is the greatest
/// of them, and the average is their sum by their number.
pub proof fn law_power_statistics(before: PowerStore, value: Num, next: PowerStore)
    requires
        before.wf(),
        before.advances(value, next),
        total(next.items@) < pow2(53),
    ensures
        is_close(next.max_value.num(), greatest(next.items@) as nat * one(), 1000),
        is_close(next.avg_value.num(), total(next.items@) * one(), 1000 * next.items@.len()),
{
    let items = next.items@;
    let u = one();
    let sum = total(items);
    let n = items.len();
    let g = greatest(items) as nat;
    lemma_pow2_pos(1074);
    lemma2_to64();
    lemma2_to64_rest();
    lemma_total_bounds(items);
    law_newest_first(before.items@, milliwatts(value) as u64, MAX_SPARKLINE as nat);
    lemma_integer_fits(sum);
    lemma_integer_fits(n);
    lemma_integer_fits(g);
    lemma_mul_basics(u as int);
    // the highest
    lemma_mul_inequality(g as int, pow2(64) as int, u as int);
    if g > 0 {
        lemma_mul_inequality(1, g as int, u as int);
    }
    lemma_watts_are_close(g * u);
    let m = next.max_value.num()->Fin_mag;
    lemma_coarser(m * 1000 - g * u, g * u);
    // the average
    let d = n * u;
    assert(d > 0) by (nonlinear_arith)
        requires
            d == n * u,
            n > 0,
            u > 0,
    ;
    let x = (sum * u) * u;
    let a = rounded(x, d, 53, 0);
    let top = pow2(53) * u;
    lemma_mul_inequality(sum as int, pow2(53) as int, u as int);
    lemma_pow2_adds(53, 1074);
    lemma_pow2_le(53 + 1074, 2098);
    lemma_pow2_strictly_increases(53 + 1074, 2098);
    reveal_pow2_zero();
    lemma_pow2_le(1, 53);
    lemma_mul_basics(top as int);
    assert(x <= top * d) by (nonlinear_arith)
        requires
            x == (sum * u) * u,
            sum * u <= top,
            d == n * u,
            n >= 1,
            u > 0,
    {
        assert((sum * u) * u <= top * u);
        assert(top * u <= top * (n * u));
    }
    lemma_rounded_le(x, d, 1, 53 + 1074, 53, 0);
    assert(fit(Width::Double, quotient(as_double(sum), as_double(n))) == (Num::Fin {
        neg: false,
        mag: a,
    }));
    if sum == 0 {
        lemma_mul_basics(d as int);
        lemma_rounded_le(0, d, 0, 1074, 53, 0);
        lemma_watts_are_close(0);
        lemma_mul_basics((1000 * n) as int);
        let v = next.avg_value.num()->Fin_mag;
        assert(v == 0) by (nonlinear_arith)
            requires
                (v * 1000 - 0) * pow2(53) <= 0,
                pow2(53) > 0,
                v >= 0,
        ;
        lemma_mul_basics(pow2(51) as int);
    } else {
        lemma_pow2_adds(53, 1021);
        lemma_pow2_le(20, 1021);
        assert(x >= pow2(53) * d) by (nonlinear_arith)
            requires
                x == (sum * u) * u,
                sum >= 1,
                d == n * u,
                n <= 128,
                u == pow2(53) * pow2(1021),
                pow2(1021) >= 1_048_576,
                pow2(53) > 0,
        {
            assert(sum * u >= u);
            assert((sum * u) * u >= u * u);
            assert(u >= pow2(53) * 128);
            assert(u * u >= (pow2(53) * 128) * u);
            assert((pow2(53) * 128) * u >= pow2(53) * (n * u));
        }
        lemma_rounded_ratio(x, d, 53);
        let y = a * n - sum * u;
        assert(y * pow2(53) <= sum * u && -y * pow2(53) <= sum * u) by (nonlinear_arith)
            requires
                (x - a * d) * pow2(53) <= x,
                (a * d - x) * pow2(53) <= x,
                x == (sum * u) * u,
                d == n * u,
                y == a * n - sum * u,
                u > 0,
        {
            assert(a * d - x == y * u);
            assert((y * pow2(53)) * u <= (sum * u) * u);
            assert((-y * pow2(53)) * u <= (sum * u) * u);
        }
        // at least a thousandth of a unit of one
        assert(1000 * a >= u) by (nonlinear_arith)
            requires
                -y * pow2(53) <= sum * u,
                y == a * n - sum * u,
                sum >= 1,
                1 <= n <= 128,
                u > 0,
                pow2(53) >= 1024,
        {
            assert(-y * 1024 <= sum * u);
            assert(1024 * (a * n) >= 1023 * (sum * u));
            assert(sum * u >= u);
            assert(a * n <= a * 128);
            assert(1024 * 128 * a >= 1023 * u);
        }
        lemma_pow2_le(53, 64);
        lemma_mul_inequality(pow2(53) as int, pow2(64) as int, u as int);
        lemma_watts_are_close(a);
        let v = next.avg_value.num()->Fin_mag;
        lemma_average_close(v, a, n, sum * u);
    }
}

/// A finer bound is a coarser one.
proof fn lemma_coarser(x: int, n: nat)
    requires
        x * pow2(53) <= n,
        -x * pow2(53) <= n,
    ensures
        x * pow2(51) <= n,
        -x * pow2(51) <= n,
{
    lemma2_to64_rest();
    assert(x * pow2(51) <= n && -x * pow2(51) <= n) by (nonlinear_arith)
        requires
            x * pow2(53) <= n,
            -x * pow2(53) <= n,
            pow2(53) == 4 * pow2(51),
            n >= 0,
    ;
}

/// The errors of average and watts, put together.
proof fn lemma_average_close(v: nat, a: nat, n: nat, s: nat)
    requires
        n >= 1,
        (v * 1000 - a) * pow2(53) <= a,
        (a - v * 1000) * pow2(53) <= a,
        (a * n - s) * pow2(53) <= s,
        (s - a * n) * pow2(53) <= s,
    ensures
        (v * (1000 * n) - s) * pow2(51) <= s,
        (s - v * (1000 * n)) * pow2(51) <= s,
{
    lemma2_to64();
    lemma2_to64_rest();
    let h = pow2(53);
    let x = v * 1000 - a;
    let y = a * n - s;
    let z = v * (1000 * n) - s;
    assert(z == x * n + y) by (nonlinear_arith)
        requires
            x == v * 1000 - a,
            y == a * n - s,
            z == v * (1000 * n) - s,
    ;
    assert(a * n <= 2 * s) by (nonlinear_arith)
        requires
            y * h <= s,
            y == a * n - s,
            h >= 1,
            s >= 0,
    ;
    assert(x * n * h <= 2 * s && -(x * n * h) <= 2 * s) by (nonlinear_arith)
        requires
            x * h <= a,
            -x * h <= a,
            a * n <= 2 * s,
            n >= 1,
    {
        assert((x * h) * n <= a * n);
        assert((-x * h) * n <= a * n);
    }
    assert(z * h <= 4 * s && -z * h <= 4 * s) by (nonlinear_arith)
        requires
            z == x * n + y,
            x * n * h <= 2 * s,
            -(x * n * h) <= 2 * s,
            y * h <= s,
            -y * h <= s,
            s >= 0,
    ;
    assert(z * pow2(51) <= s && -z * pow2(51) <= s) by (nonlinear_arith)
        requires
            z * h <= 4 * s,
            -z * h <= 4 * s,
            h == 4 * pow2(51),
    ;
}

/// `v` is the reading `value`, in watts, averaged with the one before it, if one was kept and is not
/// zero; `items` are the readings before it in milliwatts, the newest first.
pub open spec fn is_latest(v: Num, items: Seq<u64>, value: Num) -> bool {
    if items.len() == 0 || items[0] == 0 {
        v == value
    } else {
        is_close(v, items[0] as nat * one() + 1000 * value->Fin_mag, 2000)
    }
}

/// The latest power that is shown is the mean of the newest reading and the one before it.
pub proof fn law_latest_is_smoothed(before: PowerStore, value: Num, next: PowerStore)
    requires
        before.advances(value, next),
        is_moderate(value),
        before.items.len() > 0 ==> before.items@[0] < pow2(53),
    ensures
        is_latest(next.top_value.num(), before.items@, value),
{
    let u = one();
    let items = before.items@;
    lemma_pow2_pos(1074);
    lemma2_to64();
    lemma2_to64_rest();
    lemma_mul_basics(u as int);
    if items.len() > 0 {
        let w = items[0] as nat;
        let x = w * u;
        lemma_integer_fits(w);
        lemma_mul_inequality(w as int, pow2(64) as int, u as int);
        if w > 0 {
            lemma_mul_inequality(1, w as int, u as int);
        }
        lemma_watts_are_close(x);
        let a = latest_watts(items)->Fin_mag;
        let v = value->Fin_mag;
        assert(latest_watts(items) == (Num::Fin { neg: false, mag: a }));
        if w == 0 {
            assert(a == 0) by (nonlinear_arith)
                requires
                    (a * 1000 - x) * pow2(53) <= x,
                    x == 0,
                    a >= 0,
                    pow2(53) > 0,
            ;
        } else {
            assert(2000 * a >= u) by (nonlinear_arith)
                requires
                    (x - a * 1000) * pow2(53) <= x,
                    x >= u,
                    u > 0,
                    pow2(53) >= 2,
            {
                assert((x - a * 1000) * 2 <= x) by (nonlinear_arith)
                    requires
                        (x - a * 1000) * pow2(53) <= x,
                        x >= 0,
                        pow2(53) >= 2,
                ;
            }
            lemma_watts(x, x);
            lemma_smoothed_is_close(a, value);
            let t = next.top_value.num()->Fin_mag;
            let s = rounded(a + v, 1, 53, 0);
            lemma_three_steps(x, a, v, s, t);
        }
    }
}

/// Half of the sum of two magnitudes, rounded twice.
proof fn lemma_smoothed_is_close(a: nat, value: Num)
    requires
        is_moderate(value),
        one() <= 2000 * a,
        a <= pow2(64) * one(),
    ensures
        ({
            let s = rounded(a + value->Fin_mag, 1, 53, 0);
            let m = a + value->Fin_mag;
            &&& smoothed_pair(Num::Fin { neg: false, mag: a }, value) matches Num::Fin {
                neg,
                mag,
            } && !neg && (s - 2 * mag) * pow2(53) <= s && (2 * mag - s) * pow2(53) <= s
            &&& (m - s) * pow2(53) <= m
            &&& (s - m) * pow2(53) <= m
        }),
{
    let u = one();
    let v = value->Fin_mag;
    let m = a + v;
    lemma_pow2_pos(1074);
    lemma2_to64();
    lemma2_to64_rest();
    lemma_mul_basics(u as int);
    lemma_rounded_relative(m, 53);
    let s = rounded(m, 1, 53, 0);
    lemma_mul_inequality(1_000_000_000, pow2(64) as int, u as int);
    lemma_pow2_adds(64, 1074);
    lemma_pow2_unfold(1139);
    lemma_pow2_strictly_increases(1139, 2098);
    reveal_pow2_zero();
    lemma_pow2_le(1, 53);
    let roof = pow2(1139);
    lemma_mul_basics(roof as int);
    assert(0 < m <= roof);
    lemma_rounded_le(m, 1, 1, 1139, 53, 0);
    assert(signed(value->Fin_neg, v) == v);
    assert(fit(Width::Double, sum(Num::Fin { neg: false, mag: a }, value)) == (Num::Fin {
        neg: false,
        mag: s,
    }));
    let d = 2 * u;
    assert(s * u <= roof * d) by (nonlinear_arith)
        requires
            s <= roof,
            u <= d,
    ;
    lemma_rounded_le(s * u, d, 1, 1139, 53, 0);
    lemma_pow2_adds(53, 1021);
    lemma_pow2_le(20, 1021);
    assert(2 * s >= m) by (nonlinear_arith)
        requires
            (m - s) * pow2(53) <= m,
            m >= 0,
            pow2(53) >= 2,
    ;
    assert(s * u >= pow2(53) * d) by (nonlinear_arith)
        requires
            4000 * s >= u,
            d == 2 * u,
            u == pow2(53) * pow2(1021),
            pow2(1021) >= 1_048_576,
            pow2(53) > 0,
    {
        assert(4000 * s >= pow2(53) * 1_048_576);
        assert(s >= pow2(53) * 2);
    }
    lemma_rounded_ratio(s * u, d, 53);
    let t = rounded(s * u, d, 53, 0);
    let y = 2 * t - s;
    assert(y * pow2(53) <= s && -y * pow2(53) <= s) by (nonlinear_arith)
        requires
            (s * u - t * d) * pow2(53) <= s * u,
            (t * d - s * u) * pow2(53) <= s * u,
            d == 2 * u,
            y == 2 * t - s,
            u > 0,
    {
        assert(t * d - s * u == y * u);
        assert((y * pow2(53)) * u <= s * u);
        assert((-y * pow2(53)) * u <= s * u);
    }
}

/// Three roundings, each to one part in `2^53`, are off by at most one part in `2^51`.
proof fn lemma_three_steps(x: nat, a: nat, v: nat, s: nat, t: nat)
    requires
        (a * 1000 - x) * pow2(53) <= x,
        (x - a * 1000) * pow2(53) <= x,
        (a + v - s) * pow2(53) <= a + v,
        (s - (a + v)) * pow2(53) <= a + v,
        (s - 2 * t) * pow2(53) <= s,
        (2 * t - s) * pow2(53) <= s,
    ensures
        (t * 2000 - (x + 1000 * v)) * pow2(51) <= x + 1000 * v,
        ((x + 1000 * v) - t * 2000) * pow2(51) <= x + 1000 * v,
{
    let n = x + 1000 * v;
    let p = pow2(53) as int;
    lemma2_to64_rest();
    lemma2_to64();
    let e = a * 1000 - x;
    let f = s - (a + v);
    let g = 2 * t - s;
    assert(t * 2000 - n == e + 1000 * f + 1000 * g);
    assert(4 * e <= n) by (nonlinear_arith)
        requires
            e * p <= x,
            x <= n,
            n >= 0,
            p >= 4,
    ;
    assert(4 * f <= a + v) by (nonlinear_arith)
        requires
            f * p <= a + v,
            a + v >= 0,
            p >= 4,
    ;
    assert((e + 1000 * f + 1000 * g) * p <= 4 * n && -(e + 1000 * f + 1000 * g) * p <= 4 * n)
        by (nonlinear_arith)
        requires
            e * p <= x,
            -e * p <= x,
            f * p <= a + v,
            -f * p <= a + v,
            g * p <= s,
            -g * p <= s,
            x + 1000 * (a + v) + 1000 * s <= 4 * n,
    ;
    assert(p == 4 * pow2(51)) by {
        lemma_pow2_adds(2, 51);
    }
    let z = t * 2000 - n;
    assert(z * pow2(51) <= n && -z * pow2(51) <= n) by (nonlinear_arith)
        requires
            z * p <= 4 * n,
            -z * p <= 4 * n,
            p == 4 * pow2(51),
    ;
}

/// A history takes a power in as long as all that it keeps and the power together are below `2^64`
/// milliwatts; while it is not full it takes no other.
pub proof fn law_accepted_powers(store: PowerStore, value: Num)
    requires
        store.wf(),
    ensures
        total(store.items@) + milliwatts(value) <= u64::MAX ==> store.accepts(value),
        store.items.len() < MAX_SPARKLINE ==> (store.accepts(value) <==> total(store.items@)
            + milliwatts(value) <= u64::MAX),
{
    let x = milliwatts(value) as u64;
    let items = store.items@;
    let all = seq![x] + items;
    law_truncated(fit(Width::Double, product(value, whole(1000))));
    law_total(seq![x], items, x);
    if all.len() > MAX_SPARKLINE {
        let kept = all.take(MAX_SPARKLINE as int);
        let rest = all.skip(MAX_SPARKLINE as int);
        law_total(kept, rest, x);
        assert(kept + rest =~= all);
    }
}

/// A history of powers of up to a gigawatt accepts every further one.
///
/// `states[i]` is the history before the power `values[i]`.
pub proof fn law_next_power_is_accepted(states: Seq<PowerStore>, values: Seq<Num>, more: Num)
    requires
        states.len() == values.len() + 1,
        states[0].is_fresh(),
        forall|i: int| 0 <= i < values.len() ==> is_moderate(#[trigger] values[i]),
        forall|i: int|
            0 <= i < values.len() ==> states[i].advances(#[trigger] values[i], states[i + 1]),
        is_moderate(more),
    ensures
        states.last().accepts(more),
{
    lemma_stays_mild(states, values, values.len() as int);
    lemma_mild_push(states.last(), more);
}

/// Over a history of powers of up to a gigawatt: what is kept are the readings in milliwatts, the
/// newest first, and what is shown is the newest averaged with the one before, the mean and the
/// greatest of what is kept.
///
/// `states[i]` is the history before the power `values[i]`.
pub proof fn law_powers_are_shown(states: Seq<PowerStore>, values: Seq<Num>, i: int)
    requires
        states.len() == values.len() + 1,
        states[0].is_fresh(),
        forall|j: int| 0 <= j < values.len() ==> is_moderate(#[trigger] values[j]),
        forall|j: int|
            0 <= j < values.len() ==> states[j].advances(#[trigger] values[j], states[j + 1]),
        0 <= i < values.len(),
    ensures
        is_history(
            states.last().items@,
            values.map_values(|v: Num| milliwatts(v) as u64),
            MAX_SPARKLINE as nat,
        ),
        is_latest(states[i + 1].top_value.num(), states[i].items@, values[i]),
        is_close(
            states[i + 1].avg_value.num(),
            total(states[i + 1].items@) * one(),
            1000 * states[i + 1].items@.len(),
        ),
        is_close(
            states[i + 1].max_value.num(),
            greatest(states[i + 1].items@) as nat * one(),
            1000,
        ),
{
    let track = Seq::new(states.len(), |j: int| states[j].items@);
    let kept = values.map_values(|v: Num| milliwatts(v) as u64);
    assert forall|j: int| 0 <= j < kept.len() implies track[j + 1] == pushed(
        track[j],
        #[trigger] kept[j],
        MAX_SPARKLINE as nat,
    ) by {
        assert(states[j].advances(values[j], states[j + 1]));
    }
    law_history(track, kept, MAX_SPARKLINE as nat);
    lemma_stays_mild(states, values, i);
    lemma_mild_push(states[i], values[i]);
    lemma2_to64_rest();
    law_latest_is_smoothed(states[i], values[i], states[i + 1]);
    law_power_statistics(states[i], values[i], states[i + 1]);
}

} // verus!
