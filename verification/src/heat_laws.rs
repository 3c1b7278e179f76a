//! Laws of the temperatures: what a history keeps, and what stands in for a silent sensor.

use crate::ieee::{fit, is_zero, one, opposite, product, sum, whole, Num, Single, Width};
use crate::rounding::{
    law_rounding_error, lemma_pow2_le, lemma_quantum_range, lemma_rounded_exact, lemma_rounded_le,
    lemma_rounded_same, quantum, reveal_pow2_zero, rounded,
};
use crate::stores::{
    is_history, law_history, law_newest_first, pushed, smoothed, smoothing_step, temps_after, trend,
    trend_weight, MAX_TEMPS,
};
use vstd::arithmetic::div_mod::*;
use vstd::arithmetic::mul::*;
use vstd::arithmetic::power2::*;
use vstd::prelude::*;

verus! {

/// A reading that is not negative, and no more than a sensor can tell.
pub open spec fn is_heat(x: Num) -> bool {
    x matches Num::Fin { neg, mag } && !neg && mag <= pow2(1100)
}

/// `t` is four fifths of `x` and one fifth of `before`, to one part in `2^21`.
pub open spec fn is_blend(t: nat, x: nat, before: nat) -> bool {
    let n = 4 * x + before;
    &&& (5 * t - n) * pow2(21) <= n
    &&& (n - 5 * t) * pow2(21) <= n
}

/// A rounded quotient is off by at most one part in `2^p`, and a step of the finest grid.
proof fn lemma_rounded_mixed(n: nat, d: nat, p: nat, low: nat)
    requires
        d > 0,
        p >= 1,
    ensures
        (n - rounded(n, d, p, low) * d) * pow2(p) <= n + d * pow2(low + p),
        (rounded(n, d, p, low) * d - n) * pow2(p) <= n + d * pow2(low + p),
{
    let q = n / d;
    let g = quantum(q, p, low);
    let step = pow2(g);
    let e = rounded(n, d, p, low) * d - n;
    let m = pow2(p);
    law_rounding_error(n, d, p, low);
    lemma_quantum_range(q, p, low);
    lemma_pow2_pos(p);
    lemma_pow2_pos(low + p);
    lemma_fundamental_div_mod(n as int, d as int);
    lemma_mod_bound(n as int, d as int);
    if g == low {
        lemma_pow2_adds(low, p);
        assert(e * m <= d * (step * m) && -e * m <= d * (step * m)) by (nonlinear_arith)
            requires
                2 * e <= d * step,
                -2 * e <= d * step,
                m > 0,
                d > 0,
                step >= 0,
        {
            assert(e <= d * step && -e <= d * step);
            assert(e * m <= (d * step) * m && -e * m <= (d * step) * m);
            assert((d * step) * m == d * (step * m));
        }
    } else {
        let h = pow2((p + g - 1) as nat);
        lemma_pow2_unfold(p + g);
        lemma_pow2_adds(p, g);
        assert(2 * h == m * step);
        let z = d * step;
        assert(z * m == 2 * (d * h)) by (nonlinear_arith)
            requires
                z == d * step,
                2 * h == m * step,
        ;
        lemma_mul_inequality(h as int, q as int, d as int);
        lemma_mul_is_commutative(d as int, h as int);
        lemma_mul_is_commutative(d as int, q as int);
        assert(e * m <= n && -e * m <= n) by (nonlinear_arith)
            requires
                2 * e <= z,
                -2 * e <= z,
                z * m <= 2 * n,
                m > 0,
        {
            assert((2 * e) * m <= z * m);
            assert((-2 * e) * m <= z * m);
        }
        assert(d * pow2(low + p) >= 0) by (nonlinear_arith)
            requires
                d > 0,
        ;
    }
}

/// The weight of the newest reading, and what is left of one, in the least units.
proof fn lemma_weights()
    ensures
        trend_weight().num() == (Num::Fin { neg: false, mag: 13_421_773 * pow2(1050) }),
        fit(Width::Single, sum(whole(1), opposite(trend_weight().num()))) == (Num::Fin {
            neg: false,
            mag: 3_355_443 * pow2(1050),
        }),
        one() == 16_777_216 * pow2(1050),
{
    reveal(Single::num);
    lemma2_to64();
    lemma2_to64_rest();
    lemma_pow2_adds(24, 1050);
    lemma_pow2_pos(1050);
    let w = pow2(1050);
    assert(trend_weight().num() == (Num::Fin { neg: false, mag: 13_421_773 * w }));
    lemma_rounded_exact(3_355_443, 1050, 24, 925);
    lemma_pow2_le(1074, 1202);
    lemma_pow2_strictly_increases(1074, 1202);
    lemma_mul_basics(one() as int);
    assert(3_355_443 * w == one() - 13_421_773 * w);
}

/// The weight is four fifths, to one part in `2^25`.
pub proof fn law_trend_weight()
    ensures
        ({
            let w = trend_weight().num();
            &&& w matches Num::Fin { neg, .. } && !neg
            &&& -(4 * one()) <= (5 * w->Fin_mag - 4 * one()) * pow2(25) <= 4 * one()
        }),
{
    lemma_weights();
    lemma2_to64();
    lemma_pow2_pos(1050);
    let w = pow2(1050);
    assert(5 * (13_421_773 * w) - 4 * (16_777_216 * w) == w);
    assert(w * 0x200_0000 <= 4 * (16_777_216 * w));
}

/// What one product and one more make of a reading and of the trend before it.
proof fn lemma_parts(x: nat, a: nat)
    requires
        x <= pow2(1100),
        a < 16_777_216,
    ensures
        ({
            let r = fit(
                Width::Single,
                product(
                    Num::Fin { neg: false, mag: a * pow2(1050) },
                    Num::Fin { neg: false, mag: x },
                ),
            );
            &&& r matches Num::Fin { neg, mag } && !neg && mag <= a * pow2(1076)
            &&& (r->Fin_mag * 16_777_216 - a * x) * 16_777_216 <= a * x + pow2(973)
            &&& (a * x - r->Fin_mag * 16_777_216) * 16_777_216 <= a * x + pow2(973)
        }),
{
    let w = pow2(1050);
    let u = one();
    let d: nat = 16_777_216;
    lemma_weights();
    lemma2_to64();
    lemma_pow2_pos(1050);
    let n = (a * w) * x;
    let m = a * x;
    assert(n * d == m * u) by (nonlinear_arith)
        requires
            n == (a * w) * x,
            m == a * x,
            u == d * w,
    ;
    lemma_rounded_same(n, u, m, d, 24, 925);
    lemma_rounded_mixed(m, d, 24, 925);
    lemma_pow2_adds(24, 949);
    lemma_pow2_adds(24, 1076);
    assert(m <= (a * pow2(1076)) * d) by (nonlinear_arith)
        requires
            m == a * x,
            x <= pow2(1100),
            pow2(1100) == d * pow2(1076),
            a >= 0,
    ;
    lemma_rounded_le(m, d, a, 1076, 24, 925);
    lemma_pow2_strictly_increases(1100, 1202);
    assert(a * pow2(1076) <= pow2(1100)) by (nonlinear_arith)
        requires
            a < d,
            pow2(1100) == d * pow2(1076),
    ;
}

/// One step of smoothing blends the newest reading with the trend before it.
proof fn lemma_step(x: nat, b: nat)
    requires
        x <= pow2(1100),
        b <= pow2(1100),
    ensures
        ({
            let t = smoothing_step(
                trend_weight().num(),
                Num::Fin { neg: false, mag: x },
                Num::Fin { neg: false, mag: b },
            );
            &&& is_heat(t)
            &&& x >= pow2(1000) ==> is_blend(t->Fin_mag, x, b)
        }),
{
    let wa = 13_421_773 * pow2(1050);
    let wb = 3_355_443 * pow2(1050);
    let xs = Num::Fin { neg: false, mag: x };
    let bs = Num::Fin { neg: false, mag: b };
    lemma_weights();
    lemma_parts(x, 13_421_773);
    lemma_parts(b, 3_355_443);
    let f = fit(Width::Single, product(Num::Fin { neg: false, mag: wa }, xs));
    let g = fit(Width::Single, product(Num::Fin { neg: false, mag: wb }, bs));
    let p = f->Fin_mag;
    let q = g->Fin_mag;
    let m = p + q;
    lemma2_to64();
    lemma_pow2_adds(24, 1076);
    lemma_pow2_pos(1076);
    assert(m <= pow2(1100));
    reveal_pow2_zero();
    lemma_mul_basics(pow2(1100) as int);
    lemma_rounded_le(m, 1, 1, 1100, 24, 925);
    lemma_pow2_strictly_increases(1100, 1202);
    let t = rounded(m, 1, 24, 925);
    lemma_mul_basics(t as int);
    assert(fit(Width::Single, sum(f, g)) == (Num::Fin { neg: false, mag: t }));
    if x >= pow2(1000) {
        lemma_rounded_mixed(m, 1, 24, 925);
        lemma_mul_basics(pow2(949) as int);
        lemma_pow2_adds(24, 949);
        lemma_pow2_adds(27, 973);
        lemma_pow2_pos(973);
        lemma_pow2_pos(949);
        lemma_blend(x, b, p, q, t, pow2(949) as int);
    }
}

/// Three roundings, each to one part in `2^24` and a step `c` of the finest grid.
proof fn lemma_blend(x: nat, b: nat, p: nat, q: nat, t: nat, c: int)
    requires
        c > 0,
        x >= 0x800_0000 * (0x100_0000 * c),
        (p * 16_777_216 - 13_421_773 * x) * 16_777_216 <= 13_421_773 * x + 0x100_0000 * c,
        (13_421_773 * x - p * 16_777_216) * 16_777_216 <= 13_421_773 * x + 0x100_0000 * c,
        (q * 16_777_216 - 3_355_443 * b) * 16_777_216 <= 3_355_443 * b + 0x100_0000 * c,
        (3_355_443 * b - q * 16_777_216) * 16_777_216 <= 3_355_443 * b + 0x100_0000 * c,
        (p + q - t) * 16_777_216 <= p + q + c,
        (t - (p + q)) * 16_777_216 <= p + q + c,
    ensures
        is_blend(t, x, b),
{
    let s = 13_421_773 * x + 3_355_443 * b;
    let e = 16_777_216 * t - s;
    assert(e * 16_777_216 <= 4 * s && -e * 16_777_216 <= 4 * s);
    let n = 4 * x + b;
    assert(5 * s == 16_777_216 * n + x - b);
    lemma2_to64();
    assert((5 * t - n) * 0x20_0000 <= n && (n - 5 * t) * 0x20_0000 <= n);
}

/// The trend is a reading like others, and blends the newest reading with the trend of the older
/// ones, of which a single one is its own trend.
pub proof fn law_trend(items: Seq<Num>)
    requires
        items.len() >= 2,
        forall|i: int| 0 <= i < items.len() ==> is_heat(#[trigger] items[i]),
        items[0]->Fin_mag >= pow2(1000),
    ensures
        ({
            let t = trend(items, trend_weight().num());
            let older = if items.len() == 2 {
                items[1]
            } else {
                trend(items.drop_first(), trend_weight().num())
            };
            &&& is_heat(t)
            &&& is_heat(older)
            &&& is_blend(t->Fin_mag, items[0]->Fin_mag, older->Fin_mag)
        }),
{
    let rest = items.drop_first();
    lemma_smoothed_is_heat(rest);
    let b = smoothed(rest, trend_weight().num());
    lemma_step(items[0]->Fin_mag, b->Fin_mag);
    assert(items[0] == (Num::Fin { neg: false, mag: items[0]->Fin_mag }));
    assert(b == (Num::Fin { neg: false, mag: b->Fin_mag }));
    assert(rest[0] == items[1]);
}

proof fn lemma_smoothed_is_heat(items: Seq<Num>)
    requires
        items.len() >= 1,
        forall|i: int| 0 <= i < items.len() ==> is_heat(#[trigger] items[i]),
    ensures
        is_heat(smoothed(items, trend_weight().num())),
    decreases items.len(),
{
    if items.len() > 1 {
        let rest = items.drop_first();
        assert forall|i: int| 0 <= i < rest.len() implies is_heat(#[trigger] rest[i]) by {
            assert(rest[i] == items[i + 1]);
        }
        lemma_smoothed_is_heat(rest);
        let b = smoothed(rest, trend_weight().num());
        assert(is_heat(items[0]));
        lemma_step(items[0]->Fin_mag, b->Fin_mag);
        assert(items[0] == (Num::Fin { neg: false, mag: items[0]->Fin_mag }));
        assert(b == (Num::Fin { neg: false, mag: b->Fin_mag }));
    }
}

/// A reading comes first in the history, as it is, and the older ones keep their order behind it, no
/// more than eight in all. A silent sensor leaves fewer than two readings as they are, and puts the
/// trend in front of more.
pub proof fn law_heat_is_kept(items: Seq<Num>, value: Num)
    ensures
        ({
            let r = temps_after(items, value);
            &&& !is_zero(value) || (items.len() >= 2 && !is_zero(
                trend(items, trend_weight().num()),
            )) ==> {
                &&& r.len() == if items.len() < 8 {
                    items.len() + 1
                } else {
                    8
                }
                &&& r[0] == if is_zero(value) {
                    trend(items, trend_weight().num())
                } else {
                    value
                }
                &&& forall|i: int| 1 <= i < r.len() ==> #[trigger] r[i] == items[i - 1]
            }
            &&& is_zero(value) && items.len() < 2 ==> r == items
        }),
{
    lemma_mul_basics(one() as int);
    if !is_zero(value) {
        law_newest_first(items, value, MAX_TEMPS as nat);
    } else if items.len() >= 2 {
        law_newest_first(items, trend(items, trend_weight().num()), MAX_TEMPS as nat);
    }
}

/// While its sensor is not silent, a history holds the latest eight readings, the newest first.
///
/// `states[i]` is the history before the reading `values[i]`.
pub proof fn law_heat_history(states: Seq<Seq<Num>>, values: Seq<Num>)
    requires
        states.len() == values.len() + 1,
        states[0] == Seq::<Num>::empty(),
        forall|i: int| 0 <= i < values.len() ==> !is_zero(#[trigger] values[i]),
        forall|i: int|
            0 <= i < values.len() ==> states[i + 1] == temps_after(states[i], #[trigger] values[i]),
    ensures
        is_history(states.last(), values, 8),
{
    assert forall|i: int| 0 <= i < values.len() implies states[i + 1] == pushed(
        states[i],
        #[trigger] values[i],
        8,
    ) by {
        assert(!is_zero(values[i]));
    }
    law_history(states, values, 8);
}

} // verus!
