//! IEEE 754 values carried as their bits.
//!
//! Sensors deliver `binary32` readings and the statistics are kept in `binary64`. Both are held
//! here as the integers that encode them, and every operation is carried out on integers: the
//! exact result first ([`Exact`]), then the one rounding that the standard prescribes ([`fit`]).
//!
//! A finite value is a sign and a magnitude, and magnitudes are counted in units of `2^-1074`, the
//! smallest step of `binary64`. Every finite value of either width is a whole number of units.

use crate::rounding::{
    bit_length, brackets, down, law_rounding_is_monotone, lemma_pow2_127, lemma_pow2_le,
    lemma_rounded_exact, lemma_rounded_le, power_of_two, reveal_pow2_zero, round_parts, rounded, up,
};
use vstd::arithmetic::div_mod::*;
use vstd::arithmetic::mul::*;
use vstd::arithmetic::power2::*;
use vstd::prelude::*;

verus! {

/// What a floating-point value stands for.
pub enum Num {
    /// Not a number.
    Nan,
    /// An infinity.
    Inf { neg: bool },
    /// A finite value: its sign, and its magnitude in units of `2^-1074`.
    Fin { neg: bool, mag: nat },
}

/// The two interchange formats in use.
#[derive(Clone, Copy, PartialEq, Eq, Structural)]
pub enum Width {
    Single,
    Double,
}

/// An arithmetic result before rounding: the fraction `n / d`, in units.
pub enum Exact {
    Nan,
    Inf { neg: bool },
    Ratio { neg: bool, n: nat, d: nat },
}

/// The magnitude of one.
pub open spec fn one() -> nat {
    pow2(1074)
}

/// The value of the natural number `n`.
pub open spec fn whole(n: nat) -> Num {
    Num::Fin { neg: false, mag: n * one() }
}

/// The significant bits of a format.
pub open spec fn precision(w: Width) -> nat {
    match w {
        Width::Single => 24,
        Width::Double => 53,
    }
}

/// The exponent of the smallest step of a format.
pub open spec fn lowest(w: Width) -> nat {
    match w {
        Width::Single => 925,
        Width::Double => 0,
    }
}

/// The exponent at which a format overflows.
pub open spec fn limit(w: Width) -> nat {
    match w {
        Width::Single => 1202,
        Width::Double => 2098,
    }
}

/// Rounding to a format: nearest, ties to even, infinity from the limit on.
pub open spec fn fit(w: Width, x: Exact) -> Num {
    match x {
        Exact::Nan => Num::Nan,
        Exact::Inf { neg } => Num::Inf { neg },
        Exact::Ratio { neg, n, d } => {
            let mag = rounded(n, d, precision(w), lowest(w));
            if mag >= pow2(limit(w)) {
                Num::Inf { neg }
            } else {
                Num::Fin { neg, mag }
            }
        },
    }
}

/// The exact value of a number.
pub open spec fn exactly(a: Num) -> Exact {
    match a {
        Num::Nan => Exact::Nan,
        Num::Inf { neg } => Exact::Inf { neg },
        Num::Fin { neg, mag } => Exact::Ratio { neg, n: mag, d: 1 },
    }
}

/// The signed magnitude.
pub open spec fn signed(neg: bool, mag: nat) -> int {
    if neg {
        -(mag as int)
    } else {
        mag as int
    }
}

/// The sum. A sum of zero is negative only when both operands are.
pub open spec fn sum(a: Num, b: Num) -> Exact {
    match (a, b) {
        (Num::Nan, _) => Exact::Nan,
        (_, Num::Nan) => Exact::Nan,
        (Num::Inf { neg: x }, Num::Inf { neg: y }) => if x == y {
            Exact::Inf { neg: x }
        } else {
            Exact::Nan
        },
        (Num::Inf { neg }, _) => Exact::Inf { neg },
        (_, Num::Inf { neg }) => Exact::Inf { neg },
        (Num::Fin { neg: x, mag: m }, Num::Fin { neg: y, mag: k }) => {
            let t = signed(x, m) + signed(y, k);
            if t == 0 {
                Exact::Ratio { neg: x && y, n: 0, d: 1 }
            } else if t < 0 {
                Exact::Ratio { neg: true, n: (-t) as nat, d: 1 }
            } else {
                Exact::Ratio { neg: false, n: t as nat, d: 1 }
            }
        },
    }
}

/// The product.
pub open spec fn product(a: Num, b: Num) -> Exact {
    match (a, b) {
        (Num::Nan, _) => Exact::Nan,
        (_, Num::Nan) => Exact::Nan,
        (Num::Inf { neg: x }, Num::Inf { neg: y }) => Exact::Inf { neg: x != y },
        (Num::Inf { neg: x }, Num::Fin { neg: y, mag }) => if mag == 0 {
            Exact::Nan
        } else {
            Exact::Inf { neg: x != y }
        },
        (Num::Fin { neg: x, mag }, Num::Inf { neg: y }) => if mag == 0 {
            Exact::Nan
        } else {
            Exact::Inf { neg: x != y }
        },
        (Num::Fin { neg: x, mag: m }, Num::Fin { neg: y, mag: k }) => Exact::Ratio {
            neg: x != y,
            n: m * k,
            d: one(),
        },
    }
}

/// The quotient.
pub open spec fn quotient(a: Num, b: Num) -> Exact {
    match (a, b) {
        (Num::Nan, _) => Exact::Nan,
        (_, Num::Nan) => Exact::Nan,
        (Num::Inf { .. }, Num::Inf { .. }) => Exact::Nan,
        (Num::Inf { neg: x }, Num::Fin { neg: y, .. }) => Exact::Inf { neg: x != y },
        (Num::Fin { neg: x, .. }, Num::Inf { neg: y }) => Exact::Ratio { neg: x != y, n: 0, d: 1 },
        (Num::Fin { neg: x, mag: m }, Num::Fin { neg: y, mag: k }) => if k == 0 {
            if m == 0 {
                Exact::Nan
            } else {
                Exact::Inf { neg: x != y }
            }
        } else {
            Exact::Ratio { neg: x != y, n: m * one(), d: k }
        },
    }
}

/// `a > b`; false when either is not a number.
pub open spec fn above(a: Num, b: Num) -> bool {
    match (a, b) {
        (Num::Nan, _) => false,
        (_, Num::Nan) => false,
        (Num::Inf { neg: x }, Num::Inf { neg: y }) => !x && y,
        (Num::Inf { neg }, Num::Fin { .. }) => !neg,
        (Num::Fin { .. }, Num::Inf { neg }) => neg,
        (Num::Fin { neg: x, mag: m }, Num::Fin { neg: y, mag: k }) => signed(x, m) > signed(y, k),
    }
}

/// Either zero.
pub open spec fn is_zero(a: Num) -> bool {
    a matches Num::Fin { mag, .. } && mag == 0
}

/// The integer below, as an unsigned 64-bit integer: zero for negatives and for what is not a
/// number, the greatest one where the value is too large.
pub open spec fn truncated(a: Num) -> nat {
    match a {
        Num::Nan => 0,
        Num::Inf { neg } => if neg {
            0
        } else {
            u64::MAX as nat
        },
        Num::Fin { neg, mag } => if neg {
            0
        } else if mag / one() > u64::MAX {
            u64::MAX as nat
        } else {
            mag / one()
        },
    }
}

/// The nearest integer, halves away from zero, as an unsigned 64-bit integer.
pub open spec fn nearest_whole(a: Num) -> nat {
    match a {
        Num::Nan => 0,
        Num::Inf { neg } => if neg {
            0
        } else {
            u64::MAX as nat
        },
        Num::Fin { neg, mag } => if neg {
            0
        } else if (2 * mag + one()) / (2 * one()) > u64::MAX {
            u64::MAX as nat
        } else {
            (2 * mag + one()) / (2 * one())
        },
    }
}

/// A value taken apart: a finite magnitude is `mant * 2^exp` units.
#[derive(Clone, Copy)]
pub enum Parts {
    Nan,
    Inf { neg: bool },
    Fin { neg: bool, mant: u64, exp: u32 },
}

impl Parts {
    pub open spec fn num(self) -> Num {
        match self {
            Parts::Nan => Num::Nan,
            Parts::Inf { neg } => Num::Inf { neg },
            Parts::Fin { neg, mant, exp } => Num::Fin { neg, mag: mant as nat * pow2(exp as nat) },
        }
    }

    /// The significand has no more bits than the format keeps, and all of them above its lowest step.
    pub open spec fn of_width(self, w: Width) -> bool {
        self matches Parts::Fin { mant, exp, .. } ==> {
            &&& mant < pow2(precision(w))
            &&& lowest(w) <= exp <= limit(w) - precision(w)
            &&& exp > lowest(w) ==> mant >= pow2((precision(w) - 1) as nat)
        }
    }
}

/// An exact result as the integer `sig * 2^e` below it and whether something is left over.
#[derive(Clone, Copy)]
enum Raw {
    Nan,
    Inf { neg: bool },
    Ratio { neg: bool, sig: u128, left_over: bool, e: i32 },
}

impl Raw {
    spec fn denotes(self, x: Exact, w: Width) -> bool {
        match (self, x) {
            (Raw::Nan, Exact::Nan) => true,
            (Raw::Inf { neg: a }, Exact::Inf { neg: b }) => a == b,
            (Raw::Ratio { neg: a, sig, left_over, e }, Exact::Ratio { neg: b, n, d }) => {
                &&& a == b
                &&& d > 0
                &&& -8000 <= e <= 8000
                &&& brackets(sig as nat, left_over, e as int, n, d)
                &&& left_over ==> sig >= pow2(precision(w) + 1)
            },
            _ => false,
        }
    }
}

/// An exact fraction brackets itself.
proof fn lemma_brackets_exact(sig: nat, e: int, n: nat, d: nat)
    requires
        d > 0,
        sig * (d * up(e)) == n * down(e),
    ensures
        brackets(sig, false, e, n, d),
{
    lemma_pow2_pos(if e >= 0 { e as nat } else { 0 });
    let g = d * up(e);
    assert(g > 0) by (nonlinear_arith)
        requires
            g == d * up(e),
            d > 0,
            up(e) > 0,
    ;
    assert(sig * g < (sig + 1) * g) by (nonlinear_arith)
        requires
            g > 0,
    ;
}

/// `mant * 2^exp` units, as a raw result.
proof fn lemma_raw_whole(mant: nat, exp: nat)
    ensures
        brackets(mant, false, exp as int, mant * pow2(exp), 1),
{
    reveal_pow2_zero();
    lemma_mul_basics((mant * pow2(exp)) as int);
    lemma_mul_basics(pow2(exp) as int);
    lemma_brackets_exact(mant, exp as int, mant * pow2(exp), 1);
}

fn raw_of(a: Parts, Ghost(w): Ghost<Width>) -> (r: Raw)
    requires
        a matches Parts::Fin { exp, .. } ==> exp <= 2045,
    ensures
        r.denotes(exactly(a.num()), w),
{
    match a {
        Parts::Nan => Raw::Nan,
        Parts::Inf { neg } => Raw::Inf { neg },
        Parts::Fin { neg, mant, exp } => {
            proof {
                lemma_raw_whole(mant as nat, exp as nat);
            }
            Raw::Ratio { neg, sig: mant as u128, left_over: false, e: exp as i32 }
        },
    }
}

fn raw_product(a: Parts, b: Parts, Ghost(w): Ghost<Width>) -> (r: Raw)
    requires
        a.of_width(w),
        b.of_width(w),
    ensures
        r.denotes(product(a.num(), b.num()), w),
{
    proof {
        lemma_mag_zero(a);
        lemma_mag_zero(b);
        lemma_widths();
    }
    match (a, b) {
        (Parts::Nan, _) => Raw::Nan,
        (_, Parts::Nan) => Raw::Nan,
        (Parts::Inf { neg: x }, Parts::Inf { neg: y }) => Raw::Inf { neg: x != y },
        (Parts::Inf { neg: x }, Parts::Fin { neg: y, mant, .. }) => if mant == 0 {
            Raw::Nan
        } else {
            Raw::Inf { neg: x != y }
        },
        (Parts::Fin { neg: x, mant, .. }, Parts::Inf { neg: y }) => if mant == 0 {
            Raw::Nan
        } else {
            Raw::Inf { neg: x != y }
        },
        (Parts::Fin { neg: x, mant: m, exp: i }, Parts::Fin { neg: y, mant: k, exp: j }) => {
            proof {
                assert(m * k < 0x20_0000_0000_0000 * 0x20_0000_0000_0000) by (nonlinear_arith)
                    requires
                        m < 0x20_0000_0000_0000,
                        k < 0x20_0000_0000_0000,
                ;
            }
            let sig: u128 = m as u128 * k as u128;
            let e: i32 = i as i32 + j as i32 - 1074;
            proof {
                lemma_product(m as nat, i as nat, k as nat, j as nat);
            }
            Raw::Ratio { neg: x != y, sig, left_over: false, e }
        },
    }
}

/// The bounds that the two widths put on significands and exponents.
proof fn lemma_widths()
    ensures
        pow2(53) == 0x20_0000_0000_0000,
        pow2(52) == 0x10_0000_0000_0000,
        pow2(24) == 0x100_0000,
        pow2(23) == 0x80_0000,
        pow2(25) == 0x200_0000,
        pow2(54) == 0x40_0000_0000_0000,
{
    lemma2_to64();
    lemma2_to64_rest();
}

proof fn lemma_mag_zero(a: Parts)
    ensures
        a matches Parts::Fin { mant, .. } ==> (mant == 0 <==> is_zero(a.num())),
{
    if let Parts::Fin { mant, exp, .. } = a {
        lemma_pow2_pos(exp as nat);
        let p = pow2(exp as nat);
        assert(mant == 0 <==> mant as nat * p == 0) by (nonlinear_arith)
            requires
                p > 0,
                mant >= 0,
        ;
    }
}

proof fn lemma_product(m: nat, i: nat, k: nat, j: nat)
    ensures
        brackets(m * k, false, i + j - 1074, (m * pow2(i)) * (k * pow2(j)), one()),
        one() > 0,
{
    let e = i + j - 1074;
    let n = (m * pow2(i)) * (k * pow2(j));
    lemma_pow2_pos(1074);
    lemma_pow2_adds(i, j);
    reveal_pow2_zero();
    // one() * up(e) == pow2(i + j) * down(e)
    if e >= 0 {
        lemma_pow2_adds(1074, e as nat);
        lemma_mul_basics(pow2(i + j) as int);
    } else {
        lemma_pow2_adds(i + j, (-e) as nat);
        lemma_mul_basics(one() as int);
    }
    let a = pow2(i);
    let b = pow2(j);
    let u = one() * up(e);
    let v = down(e);
    assert((m * k) * u == n * v) by (nonlinear_arith)
        requires
            u == (a * b) * v,
            n == (m * a) * (k * b),
    ;
    lemma_brackets_exact(m * k, e, n, one());
}

fn raw_quotient(a: Parts, b: Parts, Ghost(w): Ghost<Width>) -> (r: Raw)
    requires
        a.of_width(w),
        b.of_width(w),
    ensures
        r.denotes(quotient(a.num(), b.num()), w),
{
    proof {
        lemma_mag_zero(a);
        lemma_mag_zero(b);
        lemma_widths();
    }
    match (a, b) {
        (Parts::Nan, _) => Raw::Nan,
        (_, Parts::Nan) => Raw::Nan,
        (Parts::Inf { .. }, Parts::Inf { .. }) => Raw::Nan,
        (Parts::Inf { neg: x }, Parts::Fin { neg: y, .. }) => Raw::Inf { neg: x != y },
        (Parts::Fin { neg: x, .. }, Parts::Inf { neg: y }) => {
            proof {
                lemma_raw_whole(0, 0);
                assert(0 * pow2(0) == 0) by (nonlinear_arith);
            }
            Raw::Ratio { neg: x != y, sig: 0, left_over: false, e: 0 }
        },
        (Parts::Fin { neg: x, mant: m, exp: i }, Parts::Fin { neg: y, mant: k, exp: j }) => {
            if k == 0 {
                if m == 0 {
                    return Raw::Nan;
                }
                return Raw::Inf { neg: x != y };
            }
            if m == 0 {
                proof {
                    let d = k as nat * pow2(j as nat);
                    assert(0 * one() == 0) by (nonlinear_arith);
                    assert(0 * (d * up(0)) == 0) by (nonlinear_arith);
                    assert(0 * down(0) == 0) by (nonlinear_arith);
                    lemma_brackets_exact(0, 0, 0, d);
                }
                return Raw::Ratio { neg: x != y, sig: 0, left_over: false, e: 0 };
            }
            let len: u32 = bit_length(m as u128);
            proof {
                if len > 53 {
                    lemma_pow2_le(53, (len - 1) as nat);
                }
            }
            let shift: u32 = 127 - len;
            let by: u128 = power_of_two(shift);
            proof {
                lemma_pow2_127();
                lemma_pow2_pos(shift as nat);
                lemma_pow2_adds(len as nat, shift as nat);
                lemma_pow2_adds((len - 1) as nat, shift as nat);
                assert(m * by < pow2(127)) by (nonlinear_arith)
                    requires
                        m < pow2(len as nat),
                        pow2(len as nat) * by == pow2(127),
                        by > 0,
                ;
                assert(m * by >= pow2(126)) by (nonlinear_arith)
                    requires
                        m >= pow2((len - 1) as nat),
                        pow2((len - 1) as nat) * by == pow2(126),
                        by > 0,
                ;
            }
            let scaled: u128 = m as u128 * by;
            let sig: u128 = scaled / (k as u128);
            let left_over: bool = scaled % (k as u128) != 0;
            let e: i32 = i as i32 - j as i32 - shift as i32 + 1074;
            proof {
                lemma_quotient(m as nat, i as nat, k as nat, j as nat, shift as nat);
                // enough bits: sig >= 2^126 / 2^53
                lemma_pow2_adds(73, 53);
                lemma_pow2_le(54, 73);
                lemma_pow2_le(25, 54);
                let t = pow2(73);
                lemma_fundamental_div_mod(scaled as int, k as int);
                lemma_mod_bound(scaled as int, k as int);
                assert(sig >= t) by (nonlinear_arith)
                    requires
                        scaled == k * sig + scaled % (k as u128),
                        0 <= scaled % (k as u128) < k,
                        scaled >= t * pow2(53),
                        k < pow2(53),
                        t > 0,
                ;
            }
            Raw::Ratio { neg: x != y, sig, left_over, e }
        },
    }
}

proof fn lemma_quotient(m: nat, i: nat, k: nat, j: nat, shift: nat)
    requires
        k > 0,
    ensures
        ({
            let scaled = m * pow2(shift);
            let n = (m * pow2(i)) * one();
            let d = k * pow2(j);
            &&& d > 0
            &&& brackets(scaled / k, scaled % k != 0, i - j - shift + 1074, n, d)
        }),
{
    let e: int = i - j - shift + 1074;
    let scaled = m * pow2(shift);
    let n = (m * pow2(i)) * one();
    let d = k * pow2(j);
    lemma_pow2_pos(j);
    assert(d > 0) by (nonlinear_arith)
        requires
            d == k * pow2(j),
            k > 0,
            pow2(j) > 0,
    ;
    let u = up(e);
    let v = down(e);
    lemma_pow2_pos(if e >= 0 { e as nat } else { 0 });
    lemma_pow2_pos(if e >= 0 { 0 } else { (-e) as nat });
    // pow2(j) * u * pow2(shift) == pow2(i) * one() * v
    lemma_pow2_adds(i, 1074);
    lemma_pow2_adds(j, shift);
    let pj = pow2(j);
    let ps = pow2(shift);
    let pi = pow2(i);
    let g = pj * u;
    if e >= 0 {
        lemma_pow2_adds(j + shift, e as nat);
        reveal_pow2_zero();
    } else {
        lemma_pow2_adds(i + 1074, (-e) as nat);
        reveal_pow2_zero();
    }
    assert((pj * ps) * u == (pi * one()) * v) by {
        lemma_mul_basics((pj * ps) as int);
        lemma_mul_basics((pi * one()) as int);
    }
    assert(g * ps == (pi * one()) * v) by (nonlinear_arith)
        requires
            g == pj * u,
            (pj * ps) * u == (pi * one()) * v,
    ;
    assert(n * v == scaled * g) by (nonlinear_arith)
        requires
            n == (m * pi) * one(),
            scaled == m * ps,
            g * ps == (pi * one()) * v,
    ;
    assert(d * u == k * g) by (nonlinear_arith)
        requires
            d == k * pj,
            g == pj * u,
    ;
    assert(g > 0) by (nonlinear_arith)
        requires
            g == pj * u,
            pj > 0,
            u > 0,
    ;
    let q = scaled / k;
    let r = scaled % k;
    lemma_fundamental_div_mod(scaled as int, k as int);
    lemma_mod_bound(scaled as int, k as int);
    assert(q * (k * g) <= scaled * g < (q + 1) * (k * g)) by (nonlinear_arith)
        requires
            scaled == k * q + r,
            0 <= r < k,
            g > 0,
    ;
    assert(scaled * g - q * (k * g) == r * g) by (nonlinear_arith)
        requires
            scaled == k * q + r,
    ;
    assert(r * g == 0 <==> r == 0) by (nonlinear_arith)
        requires
            g > 0,
            r >= 0,
    ;
}

/// The sum of two finite values; `i >= j`.
fn raw_sum_ordered(
    x: bool,
    m: u64,
    i: u32,
    y: bool,
    k: u64,
    j: u32,
    Ghost(w): Ghost<Width>,
) -> (r: Raw)
    requires
        i >= j,
        (Parts::Fin { neg: x, mant: m, exp: i }).of_width(w),
        (Parts::Fin { neg: y, mant: k, exp: j }).of_width(w),
    ensures
        r.denotes(
            sum(
                (Parts::Fin { neg: x, mant: m, exp: i }).num(),
                (Parts::Fin { neg: y, mant: k, exp: j }).num(),
            ),
            w,
        ),
{
    let ghost mi = m as nat * pow2(i as nat);
    let ghost kj = k as nat * pow2(j as nat);
    let gap: u32 = i - j;
    proof {
        lemma_widths();
        lemma_pow2_pos(i as nat);
        lemma_pow2_pos(j as nat);
        lemma_pow2_adds(j as nat, gap as nat);
    }
    if gap <= 64 {
        let by: u128 = power_of_two(gap);
        proof {
            lemma2_to64();
            lemma_pow2_le(gap as nat, 64);
            lemma_pow2_127();
            assert(m * by <= 0x20_0000_0000_0000 * 0x1_0000_0000_0000_0000) by (nonlinear_arith)
                requires
                    m < 0x20_0000_0000_0000,
                    by <= 0x1_0000_0000_0000_0000,
            ;
        }
        let big: u128 = m as u128 * by;
        let small: u128 = k as u128;
        proof {
            assert(mi == big * pow2(j as nat)) by (nonlinear_arith)
                requires
                    mi == m as nat * pow2(i as nat),
                    big == m * by,
                    pow2(i as nat) == pow2(j as nat) * by,
            ;
        }
        if x == y {
            proof {
                lemma_mul_is_distributive_add_other_way(pow2(j as nat) as int, big as int, small as int);
                lemma_raw_whole((big + small) as nat, j as nat);
                lemma_zero_iff((big + small) as nat, pow2(j as nat));
            }
            return Raw::Ratio { neg: x, sig: big + small, left_over: false, e: j as i32 };
        }
        if big >= small {
            proof {
                lemma_mul_is_distributive_sub_other_way(pow2(j as nat) as int, big as int, small as int);
                lemma_raw_whole((big - small) as nat, j as nat);
                lemma_zero_iff((big - small) as nat, pow2(j as nat));
            }
            return Raw::Ratio {
                neg: x && big > small,
                sig: big - small,
                left_over: false,
                e: j as i32,
            };
        }
        proof {
            lemma_mul_is_distributive_sub_other_way(pow2(j as nat) as int, small as int, big as int);
            lemma_raw_whole((small - big) as nat, j as nat);
            lemma_zero_iff((small - big) as nat, pow2(j as nat));
        }
        return Raw::Ratio { neg: y, sig: small - big, left_over: false, e: j as i32 };
    }
    // far apart: the smaller operand is under a sixteenth of a unit of `m * 2^10`
    let big: u128 = m as u128 * 1024;
    let e: i32 = i as i32 - 10;
    let ghost unit = pow2(e as nat);
    proof {
        lemma2_to64();
        lemma_pow2_adds(e as nat, 10);
        lemma_pow2_pos(e as nat);
        assert(mi == big * unit) by (nonlinear_arith)
            requires
                mi == m as nat * pow2(i as nat),
                big == m * 1024,
                pow2(i as nat) == unit * 1024,
        ;
        lemma_pow2_adds(53, j as nat);
        lemma_pow2_le((53 + j) as nat, e as nat);
        let pj = pow2(j as nat);
        assert(kj < unit) by (nonlinear_arith)
            requires
                kj == k as nat * pj,
                k < pow2(53),
                pow2(53) * pj <= unit,
                pj > 0,
        ;
        lemma_zero_iff(k as nat, pj);
        reveal_pow2_zero();
        lemma_mul_basics(unit as int);
    }
    if k == 0 {
        proof {
            lemma_raw_whole(big as nat, e as nat);
            lemma_zero_iff(big as nat, unit);
        }
        return Raw::Ratio { neg: x, sig: big, left_over: false, e };
    }
    if x == y {
        proof {
            lemma_mul_is_distributive_add_other_way(unit as int, big as int, 1);
            lemma_mul_basics((mi + kj) as int);
        }
        return Raw::Ratio { neg: x, sig: big, left_over: true, e };
    }
    proof {
        lemma_mul_is_distributive_sub_other_way(unit as int, big as int, 1);
        lemma_mul_basics((mi - kj) as int);
        assert(mi >= unit) by (nonlinear_arith)
            requires
                mi == big * unit,
                big >= 1,
        ;
    }
    Raw::Ratio { neg: x, sig: big - 1, left_over: true, e }
}

proof fn lemma_zero_iff(a: nat, p: nat)
    requires
        p > 0,
    ensures
        a * p == 0 <==> a == 0,
{
    assert(a * p == 0 <==> a == 0) by (nonlinear_arith)
        requires
            p > 0,
            a >= 0,
    ;
}

fn raw_sum(a: Parts, b: Parts, Ghost(w): Ghost<Width>) -> (r: Raw)
    requires
        a.of_width(w),
        b.of_width(w),
    ensures
        r.denotes(sum(a.num(), b.num()), w),
{
    match (a, b) {
        (Parts::Nan, _) => Raw::Nan,
        (_, Parts::Nan) => Raw::Nan,
        (Parts::Inf { neg: x }, Parts::Inf { neg: y }) => if x == y {
            Raw::Inf { neg: x }
        } else {
            Raw::Nan
        },
        (Parts::Inf { neg }, Parts::Fin { .. }) => Raw::Inf { neg },
        (Parts::Fin { .. }, Parts::Inf { neg }) => Raw::Inf { neg },
        (Parts::Fin { neg: x, mant: m, exp: i }, Parts::Fin { neg: y, mant: k, exp: j }) => if i >= j {
            raw_sum_ordered(x, m, i, y, k, j, Ghost(w))
        } else {
            raw_sum_ordered(y, k, j, x, m, i, Ghost(w))
        },
    }
}

/// A `binary64` value.
#[derive(Clone, Copy, Debug)]
pub struct Double {
    pub bits: u64,
}

/// A `binary32` value.
#[derive(Clone, Copy, Debug)]
pub struct Single {
    pub bits: u32,
}

/// Steps `m` of size `2^s` make the encoding `m + s * 2^52`.
proof fn lemma_double_encoding(m: nat, s: nat)
    requires
        m <= pow2(53),
        s > 0 ==> m >= pow2(52),
    ensures
        s >= 2046 || (s == 2045 && m == pow2(53)) <==> m * pow2(s) >= pow2(2098),
        s <= 2045 && !(s == 2045 && m == pow2(53)) ==> {
            let b = m + s * 0x10_0000_0000_0000;
            let e = b / 0x10_0000_0000_0000;
            let f = b % 0x10_0000_0000_0000;
            &&& e < 2047
            &&& (if e == 0 {
                f as nat
            } else {
                ((f + 0x10_0000_0000_0000) * pow2((e - 1) as nat)) as nat
            }) == m * pow2(s)
        },
{
    lemma_widths();
    reveal_pow2_zero();
    lemma_pow2_pos(s);
    let p = pow2(s);
    lemma_pow2_adds(52, s);
    lemma_pow2_adds(53, s);
    if s >= 2046 {
        lemma_pow2_le(2098, 52 + s);
        assert(m * p >= pow2(52) * p) by (nonlinear_arith)
            requires
                m >= pow2(52),
        ;
    } else {
        lemma_pow2_le(53 + s, 2098);
        if m < pow2(53) {
            assert(m * p < pow2(53) * p) by (nonlinear_arith)
                requires
                    m < pow2(53),
                    p > 0,
            ;
        } else if s < 2045 {
            lemma_pow2_strictly_increases(53 + s, 2098);
        }
        if s <= 2045 && !(s == 2045 && m == pow2(53)) {
            lemma_pow2_unfold(s + 1);
            lemma_mul_basics(m as int);
            assert(0x20_0000_0000_0000 * p == 0x10_0000_0000_0000 * (2 * p)) by (nonlinear_arith);
        }
    }
}

impl Double {
    /// What the bits stand for: one sign bit, eleven exponent bits, fifty-two fraction bits.
    #[verifier::opaque]
    pub open spec fn num(self) -> Num {
        let neg = self.bits >= 0x8000_0000_0000_0000;
        let b = if neg {
            self.bits - 0x8000_0000_0000_0000
        } else {
            self.bits as int
        };
        let e = b / 0x10_0000_0000_0000;
        let f = b % 0x10_0000_0000_0000;
        if e == 2047 {
            if f == 0 {
                Num::Inf { neg }
            } else {
                Num::Nan
            }
        } else if e == 0 {
            Num::Fin { neg, mag: f as nat }
        } else {
            Num::Fin { neg, mag: ((f + 0x10_0000_0000_0000) * pow2((e - 1) as nat)) as nat }
        }
    }

    /// The value with its significand and exponent apart.
    pub fn parts(self) -> (r: Parts)
        ensures
            r.num() == self.num(),
            r.of_width(Width::Double),
    {
        proof {
            reveal(Double::num);
        }
        let neg: bool = self.bits >= 0x8000_0000_0000_0000;
        let b: u64 = if neg {
            self.bits - 0x8000_0000_0000_0000
        } else {
            self.bits
        };
        let e: u64 = b / 0x10_0000_0000_0000;
        let f: u64 = b % 0x10_0000_0000_0000;
        proof {
            lemma_widths();
            reveal_pow2_zero();
            lemma_mul_basics(f as int);
        }
        if e == 2047 {
            if f == 0 {
                Parts::Inf { neg }
            } else {
                Parts::Nan
            }
        } else if e == 0 {
            Parts::Fin { neg, mant: f, exp: 0 }
        } else {
            Parts::Fin { neg, mant: f + 0x10_0000_0000_0000, exp: (e - 1) as u32 }
        }
    }

    fn pack(raw: Raw, Ghost(x): Ghost<Exact>) -> (r: Double)
        requires
            raw.denotes(x, Width::Double),
        ensures
            r.num() == fit(Width::Double, x),
    {
        proof {
            reveal(Double::num);
        }
        match raw {
            Raw::Nan => Double { bits: 0x7ff8_0000_0000_0000 },
            Raw::Inf { neg } => Double::infinity(neg),
            Raw::Ratio { neg, sig, left_over, e } => {
                let ghost n = x->n;
                let ghost d = x->d;
                let (m, s): (u64, u32) = round_parts(sig, left_over, e, 53, 0, Ghost(n), Ghost(d));
                proof {
                    lemma_widths();
                    lemma_double_encoding(m as nat, s as nat);
                }
                if s >= 2046 || (s == 2045 && m == 0x20_0000_0000_0000) {
                    return Double::infinity(neg);
                }
                let b: u64 = m + s as u64 * 0x10_0000_0000_0000;
                if neg {
                    Double { bits: b + 0x8000_0000_0000_0000 }
                } else {
                    Double { bits: b }
                }
            },
        }
    }

    fn infinity(neg: bool) -> (r: Double)
        ensures
            r.num() == (Num::Inf { neg }),
    {
        proof {
            reveal(Double::num);
        }
        if neg {
            Double { bits: 0xfff0_0000_0000_0000 }
        } else {
            Double { bits: 0x7ff0_0000_0000_0000 }
        }
    }

    /// Positive zero.
    pub fn zero() -> (r: Double)
        ensures
            r.num() == (Num::Fin { neg: false, mag: 0 }),
    {
        proof {
            reveal(Double::num);
        }
        Double { bits: 0 }
    }

    /// An integer, rounded where it has more than 53 bits.
    pub fn from_u64(n: u64) -> (r: Double)
        ensures
            r.num() == fit(Width::Double, exactly(whole(n as nat))),
            n < 0x20_0000_0000_0000 ==> r.num() == whole(n as nat),
    {
        proof {
            lemma_raw_whole(n as nat, 1074);
            lemma_integer_fits(n as nat);
            lemma_widths();
        }
        let raw: Raw = Raw::Ratio { neg: false, sig: n as u128, left_over: false, e: 1074 };
        Double::pack(raw, Ghost(exactly(whole(n as nat))))
    }

    /// The same value in the wider format; no rounding takes place.
    pub fn from_single(a: Single) -> (r: Double)
        ensures
            r.num() == a.num(),
    {
        let p: Parts = a.parts();
        proof {
            lemma_widen(p);
        }
        let raw: Raw = raw_of(p, Ghost(Width::Double));
        Double::pack(raw, Ghost(exactly(p.num())))
    }

    /// `self + other`, rounded.
    pub fn plus(self, other: Double) -> (r: Double)
        ensures
            r.num() == fit(Width::Double, sum(self.num(), other.num())),
    {
        let raw: Raw = raw_sum(self.parts(), other.parts(), Ghost(Width::Double));
        Double::pack(raw, Ghost(sum(self.num(), other.num())))
    }

    /// `self * other`, rounded.
    pub fn times(self, other: Double) -> (r: Double)
        ensures
            r.num() == fit(Width::Double, product(self.num(), other.num())),
    {
        let raw: Raw = raw_product(self.parts(), other.parts(), Ghost(Width::Double));
        Double::pack(raw, Ghost(product(self.num(), other.num())))
    }

    /// `self / other`, rounded.
    pub fn over(self, other: Double) -> (r: Double)
        ensures
            r.num() == fit(Width::Double, quotient(self.num(), other.num())),
    {
        let raw: Raw = raw_quotient(self.parts(), other.parts(), Ghost(Width::Double));
        Double::pack(raw, Ghost(quotient(self.num(), other.num())))
    }

    /// `self > other`.
    pub fn exceeds(self, other: Double) -> (r: bool)
        ensures
            r == above(self.num(), other.num()),
    {
        parts_above(self.parts(), other.parts(), Ghost(Width::Double))
    }

    /// Either zero.
    pub fn is_zero(self) -> (r: bool)
        ensures
            r == is_zero(self.num()),
    {
        parts_zero(self.parts())
    }

    /// The integer part, saturating.
    pub fn truncate(self) -> (r: u64)
        ensures
            r == truncated(self.num()),
    {
        match self.parts() {
            Parts::Nan => 0,
            Parts::Inf { neg } => if neg {
                0
            } else {
                u64::MAX
            },
            Parts::Fin { neg, mant, exp } => if neg {
                0
            } else {
                whole_part(mant, exp)
            },
        }
    }

    /// The nearest integer, halves away from zero, saturating.
    pub fn round(self) -> (r: u64)
        ensures
            r == nearest_whole(self.num()),
    {
        match self.parts() {
            Parts::Nan => 0,
            Parts::Inf { neg } => if neg {
                0
            } else {
                u64::MAX
            },
            Parts::Fin { neg, mant, exp } => if neg {
                0
            } else {
                nearest_part(mant, exp)
            },
        }
    }
}

/// `mant * 2^exp` units as a whole number, cut off.
fn whole_part(mant: u64, exp: u32) -> (r: u64)
    requires
        mant < pow2(53),
        exp <= 2045,
        exp > 0 ==> mant >= pow2(52),
    ensures
        r == truncated(Num::Fin { neg: false, mag: mant as nat * pow2(exp as nat) }),
{
    let ghost mag = mant as nat * pow2(exp as nat);
    proof {
        lemma_widths();
        lemma_pow2_pos(1074);
        lemma_pow2_pos(exp as nat);
    }
    if exp >= 1074 {
        let up_by: u32 = exp - 1074;
        proof {
            lemma_pow2_adds(1074, up_by as nat);
            let k = mant as nat * pow2(up_by as nat);
            assert(mag == k * one()) by (nonlinear_arith)
                requires
                    mag == mant as nat * pow2(exp as nat),
                    k == mant as nat * pow2(up_by as nat),
                    pow2(exp as nat) == one() * pow2(up_by as nat),
            ;
            lemma_div_by_multiple(k as int, one() as int);
        }
        if up_by >= 12 {
            proof {
                lemma_pow2_le(12, up_by as nat);
                lemma2_to64();
                assert(mant as nat * pow2(up_by as nat) >= 0x10_0000_0000_0000 * 4096)
                    by (nonlinear_arith)
                    requires
                        mant >= 0x10_0000_0000_0000,
                        pow2(up_by as nat) >= 4096,
                ;
            }
            return u64::MAX;
        }
        let by: u128 = power_of_two(up_by);
        proof {
            lemma_pow2_le(up_by as nat, 11);
            lemma2_to64();
            assert(mant * by <= 0x20_0000_0000_0000 * 2048 - 2048) by (nonlinear_arith)
                requires
                    mant <= 0x20_0000_0000_0000 - 1,
                    by <= 2048,
            ;
        }
        return (mant as u128 * by) as u64;
    }
    let off: u32 = 1074 - exp;
    proof {
        lemma_pow2_adds(exp as nat, off as nat);
        lemma_pow2_pos(off as nat);
        lemma_div_scaled(mant as nat, pow2(off as nat), pow2(exp as nat));
        if off >= 64 {
            lemma_pow2_le(53, off as nat);
            lemma_basic_div(mant as int, pow2(off as nat) as int);
        }
    }
    if off >= 64 {
        return 0;
    }
    let by: u128 = power_of_two(off);
    proof {
        lemma_div_nonincreasing(mant as int, by as int);
    }
    (mant as u128 / by) as u64
}

/// Cancelling a common factor of a fraction.
pub proof fn lemma_div_scaled(n: nat, d: nat, f: nat)
    requires
        d > 0,
        f > 0,
    ensures
        (n * f) / (d * f) == n / d,
{
    lemma_mul_is_commutative(n as int, f as int);
    lemma_mul_is_commutative(d as int, f as int);
    lemma_truncate_middle_free(n, d, f);
}

proof fn lemma_truncate_middle_free(n: nat, d: nat, f: nat)
    requires
        d > 0,
        f > 0,
    ensures
        (f * n) / (f * d) == n / d,
{
    let q = n / d;
    let r = n % d;
    lemma_fundamental_div_mod(n as int, d as int);
    lemma_mod_bound(n as int, d as int);
    assert(f * n == q * (f * d) + f * r) by (nonlinear_arith)
        requires
            n == d * q + r,
    ;
    assert(0 <= f * r < f * d) by (nonlinear_arith)
        requires
            0 <= r < d,
            f > 0,
    ;
    lemma_fundamental_div_mod_converse((f * n) as int, (f * d) as int, q as int, (f * r) as int);
}

/// `mant * 2^exp` units as a whole number, halves rounded up.
fn nearest_part(mant: u64, exp: u32) -> (r: u64)
    requires
        mant < pow2(53),
        exp <= 2045,
        exp > 0 ==> mant >= pow2(52),
    ensures
        r == nearest_whole(Num::Fin { neg: false, mag: mant as nat * pow2(exp as nat) }),
{
    let ghost mag = mant as nat * pow2(exp as nat);
    proof {
        lemma_widths();
        lemma_pow2_pos(1074);
        lemma_pow2_pos(exp as nat);
    }
    if exp >= 1074 {
        proof {
            let up_by = (exp - 1074) as nat;
            lemma_pow2_adds(1074, up_by);
            let k = mant as nat * pow2(up_by);
            assert(mag == k * one()) by (nonlinear_arith)
                requires
                    mag == mant as nat * pow2(exp as nat),
                    k == mant as nat * pow2(up_by),
                    pow2(exp as nat) == one() * pow2(up_by),
            ;
            lemma_div_by_multiple(k as int, one() as int);
            assert(2 * mag + one() == k * (2 * one()) + one()) by (nonlinear_arith)
                requires
                    mag == k * one(),
            ;
            lemma_fundamental_div_mod_converse(
                (2 * mag + one()) as int,
                (2 * one()) as int,
                k as int,
                one() as int,
            );
        }
        return whole_part(mant, exp);
    }
    let off: u32 = 1074 - exp;
    proof {
        lemma_pow2_adds(exp as nat, off as nat);
        lemma_pow2_pos(off as nat);
        let f = pow2(exp as nat);
        let d = pow2(off as nat);
        assert(2 * mag + one() == (2 * mant as nat + d) * f) by (nonlinear_arith)
            requires
                mag == mant as nat * f,
                one() == f * d,
        ;
        assert(2 * one() == (2 * d) * f) by (nonlinear_arith)
            requires
                one() == f * d,
        ;
        lemma_div_scaled((2 * mant as nat + d) as nat, 2 * d, f);
        if off >= 64 {
            lemma_pow2_le(54, off as nat);
            lemma_basic_div(2 * mant as int + d, 2 * d as int);
        }
    }
    if off >= 64 {
        return 0;
    }
    let by: u128 = power_of_two(off);
    proof {
        lemma2_to64();
        lemma2_to64_rest();
        lemma_pow2_le(off as nat, 63);
        lemma_div_nonincreasing(2 * mant + by, 2 * by as int);
        let t = 2 * mant + by;
        let q = t / (2 * by as int);
        lemma_fundamental_div_mod(t, 2 * by as int);
        lemma_mod_bound(t, 2 * by as int);
        assert(q <= 0x20_0000_0000_0000) by (nonlinear_arith)
            requires
                t == (2 * by) * q + t % (2 * by as int),
                0 <= t % (2 * by as int),
                t == 2 * mant + by,
                mant < 0x20_0000_0000_0000,
                by >= 1,
        ;
    }
    ((2 * mant as u128 + by) / (2 * by)) as u64
}

/// What fits in 24 bits fits in 53.
proof fn lemma_widen(p: Parts)
    requires
        p.of_width(Width::Single),
    ensures
        fit(Width::Double, exactly(p.num())) == p.num(),
{
    if let Parts::Fin { neg, mant, exp } = p {
        lemma_pow2_le(24, 53);
        lemma_rounded_exact(mant as nat, exp as nat, 53, 0);
        lemma_pow2_adds(24, exp as nat);
        lemma_pow2_le((24 + exp) as nat, 2098);
        lemma_pow2_pos(exp as nat);
        let p = pow2(exp as nat);
        assert(mant as nat * p < pow2(24) * p) by (nonlinear_arith)
            requires
                mant < pow2(24),
                p > 0,
        ;
    }
}

fn parts_zero(a: Parts) -> (r: bool)
    ensures
        r == is_zero(a.num()),
{
    proof {
        lemma_mag_zero(a);
    }
    match a {
        Parts::Fin { mant, .. } => mant == 0,
        _ => false,
    }
}

/// Of two significands of one width, the one with the greater exponent is the greater.
proof fn lemma_magnitudes(m: nat, i: nat, k: nat, j: nat, w: Width)
    requires
        m < pow2(precision(w)),
        k < pow2(precision(w)),
        lowest(w) <= j,
        i > j,
        m >= pow2((precision(w) - 1) as nat),
    ensures
        m * pow2(i) > k * pow2(j),
{
    let g = (i - j) as nat;
    lemma_pow2_adds(g, j);
    lemma_pow2_pos(j);
    lemma_pow2_le(1, g);
    reveal_pow2_zero();
    lemma_pow2_unfold(precision(w));
    assert(m * pow2(g) >= m * 2) by (nonlinear_arith)
        requires
            pow2(g) >= 2,
    ;
    let p = pow2(j);
    assert(m * pow2(i) == (m * pow2(g)) * p) by (nonlinear_arith)
        requires
            pow2(i) == pow2(g) * p,
    ;
    let t = m * pow2(g);
    assert(t * p > k * p) by (nonlinear_arith)
        requires
            t > k,
            p > 0,
    ;
}

/// `mant * 2^exp` compared.
fn magnitude_above(m: u64, i: u32, k: u64, j: u32, Ghost(w): Ghost<Width>) -> (r: bool)
    requires
        (Parts::Fin { neg: false, mant: m, exp: i }).of_width(w),
        (Parts::Fin { neg: false, mant: k, exp: j }).of_width(w),
    ensures
        r == (m as nat * pow2(i as nat) > k as nat * pow2(j as nat)),
{
    if i > j {
        proof {
            lemma_magnitudes(m as nat, i as nat, k as nat, j as nat, w);
        }
        true
    } else if i < j {
        proof {
            lemma_magnitudes(k as nat, j as nat, m as nat, i as nat, w);
        }
        false
    } else {
        proof {
            lemma_pow2_pos(i as nat);
            let p = pow2(i as nat);
            assert(m > k <==> m as nat * p > k as nat * p) by (nonlinear_arith)
                requires
                    p > 0,
            ;
        }
        m > k
    }
}

fn parts_above(a: Parts, b: Parts, Ghost(w): Ghost<Width>) -> (r: bool)
    requires
        a.of_width(w),
        b.of_width(w),
    ensures
        r == above(a.num(), b.num()),
{
    match (a, b) {
        (Parts::Nan, _) => false,
        (_, Parts::Nan) => false,
        (Parts::Inf { neg: x }, Parts::Inf { neg: y }) => !x && y,
        (Parts::Inf { neg }, Parts::Fin { .. }) => !neg,
        (Parts::Fin { .. }, Parts::Inf { neg }) => neg,
        (Parts::Fin { neg: x, mant: m, exp: i }, Parts::Fin { neg: y, mant: k, exp: j }) => {
            proof {
                lemma_pow2_pos(i as nat);
                lemma_pow2_pos(j as nat);
                lemma_zero_iff(m as nat, pow2(i as nat));
                lemma_zero_iff(k as nat, pow2(j as nat));
            }
            if x {
                if y {
                    magnitude_above(k, j, m, i, Ghost(w))
                } else {
                    false
                }
            } else if y {
                m != 0 || k != 0
            } else {
                magnitude_above(m, i, k, j, Ghost(w))
            }
        },
    }
}

/// Steps `m` of size `2^(925 + t)` make the encoding `m + t * 2^23`.
proof fn lemma_single_encoding(m: nat, t: nat)
    requires
        m <= pow2(24),
        t > 0 ==> m >= pow2(23),
    ensures
        t >= 254 || (t == 253 && m == pow2(24)) <==> m * pow2(925 + t) >= pow2(1202),
        t <= 253 && !(t == 253 && m == pow2(24)) ==> {
            let b = m + t * 0x80_0000;
            let e = b / 0x80_0000;
            let f = b % 0x80_0000;
            &&& e < 255
            &&& (if e == 0 {
                f * pow2(925)
            } else {
                (f + 0x80_0000) * pow2((924 + e) as nat)
            }) == m * pow2(925 + t)
        },
{
    lemma_widths();
    reveal_pow2_zero();
    let s = 925 + t;
    lemma_pow2_pos(s);
    let p = pow2(s);
    lemma_pow2_adds(23, s);
    lemma_pow2_adds(24, s);
    if t >= 254 {
        lemma_pow2_le(1202, 23 + s);
        assert(m * p >= pow2(23) * p) by (nonlinear_arith)
            requires
                m >= pow2(23),
        ;
    } else {
        lemma_pow2_le(24 + s, 1202);
        if m < pow2(24) {
            assert(m * p < pow2(24) * p) by (nonlinear_arith)
                requires
                    m < pow2(24),
                    p > 0,
            ;
        } else if t < 253 {
            lemma_pow2_strictly_increases(24 + s, 1202);
        }
        if t <= 253 && !(t == 253 && m == pow2(24)) {
            lemma_pow2_unfold(s + 1);
            assert(0x100_0000 * p == 0x80_0000 * (2 * p)) by (nonlinear_arith);
        }
    }
}

impl Single {
    /// What the bits stand for: one sign bit, eight exponent bits, twenty-three fraction bits.
    #[verifier::opaque]
    pub open spec fn num(self) -> Num {
        let neg = self.bits >= 0x8000_0000;
        let b = if neg {
            self.bits - 0x8000_0000
        } else {
            self.bits as int
        };
        let e = b / 0x80_0000;
        let f = b % 0x80_0000;
        if e == 255 {
            if f == 0 {
                Num::Inf { neg }
            } else {
                Num::Nan
            }
        } else if e == 0 {
            Num::Fin { neg, mag: (f * pow2(925)) as nat }
        } else {
            Num::Fin { neg, mag: ((f + 0x80_0000) * pow2((924 + e) as nat)) as nat }
        }
    }

    /// The value with its significand and exponent apart.
    pub fn parts(self) -> (r: Parts)
        ensures
            r.num() == self.num(),
            r.of_width(Width::Single),
    {
        proof {
            reveal(Single::num);
        }
        let neg: bool = self.bits >= 0x8000_0000;
        let b: u32 = if neg {
            self.bits - 0x8000_0000
        } else {
            self.bits
        };
        let e: u32 = b / 0x80_0000;
        let f: u32 = b % 0x80_0000;
        proof {
            lemma_widths();
        }
        if e == 255 {
            if f == 0 {
                Parts::Inf { neg }
            } else {
                Parts::Nan
            }
        } else if e == 0 {
            Parts::Fin { neg, mant: f as u64, exp: 925 }
        } else {
            Parts::Fin { neg, mant: f as u64 + 0x80_0000, exp: 924 + e }
        }
    }

    fn pack(raw: Raw, Ghost(x): Ghost<Exact>) -> (r: Single)
        requires
            raw.denotes(x, Width::Single),
        ensures
            r.num() == fit(Width::Single, x),
    {
        proof {
            reveal(Single::num);
        }
        match raw {
            Raw::Nan => Single { bits: 0x7fc0_0000 },
            Raw::Inf { neg } => Single::infinity(neg),
            Raw::Ratio { neg, sig, left_over, e } => {
                let ghost n = x->n;
                let ghost d = x->d;
                let (m, s): (u64, u32) = round_parts(sig, left_over, e, 24, 925, Ghost(n), Ghost(d));
                let t: u32 = s - 925;
                proof {
                    lemma_widths();
                    lemma_single_encoding(m as nat, t as nat);
                }
                if t >= 254 || (t == 253 && m == 0x100_0000) {
                    return Single::infinity(neg);
                }
                let b: u32 = m as u32 + t * 0x80_0000;
                if neg {
                    Single { bits: b + 0x8000_0000 }
                } else {
                    Single { bits: b }
                }
            },
        }
    }

    fn infinity(neg: bool) -> (r: Single)
        ensures
            r.num() == (Num::Inf { neg }),
    {
        proof {
            reveal(Single::num);
        }
        if neg {
            Single { bits: 0xff80_0000 }
        } else {
            Single { bits: 0x7f80_0000 }
        }
    }

    /// Positive zero.
    pub fn zero() -> (r: Single)
        ensures
            r.num() == (Num::Fin { neg: false, mag: 0 }),
    {
        proof {
            reveal(Single::num);
        }
        proof {
            lemma_mul_basics(pow2(925) as int);
        }
        Single { bits: 0 }
    }

    /// A small integer.
    pub fn from_u16(n: u16) -> (r: Single)
        ensures
            r.num() == whole(n as nat),
    {
        proof {
            lemma_raw_whole(n as nat, 1074);
            lemma_widths();
            lemma_rounded_exact(n as nat, 1074, 24, 925);
            lemma_pow2_adds(24, 1074);
            lemma_pow2_le(24 + 1074, 1202);
            lemma_pow2_pos(1074);
            assert(n * one() < pow2(24) * one()) by (nonlinear_arith)
                requires
                    n < pow2(24),
                    one() > 0,
            ;
        }
        let raw: Raw = Raw::Ratio { neg: false, sig: n as u128, left_over: false, e: 1074 };
        Single::pack(raw, Ghost(exactly(whole(n as nat))))
    }

    /// A wider value, rounded.
    pub fn from_double(a: Double) -> (r: Single)
        ensures
            r.num() == fit(Width::Single, exactly(a.num())),
    {
        let p: Parts = a.parts();
        let raw: Raw = raw_of(p, Ghost(Width::Single));
        Single::pack(raw, Ghost(exactly(p.num())))
    }

    /// The value with its sign turned.
    pub fn negated(self) -> (r: Single)
        ensures
            r.num() == opposite(self.num()),
    {
        proof {
            reveal(Single::num);
        }
        if self.bits >= 0x8000_0000 {
            Single { bits: self.bits - 0x8000_0000 }
        } else {
            Single { bits: self.bits + 0x8000_0000 }
        }
    }

    /// `self + other`, rounded.
    pub fn plus(self, other: Single) -> (r: Single)
        ensures
            r.num() == fit(Width::Single, sum(self.num(), other.num())),
    {
        let raw: Raw = raw_sum(self.parts(), other.parts(), Ghost(Width::Single));
        Single::pack(raw, Ghost(sum(self.num(), other.num())))
    }

    /// `self * other`, rounded.
    pub fn times(self, other: Single) -> (r: Single)
        ensures
            r.num() == fit(Width::Single, product(self.num(), other.num())),
    {
        let raw: Raw = raw_product(self.parts(), other.parts(), Ghost(Width::Single));
        Single::pack(raw, Ghost(product(self.num(), other.num())))
    }

    /// `self > other`.
    pub fn exceeds(self, other: Single) -> (r: bool)
        ensures
            r == above(self.num(), other.num()),
    {
        parts_above(self.parts(), other.parts(), Ghost(Width::Single))
    }

    /// Either zero.
    pub fn is_zero(self) -> (r: bool)
        ensures
            r == is_zero(self.num()),
    {
        parts_zero(self.parts())
    }
}

/// Rounding to a format keeps the order of values that are not negative.
pub proof fn law_fit_is_monotone(w: Width, n: nat, d: nat, m: nat, c: nat)
    requires
        d > 0,
        c > 0,
        n * c <= m * d,
    ensures
        !above(
            fit(w, Exact::Ratio { neg: false, n, d }),
            fit(w, Exact::Ratio { neg: false, n: m, d: c }),
        ),
{
    law_rounding_is_monotone(n, d, m, c, precision(w), lowest(w));
}

/// An integer of up to 64 bits is finite in `binary64`, and exact up to 53 bits.
pub proof fn lemma_integer_fits(n: nat)
    requires
        n <= u64::MAX,
    ensures
        fit(Width::Double, exactly(whole(n))) == (Num::Fin {
            neg: false,
            mag: rounded(n * one(), 1, 53, 0),
        }),
        n < pow2(53) ==> rounded(n * one(), 1, 53, 0) == n * one(),
        rounded(n * one(), 1, 53, 0) <= pow2(64) * one(),
{
    lemma2_to64_rest();
    lemma_pow2_pos(1074);
    lemma_pow2_adds(64, 1074);
    lemma_pow2_adds(1, 1137);
    lemma_mul_basics((n * one()) as int);
    reveal_pow2_zero();
    assert(n * one() <= pow2(64) * one()) by (nonlinear_arith)
        requires
            n <= pow2(64),
            one() > 0,
    ;
    lemma_pow2_le(1, 53);
    lemma_mul_basics(pow2(1138) as int);
    lemma_rounded_le(n * one(), 1, 1, 1138, 53, 0);
    lemma_pow2_strictly_increases(1138, 2098);
    if n < pow2(53) {
        lemma_rounded_exact(n, 1074, 53, 0);
    }
}

/// A finite `binary32` magnitude is an integer of at most 24 bits, scaled.
pub proof fn lemma_single_magnitude(a: Single) -> (r: (nat, nat))
    requires
        a.num() is Fin,
    ensures
        a.num()->Fin_mag == r.0 * pow2(r.1),
        r.0 < pow2(24),
        925 <= r.1 <= 1178,
{
    reveal(Single::num);
    lemma_widths();
    let b = if a.bits >= 0x8000_0000 {
        a.bits - 0x8000_0000
    } else {
        a.bits as int
    };
    let e = b / 0x80_0000;
    let f = b % 0x80_0000;
    if e == 0 {
        (f as nat, 925)
    } else {
        ((f + 0x80_0000) as nat, (924 + e) as nat)
    }
}

/// The opposite value.
pub open spec fn opposite(a: Num) -> Num {
    match a {
        Num::Nan => Num::Nan,
        Num::Inf { neg } => Num::Inf { neg: !neg },
        Num::Fin { neg, mag } => Num::Fin { neg: !neg, mag },
    }
}

} // verus!
