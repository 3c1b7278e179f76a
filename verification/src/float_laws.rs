//! Laws of the arithmetic: what sums, products, quotients, comparisons and whole parts are, by
//! their exact values.

use crate::ieee::{
    above, fit, is_zero, limit, lowest, nearest_whole, one, opposite, precision, product, quotient,
    signed, sum, truncated, Exact, Num, Width,
};
use crate::rounding::{law_rounding_error, lemma_rounded_le, quantum};
use vstd::arithmetic::div_mod::*;
use vstd::arithmetic::mul::*;
use vstd::arithmetic::power2::*;
use vstd::prelude::*;

verus! {

/// The value of a finite number, in the least units.
pub open spec fn value(a: Num) -> int {
    signed(a->Fin_neg, a->Fin_mag)
}

/// The exact result is `t / d` in the least units, with a sign for zero too.
pub open spec fn is_ratio(x: Exact, t: int, d: int) -> bool {
    x matches Exact::Ratio { neg, n, d: e } && e > 0 && signed(neg, n) * d == t * e
}

/// A sum is exact, in either order; an infinity outweighs every finite number, and two that cancel
/// out are not a number.
pub proof fn law_sum(a: Num, b: Num)
    ensures
        sum(a, b) == sum(b, a),
        a is Fin && b is Fin ==> is_ratio(sum(a, b), value(a) + value(b), 1),
        a is Fin && b is Inf ==> sum(a, b) == (Exact::Inf { neg: b->Inf_neg }),
        a is Inf ==> sum(a, a) == (Exact::Inf { neg: a->Inf_neg }),
        a is Inf ==> sum(a, opposite(a)) is Nan,
        a is Nan ==> sum(a, b) is Nan,
        a is Fin ==> is_ratio(sum(a, opposite(a)), 0, 1),
{
}

/// A product is exact, in either order; its sign is that of its factors.
pub proof fn law_product(a: Num, b: Num)
    ensures
        product(a, b) == product(b, a),
        a is Fin && b is Fin ==> is_ratio(product(a, b), value(a) * value(b), one() as int),
        a is Fin && b is Inf && !is_zero(a) ==> product(a, b) == (Exact::Inf {
            neg: a->Fin_neg != b->Inf_neg,
        }),
        is_zero(a) && b is Inf ==> product(a, b) is Nan,
        a is Inf && b is Inf ==> product(a, b) == (Exact::Inf { neg: a->Inf_neg != b->Inf_neg }),
        a is Nan ==> product(a, b) is Nan,
{
    lemma_pow2_pos(1074);
    if a is Fin && b is Fin {
        let x = a->Fin_mag as int;
        let y = b->Fin_mag as int;
        lemma_mul_is_commutative(x, y);
        lemma_mul_unary_negation(x, y);
        lemma_mul_cancels_negatives(x, y);
        let n = (a->Fin_mag * b->Fin_mag) as nat;
        let neg = a->Fin_neg != b->Fin_neg;
        assert(product(a, b) == (Exact::Ratio { neg, n, d: one() }));
        assert(signed(neg, n) == value(a) * value(b)) by (nonlinear_arith)
            requires
                n == x * y,
                neg == (a->Fin_neg != b->Fin_neg),
                value(a) == if a->Fin_neg {
                    -x
                } else {
                    x
                },
                value(b) == if b->Fin_neg {
                    -y
                } else {
                    y
                },
                signed(neg, n) == if neg {
                    -(n as int)
                } else {
                    n as int
                },
        ;
    }
}

/// A quotient is exact: times the divisor it is the dividend.
pub proof fn law_quotient(a: Num, b: Num)
    ensures
        a is Fin && b is Fin && !is_zero(b) ==> {
            quotient(a, b) matches Exact::Ratio { neg, n, d } && d > 0 && signed(neg, n) * value(b)
                == value(a) * one() * d
        },
        a is Fin && is_zero(b) && !is_zero(a) ==> quotient(a, b) == (Exact::Inf {
            neg: a->Fin_neg != b->Fin_neg,
        }),
        is_zero(a) && is_zero(b) ==> quotient(a, b) is Nan,
        a is Inf && b is Inf ==> quotient(a, b) is Nan,
        a is Inf && b is Fin ==> quotient(a, b) == (Exact::Inf { neg: a->Inf_neg != b->Fin_neg }),
        a is Fin && b is Inf ==> is_ratio(quotient(a, b), 0, 1),
        a is Nan || b is Nan ==> quotient(a, b) is Nan,
{
    if a is Fin && b is Fin && !is_zero(b) {
        let x = a->Fin_mag as int;
        let y = b->Fin_mag as int;
        let u = one() as int;
        let n = (a->Fin_mag * one()) as nat;
        let neg = a->Fin_neg != b->Fin_neg;
        assert(signed(neg, n) * value(b) == value(a) * u * y) by (nonlinear_arith)
            requires
                n == x * u,
                neg == (a->Fin_neg != b->Fin_neg),
                value(a) == if a->Fin_neg {
                    -x
                } else {
                    x
                },
                value(b) == if b->Fin_neg {
                    -y
                } else {
                    y
                },
                signed(neg, n) == if neg {
                    -(n as int)
                } else {
                    n as int
                },
        ;
    }
}

/// Numbers are in order: by their values where they are finite, below one infinity and above the
/// other, and nothing is above or below what is not a number.
pub proof fn law_order(a: Num, b: Num, c: Num)
    ensures
        a is Fin && b is Fin ==> (above(a, b) <==> value(a) > value(b)),
        !above(a, a),
        above(a, b) ==> !above(b, a),
        above(a, b) && above(b, c) ==> above(a, c),
        above(a, b) ==> !(a is Nan) && !(b is Nan),
        a is Fin ==> above(Num::Inf { neg: false }, a) && above(a, Num::Inf { neg: true }),
        above(Num::Inf { neg: false }, Num::Inf { neg: true }),
        above(a, b) <==> above(opposite(b), opposite(a)),
{
}

/// The whole part of a number that is not negative is the greatest integer that is not above it; a
/// negative number has none, and neither has what is not a number.
pub proof fn law_truncated(a: Num)
    ensures
        truncated(a) <= u64::MAX,
        a is Fin && 0 <= value(a) < (u64::MAX + 1) * one() ==> truncated(a) * one() <= value(a) < (
        truncated(a) + 1) * one(),
        a is Fin && value(a) >= (u64::MAX + 1) * one() ==> truncated(a) == u64::MAX,
        a is Fin && value(a) <= 0 ==> truncated(a) == 0,
        a is Inf ==> truncated(a) == if a->Inf_neg {
            0
        } else {
            u64::MAX
        },
        a is Nan ==> truncated(a) == 0,
{
    lemma_pow2_pos(1074);
    if a is Fin {
        let m = a->Fin_mag as int;
        let u = one() as int;
        let q = m / u;
        lemma_fundamental_div_mod(m, u);
        lemma_mod_bound(m, u);
        lemma_mul_is_commutative(u, q);
        lemma_mul_is_distributive_add_other_way(u, q, 1);
        lemma_mul_basics(u);
        if m == 0 {
            lemma_div_basics(u);
        }
        if q > u64::MAX {
            lemma_mul_inequality(u64::MAX + 1, q, u);
        }
        if m >= (u64::MAX + 1) * u {
            assert(q >= u64::MAX) by {
                if q < u64::MAX {
                    lemma_mul_inequality(q + 1, u64::MAX + 1, u);
                }
            }
        }
    }
}

/// The nearest integer to a number that is not negative is at most one half away from it, and is the
/// greater one of two.
pub proof fn law_nearest_whole(a: Num)
    ensures
        nearest_whole(a) <= u64::MAX,
        a is Fin && 0 <= value(a) <= u64::MAX * one() ==> -one() < 2 * (value(a) - nearest_whole(a)
            * one()) + 1 <= one(),
        a is Fin && value(a) <= 0 ==> nearest_whole(a) == 0,
        a is Inf ==> nearest_whole(a) == if a->Inf_neg {
            0
        } else {
            u64::MAX
        },
        a is Nan ==> nearest_whole(a) == 0,
{
    lemma_pow2_pos(1074);
    if a is Fin {
        let m = a->Fin_mag as int;
        let u = one() as int;
        let d = 2 * u;
        let n = 2 * m + u;
        let q = n / d;
        lemma_fundamental_div_mod(n, d);
        lemma_mod_bound(n, d);
        let r = n % d;
        assert(2 * (q * u) == n - r) by (nonlinear_arith)
            requires
                n == d * q + r,
                d == 2 * u,
        ;
        if m == 0 {
            lemma_basic_div(u, d);
        }
        if m <= u64::MAX * u {
            assert(q <= u64::MAX) by (nonlinear_arith)
                requires
                    m <= u64::MAX * u,
                    2 * (q * u) <= 2 * m + u,
                    u > 0,
            ;
        }
    }
}

/// What does not fit exactly is rounded, by at most half a step either way; what is too large becomes
/// infinite, and the sign stays.
pub proof fn law_fit(w: Width, neg: bool, n: nat, d: nat)
    requires
        d > 0,
    ensures
        ({
            let step = pow2(quantum(n / d, precision(w), lowest(w)));
            match fit(w, Exact::Ratio { neg, n, d }) {
                Num::Fin { neg: s, mag } => {
                    &&& s == neg
                    &&& mag < pow2(limit(w))
                    &&& 2 * (mag * d - n) <= d * step
                    &&& 2 * (n - mag * d) <= d * step
                },
                Num::Inf { neg: s } => s == neg && n > pow2((limit(w) - 1) as nat) * d,
                Num::Nan => false,
            }
        }),
        fit(w, Exact::Nan) is Nan,
        fit(w, Exact::Inf { neg }) == (Num::Inf { neg }),
{
    law_rounding_error(n, d, precision(w), lowest(w));
    let top = pow2((limit(w) - 1) as nat);
    lemma2_to64();
    lemma2_to64_rest();
    lemma_mul_basics(top as int);
    lemma_pow2_strictly_increases((limit(w) - 1) as nat, limit(w));
    if n <= top * d {
        lemma_rounded_le(n, d, 1, (limit(w) - 1) as nat, precision(w), lowest(w));
    }
}

} // verus!
