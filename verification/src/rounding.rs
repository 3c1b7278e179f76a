//! Rounding of non-negative rationals onto binary grids.
//!
//! A binary floating-point format keeps `p` significant bits and nothing finer than `2^low`.
//! The representable magnitudes around a value therefore form a grid whose spacing is a power of
//! two. This module says which grid that is ([`quantum`]), which grid point a rational goes to
//! ([`rounded`]), and computes it from an integer significand.

use vstd::arithmetic::div_mod::*;
use vstd::arithmetic::mul::*;
use vstd::arithmetic::power2::*;
use vstd::prelude::*;

verus! {

/// The integer nearest to `n / d`; of two equally near ones, the even one.
pub open spec fn nearest(n: nat, d: nat) -> nat {
    let q = n / d;
    let r = n % d;
    if 2 * r < d || (2 * r == d && q % 2 == 0) {
        q
    } else {
        q + 1
    }
}

/// The exponent of the grid spacing for values whose integer part is `q`: the least one, not
/// under `low`, that leaves at most `p` significant bits.
pub open spec fn quantum(q: nat, p: nat, low: nat) -> nat
    decreases q,
{
    if q < pow2(p + low) || q == 0 {
        low
    } else {
        quantum(q / 2, p, low) + 1
    }
}

/// `n / d` rounded to `p` significant bits and no finer than `2^low`, ties to even.
pub open spec fn rounded(n: nat, d: nat, p: nat, low: nat) -> nat {
    let step = pow2(quantum(n / d, p, low));
    nearest(n, d * step) * step
}

/// The part of a scaling by `2^e` that multiplies.
pub open spec fn up(e: int) -> nat {
    pow2(if e >= 0 {
        e as nat
    } else {
        0
    })
}

/// The part of a scaling by `2^e` that divides.
pub open spec fn down(e: int) -> nat {
    pow2(if e >= 0 {
        0
    } else {
        (-e) as nat
    })
}

/// `n / d` lies in `[sig, sig + 1) * 2^e`, and at its lower end exactly if nothing is left over.
pub open spec fn brackets(sig: nat, left_over: bool, e: int, n: nat, d: nat) -> bool {
    &&& sig * (d * up(e)) <= n * down(e) < (sig + 1) * (d * up(e))
    &&& left_over <==> sig * (d * up(e)) != n * down(e)
}

pub proof fn lemma_pow2_le(a: nat, b: nat)
    requires
        a <= b,
    ensures
        pow2(a) <= pow2(b),
        0 < pow2(a),
{
    lemma_pow2_pos(a);
    if a < b {
        lemma_pow2_strictly_increases(a, b);
    }
}

/// Scaling both sides of a fraction by the same factor does not move it.
pub proof fn lemma_nearest_scale(n: nat, d: nat, f: nat)
    requires
        d > 0,
        f > 0,
    ensures
        nearest(n * f, d * f) == nearest(n, d),
{
    let q = n / d;
    let r = n % d;
    lemma_fundamental_div_mod(n as int, d as int);
    lemma_mod_bound(n as int, d as int);
    assert(n * f == q * (d * f) + r * f) by (nonlinear_arith)
        requires
            n == d * q + r,
    ;
    assert(0 <= r * f < d * f) by (nonlinear_arith)
        requires
            0 <= r < d,
            f > 0,
    ;
    lemma_fundamental_div_mod_converse((n * f) as int, (d * f) as int, q as int, (r * f) as int);
    assert(2 * (r * f) < d * f <==> 2 * r < d) by (nonlinear_arith)
        requires
            f > 0,
    ;
    assert(2 * (r * f) == d * f <==> 2 * r == d) by (nonlinear_arith)
        requires
            f > 0,
    ;
}

/// A fraction that is an integer is its own nearest integer.
pub proof fn lemma_nearest_exact(k: nat, d: nat)
    requires
        d > 0,
    ensures
        nearest(k * d, d) == k,
{
    lemma_fundamental_div_mod_converse((k * d) as int, d as int, k as int, 0);
}

/// A fraction at most an integer rounds to at most that integer.
pub proof fn lemma_nearest_le(n: nat, d: nat, k: nat)
    requires
        d > 0,
        n <= k * d,
    ensures
        nearest(n, d) <= k,
{
    let q = n / d;
    let r = n % d;
    lemma_fundamental_div_mod(n as int, d as int);
    lemma_mod_bound(n as int, d as int);
    assert(q <= k && (q == k ==> r == 0)) by (nonlinear_arith)
        requires
            n == d * q + r,
            0 <= r,
            d > 0,
            n <= k * d,
    ;
}

/// The nearest integer when only `sig = floor(n / d)` and whether something is left over are
/// known, and the low `k` bits of `sig` are dropped.
pub proof fn lemma_nearest_drop(n: nat, d: nat, sig: nat, k: nat)
    requires
        d > 0,
        k >= 1,
        sig * d <= n < (sig + 1) * d,
    ensures
        ({
            let q = sig / pow2(k);
            let r = sig % pow2(k);
            let half = pow2((k - 1) as nat);
            nearest(n, d * pow2(k)) == if r > half || (r == half && (sig * d != n || q % 2 == 1)) {
                q + 1
            } else {
                q
            }
        }),
{
    let s = pow2(k);
    let half = pow2((k - 1) as nat);
    lemma_pow2_pos(k);
    lemma_pow2_unfold(k);
    let q = sig / s;
    let r = sig % s;
    let f = (n - sig * d) as nat;
    lemma_fundamental_div_mod(sig as int, s as int);
    lemma_mod_bound(sig as int, s as int);
    assert(f < d) by (nonlinear_arith)
        requires
            f == n - sig * d,
            n < (sig + 1) * d,
    ;
    assert(n == q * (d * s) + (r * d + f)) by (nonlinear_arith)
        requires
            n == sig * d + f,
            sig == s * q + r,
    ;
    assert(0 <= r * d + f < d * s) by (nonlinear_arith)
        requires
            0 <= r,
            r + 1 <= s,
            0 <= f < d,
    ;
    assert(d * s > 0) by (nonlinear_arith)
        requires
            d > 0,
            s > 0,
    ;
    lemma_fundamental_div_mod_converse(n as int, (d * s) as int, q as int, (r * d + f) as int);
    if r < half {
        assert(2 * (r * d + f) < d * s) by (nonlinear_arith)
            requires
                r + 1 <= half,
                s == 2 * half,
                0 <= f < d,
        ;
    } else if r == half {
        assert(2 * (r * d + f) == d * s + 2 * f) by (nonlinear_arith)
            requires
                r == half,
                s == 2 * half,
        ;
    } else {
        assert(2 * (r * d + f) > d * s) by (nonlinear_arith)
            requires
                r >= half + 1,
                s == 2 * half,
                0 <= f,
                d > 0,
        ;
    }
}

/// What pins the grid down: it leaves at most `p` bits, and a finer one would leave too many.
pub proof fn lemma_quantum_is(q: nat, p: nat, low: nat, s: nat)
    requires
        s >= low,
        p >= 1,
        q < pow2(p + s),
        s == low || q >= pow2((p + s - 1) as nat),
    ensures
        quantum(q, p, low) == s,
    decreases s - low,
{
    if s > low {
        lemma_pow2_le(p + low, (p + s - 1) as nat);
        lemma_pow2_unfold(p + s);
        lemma_pow2_unfold((p + s - 1) as nat);
        lemma_quantum_is(q / 2, p, low, (s - 1) as nat);
    }
}

/// A value under `2^(p + s)` needs no grid coarser than `2^s`.
pub proof fn lemma_quantum_le(q: nat, p: nat, low: nat, s: nat)
    requires
        s >= low,
        q < pow2(p + s),
    ensures
        low <= quantum(q, p, low) <= s,
    decreases s - low,
{
    if q < pow2(p + low) || q == 0 {
    } else {
        assert(s > low);
        lemma_pow2_unfold(p + s);
        lemma_quantum_le(q / 2, p, low, (s - 1) as nat);
    }
}

/// An integer that lies on its grid is not moved.
pub proof fn lemma_rounded_exact(m: nat, s: nat, p: nat, low: nat)
    requires
        low <= s,
        m < pow2(p),
    ensures
        rounded(m * pow2(s), 1, p, low) == m * pow2(s),
{
    let x = m * pow2(s);
    lemma_pow2_adds(p, s);
    lemma_pow2_pos(s);
    assert(x < pow2(p + s)) by (nonlinear_arith)
        requires
            x == m * pow2(s),
            m < pow2(p),
            pow2(p + s) == pow2(p) * pow2(s),
            pow2(s) > 0,
    ;
    lemma_quantum_le(x, p, low, s);
    lemma_div_basics(x as int);
    let g = quantum(x, p, low);
    lemma_pow2_adds(g, (s - g) as nat);
    lemma_pow2_pos(g);
    let k = m * pow2((s - g) as nat);
    assert(x == k * pow2(g)) by (nonlinear_arith)
        requires
            x == m * pow2(s),
            k == m * pow2((s - g) as nat),
            pow2(s) == pow2(g) * pow2((s - g) as nat),
    ;
    lemma_nearest_exact(k, pow2(g));
}

/// A value at most `m * 2^s`, with `m` of at most `p` bits, rounds to at most that.
pub proof fn lemma_rounded_le(n: nat, d: nat, m: nat, s: nat, p: nat, low: nat)
    requires
        d > 0,
        low <= s,
        m < pow2(p),
        n <= (m * pow2(s)) * d,
    ensures
        rounded(n, d, p, low) <= m * pow2(s),
{
    let x = m * pow2(s);
    lemma_pow2_adds(p, s);
    lemma_pow2_pos(s);
    assert(x < pow2(p + s)) by (nonlinear_arith)
        requires
            x == m * pow2(s),
            m < pow2(p),
            pow2(p + s) == pow2(p) * pow2(s),
            pow2(s) > 0,
    ;
    let q = n / d;
    lemma_fundamental_div_mod(n as int, d as int);
    lemma_mod_bound(n as int, d as int);
    assert(q <= x) by (nonlinear_arith)
        requires
            n <= x * d,
            n == d * q + n % d,
            0 <= n % d,
            d > 0,
    ;
    lemma_quantum_le(q, p, low, s);
    let g = quantum(q, p, low);
    let step = pow2(g);
    lemma_pow2_adds(g, (s - g) as nat);
    lemma_pow2_pos(g);
    let k = m * pow2((s - g) as nat);
    assert(x == k * step) by (nonlinear_arith)
        requires
            x == m * pow2(s),
            k == m * pow2((s - g) as nat),
            pow2(s) == step * pow2((s - g) as nat),
    ;
    assert(n <= k * (d * step)) by (nonlinear_arith)
        requires
            n <= x * d,
            x == k * step,
    ;
    assert(d * step > 0) by (nonlinear_arith)
        requires
            d > 0,
            step > 0,
    ;
    lemma_nearest_le(n, d * step, k);
    assert(nearest(n, d * step) * step <= k * step) by (nonlinear_arith)
        requires
            nearest(n, d * step) <= k,
            step > 0,
    ;
}

/// A rounded value is at most half a grid step away from the exact one.
pub proof fn law_rounding_error(n: nat, d: nat, p: nat, low: nat)
    requires
        d > 0,
    ensures
        ({
            let step = pow2(quantum(n / d, p, low));
            let r = rounded(n, d, p, low);
            &&& 2 * (n - r * d) <= d * step
            &&& 2 * (r * d - n) <= d * step
        }),
{
    let step = pow2(quantum(n / d, p, low));
    let g = d * step;
    lemma_pow2_pos(quantum(n / d, p, low));
    assert(g > 0) by (nonlinear_arith)
        requires
            g == d * step,
            d > 0,
            step > 0,
    ;
    let k = nearest(n, g);
    lemma_nearest_error(n, g);
    assert((k * step) * d == k * g) by (nonlinear_arith)
        requires
            g == d * step,
    ;
}

/// The grid of a value: it leaves at most `p` bits, and where it is not the finest one, at least
/// `p`.
pub proof fn lemma_quantum_range(q: nat, p: nat, low: nat)
    requires
        p >= 1,
    ensures
        quantum(q, p, low) >= low,
        q < pow2(p + quantum(q, p, low)),
        quantum(q, p, low) > low ==> q >= pow2((p + quantum(q, p, low) - 1) as nat),
    decreases q,
{
    lemma_pow2_pos(p + low);
    if q < pow2(p + low) || q == 0 {
    } else {
        lemma_quantum_range(q / 2, p, low);
        let s = quantum(q / 2, p, low);
        lemma_pow2_unfold(p + s + 1);
        lemma_pow2_unfold(p + s);
    }
}

/// A greater value has a grid that is not finer.
pub proof fn lemma_quantum_monotone(a: nat, b: nat, p: nat, low: nat)
    requires
        p >= 1,
        a <= b,
    ensures
        quantum(a, p, low) <= quantum(b, p, low),
{
    lemma_quantum_range(b, p, low);
    lemma_quantum_le(a, p, low, quantum(b, p, low));
}

/// A greater fraction has a nearest integer that is not smaller.
pub proof fn lemma_nearest_monotone(n: nat, d: nat, m: nat, c: nat)
    requires
        d > 0,
        c > 0,
        n * c <= m * d,
    ensures
        nearest(n, d) <= nearest(m, c),
{
    let q = n / d;
    let r = n % d;
    let k = m / c;
    let t = m % c;
    lemma_fundamental_div_mod(n as int, d as int);
    lemma_mod_bound(n as int, d as int);
    lemma_fundamental_div_mod(m as int, c as int);
    lemma_mod_bound(m as int, c as int);
    assert(q <= k) by (nonlinear_arith)
        requires
            n * c <= m * d,
            n == d * q + r,
            m == c * k + t,
            0 <= r,
            t < c,
            c > 0,
            d > 0,
    ;
    if q == k {
        assert(r * c <= t * d) by (nonlinear_arith)
            requires
                n * c <= m * d,
                n == d * q + r,
                m == c * q + t,
        ;
        assert(2 * r > d ==> 2 * t > c) by (nonlinear_arith)
            requires
                r * c <= t * d,
                c > 0,
                d > 0,
        ;
        assert(2 * r == d ==> 2 * t >= c) by (nonlinear_arith)
            requires
                r * c <= t * d,
                c > 0,
                d > 0,
        ;
    }
}

/// Fractions in order have integer parts in order.
proof fn lemma_div_monotone(n: nat, d: nat, m: nat, c: nat)
    requires
        d > 0,
        c > 0,
        n * c <= m * d,
    ensures
        n / d <= m / c,
{
    let q = n / d;
    let k = m / c;
    lemma_fundamental_div_mod(n as int, d as int);
    lemma_mod_bound(n as int, d as int);
    lemma_fundamental_div_mod(m as int, c as int);
    lemma_mod_bound(m as int, c as int);
    assert(q <= k) by (nonlinear_arith)
        requires
            n * c <= m * d,
            n == d * q + n % d,
            m == c * k + m % c,
            0 <= n % d,
            m % c < c,
            c > 0,
            d > 0,
    ;
}

/// Rounding keeps the order of values.
pub proof fn law_rounding_is_monotone(n: nat, d: nat, m: nat, c: nat, p: nat, low: nat)
    requires
        d > 0,
        c > 0,
        p >= 1,
        n * c <= m * d,
    ensures
        rounded(n, d, p, low) <= rounded(m, c, p, low),
{
    let a = quantum(n / d, p, low);
    let b = quantum(m / c, p, low);
    lemma_div_monotone(n, d, m, c);
    lemma_quantum_monotone(n / d, m / c, p, low);
    lemma_pow2_pos(a);
    lemma_pow2_pos(b);
    let x = pow2(a);
    let y = pow2(b);
    assert(d * x > 0 && c * y > 0) by (nonlinear_arith)
        requires
            d > 0,
            c > 0,
            x > 0,
            y > 0,
    ;
    if a == b {
        assert(n * (c * x) <= m * (d * x)) by (nonlinear_arith)
            requires
                n * c <= m * d,
                x > 0,
        ;
        lemma_nearest_monotone(n, d * x, m, c * x);
        let i = nearest(n, d * x);
        let j = nearest(m, c * x);
        assert(i * x <= j * x) by (nonlinear_arith)
            requires
                i <= j,
                x > 0,
        ;
    } else {
        let top = pow2(p + a);
        lemma_quantum_range(n / d, p, low);
        lemma_quantum_range(m / c, p, low);
        lemma_pow2_le(p + a, (p + b - 1) as nat);
        // from below
        lemma_pow2_adds(p, a);
        lemma_fundamental_div_mod(n as int, d as int);
        lemma_mod_bound(n as int, d as int);
        let q = n / d;
        assert(n <= pow2(p) * (d * x)) by (nonlinear_arith)
            requires
                n == d * q + n % d,
                n % d < d,
                q + 1 <= top,
                top == pow2(p) * x,
                d > 0,
        ;
        lemma_nearest_le(n, d * x, pow2(p));
        let i = nearest(n, d * x);
        assert(i * x <= top) by (nonlinear_arith)
            requires
                i <= pow2(p),
                top == pow2(p) * x,
                x > 0,
        ;
        // from above
        let h = (p - 1) as nat;
        lemma_pow2_adds(h, b);
        lemma_fundamental_div_mod(m as int, c as int);
        lemma_mod_bound(m as int, c as int);
        let k = m / c;
        let half = pow2(h);
        assert(half * (c * y) <= m) by (nonlinear_arith)
            requires
                m == c * k + m % c,
                0 <= m % c,
                k >= half * y,
                c > 0,
        ;
        lemma_nearest_exact(half, c * y);
        lemma_mul_inequality((half * (c * y)) as int, m as int, (c * y) as int);
        lemma_nearest_monotone(half * (c * y), c * y, m, c * y);
        let j = nearest(m, c * y);
        assert(half * y <= j * y) by (nonlinear_arith)
            requires
                half <= j,
                y > 0,
        ;
    }
}

/// The nearest integer is at most one half away.
pub proof fn lemma_nearest_error(n: nat, d: nat)
    requires
        d > 0,
    ensures
        2 * (n - nearest(n, d) * d) <= d,
        2 * (nearest(n, d) * d - n) <= d,
{
    let q = n / d;
    let r = n % d;
    let k = nearest(n, d);
    lemma_fundamental_div_mod(n as int, d as int);
    lemma_mod_bound(n as int, d as int);
    if k == q {
        assert(k * d == n - r) by (nonlinear_arith)
            requires
                k == q,
                n == d * q + r,
        ;
    } else {
        assert(k * d == n - r + d) by (nonlinear_arith)
            requires
                k == q + 1,
                n == d * q + r,
        ;
    }
}

/// A rounded value is an integer of at most `p` bits, scaled by a power of two that is not finer
/// than its grid.
pub proof fn lemma_on_grid(n: nat, d: nat, p: nat, low: nat) -> (r: (nat, nat))
    requires
        d > 0,
        p >= 1,
    ensures
        r.0 < pow2(p),
        r.1 >= quantum(n / d, p, low),
        rounded(n, d, p, low) == r.0 * pow2(r.1),
{
    let g = quantum(n / d, p, low);
    let step = pow2(g);
    lemma_pow2_pos(g);
    lemma_pow2_pos(p);
    lemma_quantum_range(n / d, p, low);
    lemma_pow2_adds(p, g);
    lemma_fundamental_div_mod(n as int, d as int);
    lemma_mod_bound(n as int, d as int);
    let q = n / d;
    assert(n <= pow2(p) * (d * step)) by (nonlinear_arith)
        requires
            n == d * q + n % d,
            n % d < d,
            q + 1 <= pow2(p) * step,
            d > 0,
    ;
    assert(d * step > 0) by (nonlinear_arith)
        requires
            d > 0,
            step > 0,
    ;
    lemma_nearest_le(n, d * step, pow2(p));
    let k = nearest(n, d * step);
    if k < pow2(p) {
        (k, g)
    } else {
        let h = (p - 1) as nat;
        lemma_pow2_unfold(p);
        lemma_pow2_unfold(g + 1);
        lemma_pow2_pos(h);
        assert(k * step == pow2(h) * (2 * step)) by (nonlinear_arith)
            requires
                k == 2 * pow2(h),
        ;
        (pow2(h), g + 1)
    }
}

/// An integer that is rounded to `p` bits moves by at most one part in `2^p`.
pub proof fn lemma_rounded_relative(n: nat, p: nat)
    requires
        p >= 1,
    ensures
        (n - rounded(n, 1, p, 0)) * pow2(p) <= n,
        (rounded(n, 1, p, 0) - n) * pow2(p) <= n,
{
    let r = rounded(n, 1, p, 0);
    let g = quantum(n, p, 0);
    let step = pow2(g);
    lemma_div_basics(n as int);
    lemma_mul_basics(r as int);
    lemma_mul_basics(step as int);
    lemma_quantum_range(n, p, 0);
    lemma_pow2_pos(p);
    if g == 0 {
        reveal_pow2_zero();
        lemma_mul_basics(n as int);
        lemma_mul_basics(nearest(n, 1) as int);
        lemma_nearest_exact(n, 1);
        lemma_mul_basics(pow2(p) as int);
    } else {
        law_rounding_error(n, 1, p, 0);
        let h = pow2((p - 1) as nat);
        lemma_pow2_adds((p - 1) as nat, g);
        lemma_pow2_unfold(p);
        let x = n - r;
        assert(x * (2 * h) <= n && -x * (2 * h) <= n) by (nonlinear_arith)
            requires
                2 * x <= step,
                -2 * x <= step,
                h * step <= n,
                h > 0,
        {
            assert((2 * x) * h <= step * h);
            assert((-2 * x) * h <= step * h);
        }
    }
}

/// A fraction of at least `2^p` moves by at most one part in `2^p` when it is rounded to `p` bits.
pub proof fn lemma_rounded_ratio(n: nat, d: nat, p: nat)
    requires
        d > 0,
        p >= 1,
        n >= pow2(p) * d,
    ensures
        (n - rounded(n, d, p, 0) * d) * pow2(p) <= n,
        (rounded(n, d, p, 0) * d - n) * pow2(p) <= n,
{
    let q = n / d;
    let g = quantum(q, p, 0);
    let r = rounded(n, d, p, 0);
    let step = pow2(g);
    lemma_pow2_pos(p);
    lemma_fundamental_div_mod(n as int, d as int);
    lemma_mod_bound(n as int, d as int);
    lemma_div_is_ordered((pow2(p) * d) as int, n as int, d as int);
    lemma_div_by_multiple(pow2(p) as int, d as int);
    lemma_quantum_range(q, p, 0);
    assert(g > 0);
    law_rounding_error(n, d, p, 0);
    let h = pow2((p - 1) as nat);
    lemma_pow2_adds((p - 1) as nat, g);
    lemma_pow2_unfold(p);
    let x = n - r * d;
    assert(h * step * d <= n) by (nonlinear_arith)
        requires
            h * step <= q,
            n == d * q + n % d,
            0 <= n % d,
            d > 0,
    ;
    assert(x * (2 * h) <= n && -x * (2 * h) <= n) by (nonlinear_arith)
        requires
            2 * x <= d * step,
            -2 * x <= d * step,
            h * step * d <= n,
            h > 0,
    {
        assert((2 * x) * h <= (d * step) * h);
        assert((-2 * x) * h <= (d * step) * h);
        assert((d * step) * h == h * step * d);
    }
}

/// Fractions of the same value round alike.
pub proof fn lemma_rounded_same(n: nat, d: nat, m: nat, c: nat, p: nat, low: nat)
    requires
        d > 0,
        c > 0,
        p >= 1,
        n * c == m * d,
    ensures
        rounded(n, d, p, low) == rounded(m, c, p, low),
{
    law_rounding_is_monotone(n, d, m, c, p, low);
    law_rounding_is_monotone(m, c, n, d, p, low);
}

/// `2^e` as a product: shifting by `e` and then by `k` is shifting by `e + k`.
proof fn lemma_shift_adds(e: int, k: nat)
    requires
        e + k >= 0,
    ensures
        up(e) * pow2(k) == pow2((e + k) as nat) * down(e),
        up(e) > 0,
        down(e) > 0,
{
    lemma_pow2_pos(0);
    reveal_pow2_zero();
    if e >= 0 {
        lemma_pow2_adds(e as nat, k);
        lemma_pow2_pos(e as nat);
        lemma_mul_basics(pow2((e + k) as nat) as int);
    } else {
        lemma_mul_basics(pow2(k) as int);
        lemma_pow2_adds((e + k) as nat, (-e) as nat);
        lemma_pow2_pos((-e) as nat);
    }
}

pub proof fn reveal_pow2_zero()
    ensures
        pow2(0) == 1,
        pow2(1) == 2,
{
    lemma2_to64();
}

/// `2^k`.
pub fn power_of_two(k: u32) -> (r: u128)
    requires
        k < 128,
    ensures
        r == pow2(k as nat),
{
    let mut r: u128 = 1;
    let mut i: u32 = 0;
    proof {
        reveal_pow2_zero();
        lemma_pow2_127();
    }
    while i < k
        invariant
            i <= k < 128,
            r == pow2(i as nat),
            pow2(127) == 0x8000_0000_0000_0000_0000_0000_0000_0000,
        decreases k - i,
    {
        proof {
            lemma_pow2_unfold((i + 1) as nat);
            lemma_pow2_le((i + 1) as nat, 127);
        }
        r = r * 2;
        i = i + 1;
    }
    r
}

pub proof fn lemma_pow2_127()
    ensures
        pow2(127) == 0x8000_0000_0000_0000_0000_0000_0000_0000,
        pow2(128) == 0x1_0000_0000_0000_0000_0000_0000_0000_0000,
{
    lemma2_to64();
    lemma2_to64_rest();
    lemma_pow2_adds(64, 63);
    lemma_pow2_adds(64, 64);
}

/// The number of bits of `x`.
pub fn bit_length(x: u128) -> (b: u32)
    requires
        x > 0,
    ensures
        1 <= b <= 128,
        pow2((b - 1) as nat) <= x < pow2(b as nat),
{
    let mut b: u32 = 1;
    let mut t: u128 = x / 2;
    proof {
        reveal_pow2_zero();
        lemma_pow2_127();
    }
    while t > 0
        invariant
            1 <= b <= 128,
            pow2((b - 1) as nat) <= x,
            t * pow2(b as nat) <= x < (t + 1) * pow2(b as nat),
            pow2(128) == 0x1_0000_0000_0000_0000_0000_0000_0000_0000,
        decreases t,
    {
        proof {
            let w = pow2(b as nat);
            assert(w <= x) by (nonlinear_arith)
                requires
                    t >= 1,
                    t * w <= x,
            ;
            if b == 128 {
                assert(false);
            }
            lemma_pow2_unfold((b + 1) as nat);
            let h = (t / 2) as nat;
            assert(h * (2 * w) <= x < (h + 1) * (2 * w)) by (nonlinear_arith)
                requires
                    t * w <= x < (t + 1) * w,
                    2 * h <= t,
                    t <= 2 * h + 1,
            ;
        }
        t = t / 2;
        b = b + 1;
    }
    proof {
        assert((t + 1) * pow2(b as nat) == pow2(b as nat)) by (nonlinear_arith)
            requires
                t == 0,
        ;
    }
    b
}

/// `n * v < t * (d * u)`, `t <= x` and `u * x * y == top * v` give `n < d * top`.
proof fn lemma_scaled_lt(n: nat, d: nat, t: nat, u: nat, v: nat, x: nat, y: nat, top: nat)
    requires
        n * v < t * (d * u),
        t <= x,
        u * (x * y) == top * v,
        y >= 1,
        v > 0,
    ensures
        n < d * top,
{
    let g = d * u;
    assert(t * g <= x * g) by (nonlinear_arith)
        requires
            t <= x,
    ;
    assert(x * g <= (x * g) * y) by (nonlinear_arith)
        requires
            y >= 1,
    ;
    assert((x * (d * u)) * y == d * (u * (x * y))) by (nonlinear_arith);
    assert(d * (top * v) == (d * top) * v) by (nonlinear_arith);
    assert(n < d * top) by (nonlinear_arith)
        requires
            n * v < (d * top) * v,
            v > 0,
    ;
}

/// `n * v >= t * (d * u)`, `t >= x` and `u * x == bot * v` give `n >= d * bot`.
proof fn lemma_scaled_ge(n: nat, d: nat, t: nat, u: nat, v: nat, x: nat, bot: nat)
    requires
        n * v >= t * (d * u),
        t >= x,
        u * x == bot * v,
        v > 0,
    ensures
        n >= d * bot,
{
    let g = d * u;
    assert(t * g >= x * g) by (nonlinear_arith)
        requires
            t >= x,
    ;
    assert(x * (d * u) == d * (u * x)) by (nonlinear_arith);
    assert(d * (bot * v) == (d * bot) * v) by (nonlinear_arith);
    assert(n >= d * bot) by (nonlinear_arith)
        requires
            n * v >= (d * bot) * v,
            v > 0,
    ;
}

/// Which grid `n / d` goes to, from the bits of the significand that brackets it.
proof fn lemma_grid(sig: nat, b: nat, left_over: bool, e: int, n: nat, d: nat, p: nat, low: nat, s: nat)
    requires
        d > 0,
        p >= 1,
        b >= 1,
        brackets(sig, left_over, e, n, d),
        pow2((b - 1) as nat) <= sig < pow2(b),
        s >= low,
        s >= b + e - p,
        s == low || s == b + e - p,
    ensures
        quantum(n / d, p, low) == s,
{
    let u = up(e);
    let v = down(e);
    // under 2^(p + s)
    let k = (p + s - e - b) as nat;
    lemma_pow2_pos(b);
    lemma_pow2_pos(k);
    lemma_shift_adds(e, b + k);
    lemma_pow2_adds(b, k);
    let top = pow2(p + s);
    assert(u * (pow2(b) * pow2(k)) == top * v);
    lemma_scaled_lt(n, d, sig + 1, u, v, pow2(b), pow2(k), top);
    lemma_multiply_divide_lt(n as int, d as int, top as int);
    if s > low {
        let w = (b - 1) as nat;
        lemma_shift_adds(e, w);
        let bot = pow2((p + s - 1) as nat);
        assert(u * pow2(w) == bot * v);
        lemma_scaled_ge(n, d, sig, u, v, pow2(w), bot);
        lemma_div_is_ordered((d * bot) as int, n as int, d as int);
        lemma_div_multiples_vanish(bot as int, d as int);
    }
    lemma_quantum_is(n / d, p, low, s);
}

/// `n / d` on its grid, as a number of steps and the exponent of the step.
///
/// The value is given by the integer `sig * 2^e` below it and by whether anything is left over; if
/// something is, `sig` has at least two bits more than the result keeps.
pub fn round_parts(
    sig: u128,
    left_over: bool,
    e: i32,
    p: u32,
    low: u32,
    Ghost(n): Ghost<nat>,
    Ghost(d): Ghost<nat>,
) -> (r: (u64, u32))
    requires
        d > 0,
        1 <= p <= 62,
        low <= 2000,
        -8000 <= e <= 8000,
        brackets(sig as nat, left_over, e as int, n, d),
        left_over ==> sig >= pow2((p + 1) as nat),
    ensures
        r.0 * pow2(r.1 as nat) == rounded(n, d, p as nat, low as nat),
        r.0 <= pow2(p as nat),
        r.1 >= low,
        r.1 > low ==> r.0 >= pow2((p - 1) as nat),
        r.1 <= 10000,
{
    proof {
        lemma_pow2_pos(p as nat);
        lemma_shift_adds(e as int, if e >= 0 { 0 } else { (-e) as nat });
    }
    if sig == 0 {
        proof {
            lemma_pow2_pos((p + 1) as nat);
            assert(n == 0) by (nonlinear_arith)
                requires
                    0 * (d * up(e as int)) == n * down(e as int),
                    down(e as int) > 0,
            ;
            lemma_pow2_pos((p + low) as nat);
            lemma_div_of0(d as int);
            let step = pow2(low as nat);
            lemma_pow2_pos(low as nat);
            assert(d * step > 0) by (nonlinear_arith)
                requires
                    d > 0,
                    step > 0,
            ;
            lemma_nearest_exact(0, d * step);
            assert(0 * (d * step) == 0) by (nonlinear_arith);
            assert(0 * step == 0) by (nonlinear_arith);
        }
        return (0, low);
    }
    let b: u32 = bit_length(sig);
    let wide: i32 = b as i32 + e - p as i32;
    let s: u32 = if wide > low as i32 {
        wide as u32
    } else {
        low
    };
    let k: i32 = s as i32 - e;
    let ghost du = d * up(e as int);
    let ghost nd = n * down(e as int);
    let ghost step = pow2(s as nat);
    proof {
        lemma_grid(sig as nat, b as nat, left_over, e as int, n, d, p as nat, low as nat, s as nat);
        lemma_pow2_pos(s as nat);
        assert(d * step > 0) by (nonlinear_arith)
            requires
                d > 0,
                step > 0,
        ;
        if left_over {
            if b < p + 2 {
                lemma_pow2_le(b as nat, (p + 1) as nat);
            }
        }
    }
    if k <= 0 {
        let j: u32 = (-k) as u32;
        assert(b + j <= p);
        proof {
            lemma_pow2_127();
            lemma_pow2_le(p as nat, 127);
            lemma_pow2_adds(b as nat, j as nat);
            lemma_pow2_le((b + j) as nat, p as nat);
            lemma_pow2_pos(j as nat);
            assert(sig * pow2(j as nat) < pow2(p as nat)) by (nonlinear_arith)
                requires
                    sig < pow2(b as nat),
                    pow2(b as nat) * pow2(j as nat) <= pow2(p as nat),
                    pow2(j as nat) > 0,
            ;
            lemma_pow2_le(p as nat, 63);
            lemma2_to64_rest();
        }
        let m: u128 = sig * power_of_two(j);
        proof {
            // exact: n = m * (d * step)
            assert(!left_over);
            lemma_pow2_adds(s as nat, j as nat);
            reveal_pow2_zero();
            assert(e >= 0);
            assert(n * 1 == n) by (nonlinear_arith);
            assert(n == m * (d * step)) by (nonlinear_arith)
                requires
                    n == sig * (d * pow2(e as nat)),
                    pow2(e as nat) == step * pow2(j as nat),
                    m == sig * pow2(j as nat),
            ;
            lemma_nearest_exact(m as nat, d * step);
            if s > low {
                lemma_pow2_adds((b - 1) as nat, j as nat);
                assert(b + j == p);
                assert(m >= pow2((p - 1) as nat)) by (nonlinear_arith)
                    requires
                        m == sig * pow2(j as nat),
                        sig >= pow2((b - 1) as nat),
                        pow2((b - 1) as nat) * pow2(j as nat) == pow2((p - 1) as nat),
                        pow2(j as nat) > 0,
                ;
            }
        }
        return (m as u64, s);
    }
    proof {
        lemma_shift_adds(e as int, k as nat);
        assert(du > 0) by (nonlinear_arith)
            requires
                du == d * up(e as int),
                d > 0,
                up(e as int) > 0,
        ;
        lemma_nearest_drop(nd, du, sig as nat, k as nat);
        assert(du * pow2(k as nat) == (d * step) * down(e as int)) by (nonlinear_arith)
            requires
                du == d * up(e as int),
                up(e as int) * pow2(k as nat) == step * down(e as int),
        ;
        lemma_nearest_scale(n, d * step, down(e as int));
    }
    if k > b as i32 {
        // less than half a step
        proof {
            lemma_pow2_le(b as nat, (k - 1) as nat);
            lemma_pow2_le(b as nat, k as nat);
            lemma_small_mod(sig as nat, pow2(k as nat));
            lemma_basic_div(sig as int, pow2(k as nat) as int);
            assert(0 * step == 0) by (nonlinear_arith);
        }
        return (0, s);
    }
    if k == 128 {
        // b is 128 as well; the quotient is zero and half a step is 2^127
        proof {
            lemma_pow2_127();
            lemma_small_mod(sig as nat, pow2(128));
            lemma_basic_div(sig as int, pow2(128) as int);
            assert(0 * step == 0) by (nonlinear_arith);
            assert(1 * step == step) by (nonlinear_arith);
            assert(s == low);
        }
        let half: u128 = power_of_two(127);
        if sig > half || (sig == half && left_over) {
            proof {
                reveal_pow2_zero();
                lemma_pow2_le(0, p as nat);
            }
            return (1, s);
        } else {
            return (0, s);
        }
    }
    let whole: u128 = power_of_two(k as u32);
    let half: u128 = power_of_two((k - 1) as u32);
    proof {
        lemma_pow2_pos(k as nat);
    }
    let q: u128 = sig / whole;
    let rem: u128 = sig % whole;
    proof {
        // q < 2^(b - k) <= 2^p
        lemma_pow2_adds((b - k) as nat, k as nat);
        lemma_fundamental_div_mod(sig as int, whole as int);
        lemma_mod_bound(sig as int, whole as int);
        assert(q < pow2((b - k) as nat)) by (nonlinear_arith)
            requires
                sig == whole * q + rem,
                rem >= 0,
                sig < pow2((b - k) as nat) * whole,
                whole > 0,
        ;
        lemma_pow2_le((b - k) as nat, p as nat);
        lemma_pow2_le(p as nat, 62);
        lemma2_to64_rest();
        if s > low {
            assert(b - k == p);
            lemma_pow2_adds((p - 1) as nat, k as nat);
            assert(q >= pow2((p - 1) as nat)) by (nonlinear_arith)
                requires
                    sig == whole * q + rem,
                    rem < whole,
                    sig >= pow2((p - 1) as nat) * whole,
            ;
        }
    }
    if rem > half || (rem == half && (left_over || q % 2 == 1)) {
        ((q + 1) as u64, s)
    } else {
        (q as u64, s)
    }
}

} // verus!
