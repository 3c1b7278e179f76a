//! How single quantities are written: bars, frequencies, watts, temperatures, gigabytes.

use crate::decimal::{dec, decimal, fixed};
use crate::ieee::{
    above, exactly, fit, is_zero, lemma_integer_fits, nearest_whole, one, product, quotient, whole,
    Double, Num, Single, Width,
};
use crate::reading::{
    field, fits, law_count_is_read, law_trimmed, law_value_is_read, law_value_is_trimmed,
    lemma_field, reads, shows, tells, trimmed, without_point,
};
use crate::rounding::{
    law_rounding_error, law_rounding_is_monotone, lemma_nearest_error, lemma_nearest_monotone,
    lemma_on_grid, lemma_pow2_le, lemma_quantum_le, lemma_quantum_range, lemma_rounded_exact,
    lemma_rounded_le, lemma_rounded_same, nearest, quantum, reveal_pow2_zero, rounded,
};
use crate::text::{align_right, repeat, repeated, right_aligned, zero_filled};
use vstd::arithmetic::div_mod::*;
use vstd::arithmetic::mul::*;
use vstd::arithmetic::power::*;
use vstd::arithmetic::power2::*;
use vstd::prelude::*;
use vstd::string::StringExecFns;

verus! {

/// Bytes in a gigabyte.
pub const GB: u64 = 1_073_741_824;

/// Between zero and one; what is not a number stays what it is.
pub open spec fn clamped(a: Num) -> Num {
    if above(whole(0), a) {
        whole(0)
    } else if above(a, whole(1)) {
        whole(1)
    } else {
        a
    }
}

/// The share of `max` that `value` makes up, between zero and one; none of a `max` that is not
/// positive.
pub open spec fn share(value: Num, max: Num) -> Num {
    if above(max, whole(0)) {
        clamped(fit(Width::Double, quotient(value, max)))
    } else {
        whole(0)
    }
}

/// How many of `width` cells a bar fills.
pub open spec fn filled_cells(value: Num, max: Num, width: nat) -> nat {
    nearest_whole(fit(Width::Double, product(share(value, max), whole(width))))
}

/// A bar in brackets: filled cells, then empty ones.
pub open spec fn bar_text(value: Num, max: Num, width: nat) -> Seq<char> {
    let filled = filled_cells(value, max, width);
    seq!['['] + repeated('█', filled) + repeated('░', (width - filled) as nat) + seq![']']
}

/// A frequency as the sample log shows it: in gigahertz from 1000 MHz on, `N/A` at zero.
pub open spec fn freq_text(mhz: nat) -> Seq<char> {
    if mhz == 0 {
        "    N/A  "@
    } else if mhz >= 1000 {
        right_aligned(fixed(fit(Width::Double, quotient(whole(mhz), whole(1000))), 2), 6) + " GHz"@
    } else {
        right_aligned(dec(mhz), 4) + " MHz  "@
    }
}

/// A frequency as the session log shows it, always in megahertz.
pub open spec fn log_freq_text(mhz: nat) -> Seq<char> {
    right_aligned(dec(mhz), 5) + " MHz"@
}

/// A power as the session log shows it.
pub open spec fn log_watts_text(w: Num) -> Seq<char> {
    right_aligned(fixed(w, 2), 6) + " W"@
}

/// A power as the sample log shows it: `N/A` at zero.
pub open spec fn watts_text(w: Num) -> Seq<char> {
    if is_zero(w) {
        "   N/A"@
    } else {
        log_watts_text(w)
    }
}

/// A temperature: `N/A` at zero.
pub open spec fn temp_text(t: Num) -> Seq<char> {
    if is_zero(t) {
        "  N/A"@
    } else {
        right_aligned(fixed(t, 1), 5) + "°C"@
    }
}

/// A number of bytes, in gigabytes.
pub open spec fn gigabytes(bytes: nat) -> Num {
    fit(Width::Double, quotient(fit(Width::Double, exactly(whole(bytes))), whole(GB as nat)))
}

/// A number of bytes, written in gigabytes.
pub open spec fn gb_text(bytes: nat) -> Seq<char> {
    fixed(gigabytes(bytes), 2) + " GB"@
}

/// A share is not a number, or lies between zero and one.
pub proof fn lemma_share_bounds(value: Num, max: Num)
    ensures
        share(value, max) is Nan || (share(value, max) matches Num::Fin { neg, mag } && (neg ==> mag
            == 0) && mag <= one()),
{
    lemma_mul_basics(one() as int);
    lemma_pow2_pos(1074);
}

/// A bar never fills more cells than it has.
pub proof fn lemma_filled_cells(value: Num, max: Num, width: nat)
    requires
        width < pow2(53),
    ensures
        filled_cells(value, max, width) <= width,
{
    lemma_share_bounds(value, max);
    if share(value, max) is Fin {
        lemma_cells_of_share(value, max, width);
    }
}

/// Every bar of one width has the same number of characters.
pub proof fn law_bar_length(value: Num, max: Num, width: nat)
    requires
        width < pow2(53),
    ensures
        bar_text(value, max, width).len() == width + 2,
{
    lemma_filled_cells(value, max, width);
}

/// The share of a finite value: none of a negative one, and no more than all.
proof fn lemma_share_magnitude(value: Num, max: Num)
    requires
        value is Fin,
        max is Fin,
        above(max, whole(0)),
    ensures
        share(value, max) matches Num::Fin { neg, mag } && (neg ==> mag == 0) && mag == if value->Fin_neg {
            0
        } else {
            let r = rounded(value->Fin_mag * one(), max->Fin_mag, 53, 0);
            if r > one() {
                one()
            } else {
                r
            }
        },
{
    lemma_mul_basics(one() as int);
    lemma_pow2_pos(1074);
    lemma_pow2_strictly_increases(1074, 2098);
}

/// How many cells a share fills.
proof fn lemma_cells_of_share(value: Num, max: Num, width: nat)
    requires
        width < pow2(53),
        share(value, max) is Fin,
    ensures
        ({
            let p = rounded(share(value, max)->Fin_mag * (width * one()), one(), 53, 0);
            &&& p <= width * one()
            &&& filled_cells(value, max, width) == (2 * p + one()) / (2 * one())
            &&& filled_cells(value, max, width) <= width
        }),
{
    lemma_share_bounds(value, max);
    lemma_pow2_pos(1074);
    let mag = share(value, max)->Fin_mag;
    let n = mag * (width * one());
    let top = width * one();
    lemma_mul_is_commutative(mag as int, top as int);
    lemma_mul_inequality(mag as int, one() as int, top as int);
    lemma_mul_is_commutative(one() as int, top as int);
    lemma_rounded_le(n, one(), width, 1074, 53, 0);
    lemma_pow2_adds(53, 1074);
    lemma_pow2_le(53 + 1074, 2098);
    lemma_mul_strict_inequality(width as int, pow2(53) as int, one() as int);
    let p = rounded(n, one(), 53, 0);
    if mag == 0 {
        lemma_mul_basics(top as int);
        lemma_mul_basics(one() as int);
        lemma_rounded_le(0, one(), 0, 1074, 53, 0);
        lemma_div_is_ordered(one() as int, (2 * one()) as int - 1, (2 * one()) as int);
        lemma_basic_div(one() as int, (2 * one()) as int);
    }
    lemma_div_is_ordered((2 * p + one()) as int, (2 * top + one()) as int, (2 * one()) as int);
    assert(2 * top + one() == width * (2 * one()) + one()) by (nonlinear_arith)
        requires
            top == width * one(),
    ;
    lemma_fundamental_div_mod_converse(
        (2 * top + one()) as int,
        (2 * one()) as int,
        width as int,
        one() as int,
    );
    lemma2_to64_rest();
}

/// A greater value never fills fewer cells.
pub proof fn law_bar_is_monotone(a: Num, b: Num, max: Num, width: nat)
    requires
        a is Fin,
        b is Fin,
        !above(a, b),
        max is Fin,
        width < pow2(53),
    ensures
        filled_cells(a, max, width) <= filled_cells(b, max, width),
{
    if above(max, whole(0)) {
        lemma_pow2_pos(1074);
        lemma_share_magnitude(a, max);
        lemma_share_magnitude(b, max);
        lemma_cells_of_share(a, max, width);
        lemma_cells_of_share(b, max, width);
        let c = max->Fin_mag;
        let x = a->Fin_mag * one();
        let y = b->Fin_mag * one();
        if !a->Fin_neg {
            // then `b` is not negative either, or both are zero
            assert(!b->Fin_neg || (a->Fin_mag == 0 && b->Fin_mag == 0));
            if b->Fin_neg {
                lemma_mul_basics(one() as int);
                lemma_mul_basics(c as int);
                lemma_rounded_le(0, c, 0, 1074, 53, 0);
            } else {
                lemma_mul_inequality(a->Fin_mag as int, b->Fin_mag as int, one() as int);
                lemma_mul_inequality(x as int, y as int, c as int);
                law_rounding_is_monotone(x, c, y, c, 53, 0);
            }
        }
        let s = share(a, max)->Fin_mag;
        let t = share(b, max)->Fin_mag;
        assert(s <= t);
        let w = width * one();
        lemma_mul_inequality(s as int, t as int, w as int);
        lemma_mul_inequality((s * w) as int, (t * w) as int, one() as int);
        law_rounding_is_monotone(s * w, one(), t * w, one(), 53, 0);
        let p = rounded(s * w, one(), 53, 0);
        let q = rounded(t * w, one(), 53, 0);
        lemma_div_is_ordered((2 * p + one()) as int, (2 * q + one()) as int, (2 * one()) as int);
    }
}

/// The cells that are filled are at most half a cell, and what two roundings to 53 bits make of a
/// bar under `2^e` cells, away from the exact share: `|cells - width * value / max|` is at most
/// `1/2 + 2^(e - 52)`.
pub proof fn law_bar_is_close(value: Num, max: Num, width: nat, e: nat)
    requires
        value is Fin,
        max is Fin,
        !above(whole(0), value),
        !above(value, max),
        above(max, whole(0)),
        e <= 53,
        width < pow2(e),
    ensures
        ({
            let k = filled_cells(value, max, width);
            let m = value->Fin_mag;
            let c = max->Fin_mag;
            &&& (k * c - width * m) * pow2(54) <= c * (pow2(53) + pow2(e + 2))
            &&& (width * m - k * c) * pow2(54) <= c * (pow2(53) + pow2(e + 2))
        }),
{
    lemma_pow2_pos(1074);
    lemma_mul_basics(one() as int);
    lemma_pow2_le(e, 53);
    lemma_share_magnitude(value, max);
    lemma_cells_of_share(value, max, width);
    let u = one();
    let m = value->Fin_mag;
    let c = max->Fin_mag;
    let k = filled_cells(value, max, width);
    let s = share(value, max)->Fin_mag;
    // the share
    lemma_mul_inequality(m as int, c as int, u as int);
    lemma_mul_is_commutative(c as int, u as int);
    reveal_pow2_zero();
    lemma_pow2_le(1, 53);
    lemma_rounded_le(m * u, c, 1, 1074, 53, 0);
    if value->Fin_neg {
        lemma_mul_basics(c as int);
        lemma_rounded_le(0, c, 0, 1074, 53, 0);
    }
    assert(s == rounded(m * u, c, 53, 0));
    law_rounding_error(m * u, c, 53, 0);
    let near = pow2(quantum((m * u) / c, 53, 0));
    lemma_pow2_strictly_increases(1074, 53 + 1022);
    lemma_div_is_ordered((m * u) as int, (u * c) as int, c as int);
    lemma_div_by_multiple(u as int, c as int);
    lemma_quantum_le((m * u) / c, 53, 0, 1022);
    lemma_pow2_le(quantum((m * u) / c, 53, 0), 1022);
    // the cells
    let w = width * u;
    let n = s * w;
    let p = rounded(n, u, 53, 0);
    law_rounding_error(n, u, 53, 0);
    let fine = pow2(quantum(n / u, 53, 0));
    lemma_pow2_adds(e, 1074);
    assert(n / u < pow2(53 + (e + 1021))) by {
        let sw = s * width;
        assert(n == sw * u) by (nonlinear_arith)
            requires
                n == s * w,
                w == width * u,
                sw == s * width,
        ;
        lemma_div_by_multiple(sw as int, u as int);
        assert(sw < pow2(e) * u) by (nonlinear_arith)
            requires
                sw == s * width,
                s <= u,
                width + 1 <= pow2(e),
                u > 0,
        ;
    }
    lemma_quantum_le(n / u, 53, 0, e + 1021);
    lemma_pow2_le(quantum(n / u, 53, 0), e + 1021);
    lemma_fundamental_div_mod((2 * p + u) as int, (2 * u) as int);
    lemma_mod_bound((2 * p + u) as int, (2 * u) as int);
    lemma_pow2_adds(53, 1021);
    lemma_pow2_adds(1, 1021);
    lemma_pow2_adds(e, 1021);
    lemma_pow2_adds(e, 2);
    lemma2_to64();
    lemma2_to64_rest();
    lemma_cell_error(u, m, c, width, s, p, k, near, fine, pow2(1021), pow2(e));
}

/// The errors of share, product and nearest cell, put together.
proof fn lemma_cell_error(
    u: nat,
    m: nat,
    c: nat,
    width: nat,
    s: nat,
    p: nat,
    k: nat,
    near: nat,
    fine: nat,
    g: nat,
    f: nat,
)
    requires
        g > 0,
        u == pow2(53) * g,
        pow2(54) == 2 * pow2(53),
        near <= 2 * g,
        fine <= f * g,
        width <= f,
        2 * (m * u - s * c) <= c * near,
        2 * (s * c - m * u) <= c * near,
        2 * (s * (width * u) - p * u) <= u * fine,
        2 * (p * u - s * (width * u)) <= u * fine,
        2 * u * k <= 2 * p + u < 2 * u * k + 2 * u,
        c > 0,
    ensures
        (k * c - width * m) * pow2(54) <= c * (pow2(53) + 4 * f),
        (width * m - k * c) * pow2(54) <= c * (pow2(53) + 4 * f),
{
    let big = pow2(53);
    lemma_pow2_pos(53);
    assert(u > 0) by (nonlinear_arith)
        requires
            u == big * g,
            g > 0,
            big > 0,
    ;
    // in units of half a cell
    let a = 2 * (s * width - p);
    assert(a <= fine && -a <= fine) by (nonlinear_arith)
        requires
            a == 2 * (s * width - p),
            2 * (s * (width * u) - p * u) <= u * fine,
            2 * (p * u - s * (width * u)) <= u * fine,
            u > 0,
    ;
    let b = 2 * (m * u - s * c);
    assert(width * b <= f * (c * near) && -(width * b) <= f * (c * near)) by (nonlinear_arith)
        requires
            b <= c * near,
            -b <= c * near,
            0 <= width <= f,
            c > 0,
            near >= 0,
    ;
    let h = 2 * (k * u - p);
    lemma_mul_is_associative(2, u as int, k as int);
    lemma_mul_is_commutative(u as int, k as int);
    assert(-u <= h <= u);
    let x = 2 * u * (k * c - width * m);
    let t = (k * c) * u;
    let v = (width * m) * u;
    let z = (s * width) * c;
    assert(c * h == 2 * t - 2 * (p * c)) by (nonlinear_arith)
        requires
            h == 2 * (k * u - p),
            t == (k * c) * u,
    ;
    assert(c * a == 2 * z - 2 * (p * c)) by (nonlinear_arith)
        requires
            a == 2 * (s * width - p),
            z == (s * width) * c,
    ;
    assert(width * b == 2 * v - 2 * z) by (nonlinear_arith)
        requires
            b == 2 * (m * u - s * c),
            v == (width * m) * u,
            z == (s * width) * c,
    ;
    assert(x == 2 * t - 2 * v) by (nonlinear_arith)
        requires
            x == 2 * u * (k * c - width * m),
            t == (k * c) * u,
            v == (width * m) * u,
    ;
    let bound = c * (u + f * g + f * (2 * g));
    assert(x <= bound && -x <= bound) by (nonlinear_arith)
        requires
            x == c * h - c * a - width * b,
            -u <= h <= u,
            -fine <= a <= fine,
            fine <= f * g,
            width * b <= f * (c * near),
            -(width * b) <= f * (c * near),
            near <= 2 * g,
            bound == c * (u + f * g + f * (2 * g)),
            c > 0,
            f >= 0,
    ;
    let y = k * c - width * m;
    assert(y * (2 * big) * g <= (c * (big + 4 * f)) * g && -y * (2 * big) * g <= (c * (big + 4
        * f)) * g) by (nonlinear_arith)
        requires
            x == 2 * u * y,
            u == big * g,
            x <= bound,
            -x <= bound,
            bound == c * (u + f * g + f * (2 * g)),
            c > 0,
            f >= 0,
            g > 0,
    ;
    assert(y * (2 * big) <= c * (big + 4 * f) && -y * (2 * big) <= c * (big + 4 * f))
        by (nonlinear_arith)
        requires
            y * (2 * big) * g <= (c * (big + 4 * f)) * g,
            -y * (2 * big) * g <= (c * (big + 4 * f)) * g,
            g > 0,
    ;
}

/// What is shown of a number of bytes: hundredths of a gigabyte.
pub open spec fn hundredths(bytes: nat) -> nat {
    nearest(gigabytes(bytes)->Fin_mag * 100, one())
}

/// The text shows the hundredths.
pub proof fn law_gb_shows_hundredths(bytes: nat)
    requires
        bytes <= u64::MAX,
    ensures
        gb_text(bytes) == dec(hundredths(bytes) / 100) + seq!['.'] + zero_filled(
            dec(hundredths(bytes) % 100),
            2,
        ) + " GB"@,
{
    lemma_gigabytes(bytes);
    lemma_pow_adds(10, 1, 1);
    lemma_pow1(10);
}

/// Gigabytes: the bytes, as `binary64` has them, by `2^30` exactly.
pub proof fn lemma_gigabytes(bytes: nat)
    requires
        bytes <= u64::MAX,
    ensures
        gigabytes(bytes) matches Num::Fin { neg, mag } && !neg && mag * pow2(30) == rounded(
            bytes * one(),
            1,
            53,
            0,
        ),
{
    let u = one();
    let x = bytes * u;
    let b = rounded(x, 1, 53, 0);
    lemma_integer_fits(bytes);
    lemma_pow2_pos(1074);
    lemma2_to64();
    lemma2_to64_rest();
    let (m, s) = lemma_on_grid(x, 1, 53, 0);
    lemma_div_basics(x as int);
    let value: nat = if s >= 30 {
        m * pow2((s - 30) as nat)
    } else {
        0
    };
    if bytes == 0 {
        lemma_mul_basics(u as int);
        lemma_mul_basics(pow2(30) as int);
        assert(value * pow2(30) == b) by {
            if s >= 30 {
                lemma_pow2_adds((s - 30) as nat, 30);
                lemma_mul_is_associative(m as int, pow2((s - 30) as nat) as int, pow2(30) as int);
            }
        }
    } else {
        lemma_quantum_range(x, 53, 0);
        assert(x >= u) by (nonlinear_arith)
            requires
                x == bytes * u,
                bytes >= 1,
        ;
        if s < 30 {
            lemma_pow2_le(53 + quantum(x, 53, 0), 1074);
        }
        lemma_pow2_adds((s - 30) as nat, 30);
        lemma_mul_is_associative(m as int, pow2((s - 30) as nat) as int, pow2(30) as int);
    }
    assert(value * pow2(30) == b);
    let c = GB as nat * u;
    assert(c > 0) by (nonlinear_arith)
        requires
            c == GB as nat * u,
            u > 0,
            GB > 0,
    ;
    assert((b * u) * 1 == value * c) by (nonlinear_arith)
        requires
            b == value * pow2(30),
            pow2(30) == GB,
            c == GB as nat * u,
    ;
    lemma_rounded_same(b * u, c, value, 1, 53, 0);
    if s >= 30 {
        lemma_rounded_exact(m, (s - 30) as nat, 53, 0);
    } else {
        lemma_mul_basics(1);
        lemma_mul_basics(pow2(0) as int);
        lemma_rounded_exact(0, 0, 53, 0);
    }
    lemma_pow2_adds(64, 1074);
    lemma_pow2_strictly_increases(64 + 1074, 2098);
    assert(value <= b) by (nonlinear_arith)
        requires
            b == value * pow2(30),
            pow2(30) >= 1,
    ;
}

/// More bytes never show as fewer gigabytes.
pub proof fn law_gb_is_monotone(a: nat, b: nat)
    requires
        a <= b <= u64::MAX,
    ensures
        hundredths(a) <= hundredths(b),
{
    let u = one();
    lemma_pow2_pos(1074);
    lemma_pow2_pos(30);
    lemma_gigabytes(a);
    lemma_gigabytes(b);
    lemma_mul_inequality(a as int, b as int, u as int);
    lemma_mul_basics((a * u) as int);
    lemma_mul_basics((b * u) as int);
    law_rounding_is_monotone(a * u, 1, b * u, 1, 53, 0);
    let x = gigabytes(a)->Fin_mag;
    let y = gigabytes(b)->Fin_mag;
    assert(x <= y) by (nonlinear_arith)
        requires
            x * pow2(30) <= y * pow2(30),
            pow2(30) > 0,
    ;
    lemma_mul_inequality((x * 100) as int, (y * 100) as int, u as int);
    lemma_nearest_monotone(x * 100, u, y * 100, u);
}

/// What is shown is at most half a hundredth of a gigabyte away from the bytes; of `2^53` bytes
/// and more, the rounding to 53 bits adds at most 1024 bytes.
pub proof fn law_gb_is_close(bytes: nat)
    requires
        bytes <= u64::MAX,
    ensures
        ({
            let h = hundredths(bytes);
            let slack: int = if bytes < pow2(53) {
                0
            } else {
                1024
            };
            &&& 2 * (h * GB - 100 * bytes) <= GB + 200 * slack
            &&& 2 * (100 * bytes - h * GB) <= GB + 200 * slack
        }),
{
    let u = one();
    let g = gigabytes(bytes)->Fin_mag;
    let h = hundredths(bytes);
    let x = bytes * u;
    let b = rounded(x, 1, 53, 0);
    lemma_pow2_pos(1074);
    lemma2_to64();
    lemma2_to64_rest();
    lemma_gigabytes(bytes);
    lemma_integer_fits(bytes);
    lemma_nearest_error(g * 100, u);
    law_rounding_error(x, 1, 53, 0);
    lemma_div_basics(x as int);
    lemma_mul_basics(b as int);
    let step = pow2(quantum(x, 53, 0));
    lemma_mul_basics(step as int);
    let slack: int = if bytes < pow2(53) {
        0
    } else {
        1024
    };
    assert(2 * (b - x) <= 2 * slack * u && 2 * (x - b) <= 2 * slack * u) by {
        if bytes >= pow2(53) {
            lemma_pow2_adds(64, 1074);
            assert(x < pow2(64) * u) by (nonlinear_arith)
                requires
                    x == bytes * u,
                    bytes + 1 <= pow2(64),
                    u > 0,
            ;
            lemma_quantum_le(x, 53, 0, 1085);
            lemma_pow2_le(quantum(x, 53, 0), 1085);
            lemma_pow2_adds(11, 1074);
            assert(2 * slack * u == pow2(11) * u) by (nonlinear_arith)
                requires
                    2 * slack == pow2(11),
            ;
        } else {
            lemma_mul_basics(u as int);
        }
    }
    let y = h * GB - 100 * bytes;
    let gb = pow2(30);
    assert(2 * (100 * b - (h * gb) * u) <= gb * u && 2 * ((h * gb) * u - 100 * b) <= gb * u)
        by (nonlinear_arith)
        requires
            2 * (g * 100 - h * u) <= u,
            2 * (h * u - g * 100) <= u,
            b == g * gb,
            gb > 0,
    ;
    assert(y * u == (h * gb) * u - 100 * x) by (nonlinear_arith)
        requires
            y == h * GB - 100 * bytes,
            gb == GB,
            x == bytes * u,
    ;
    assert(2 * y <= gb + 200 * slack && -(2 * y) <= gb + 200 * slack) by (nonlinear_arith)
        requires
            y * u == (h * gb) * u - 100 * x,
            2 * (100 * b - (h * gb) * u) <= gb * u,
            2 * ((h * gb) * u - 100 * b) <= gb * u,
            2 * (b - x) <= 2 * slack * u,
            2 * (x - b) <= 2 * slack * u,
            u > 0,
    ;
}

/// `s` is a bar: cells in brackets, the filled ones, `filled` of them, before the empty ones.
pub open spec fn draws(s: Seq<char>, filled: nat, width: nat) -> bool {
    &&& filled <= width
    &&& s.len() == width + 2
    &&& s[0] == '['
    &&& s.last() == ']'
    &&& forall|i: int| 1 <= i <= filled ==> #[trigger] s[i] == '█'
    &&& forall|i: int| filled < i <= width ==> #[trigger] s[i] == '░'
}

/// A bar draws the cells that are filled.
pub proof fn law_bar_is_drawn(value: Num, max: Num, width: nat)
    requires
        width < pow2(53),
    ensures
        draws(bar_text(value, max, width), filled_cells(value, max, width), width),
{
    lemma_filled_cells(value, max, width);
}

/// A bar is empty where there is no scale, or nothing to show; it is full from the end of the scale
/// on.
pub proof fn law_bar_extremes(value: Num, max: Num, width: nat)
    requires
        width < pow2(53),
    ensures
        !above(max, whole(0)) ==> filled_cells(value, max, width) == 0,
        !above(value, whole(0)) ==> filled_cells(value, max, width) == 0,
        max is Fin && above(max, whole(0)) && value is Fin && !above(max, value) ==> filled_cells(
            value,
            max,
            width,
        ) == width,
        max is Fin && above(max, whole(0)) && value == (Num::Inf { neg: false }) ==> filled_cells(
            value,
            max,
            width,
        ) == width,
{
    let u = one();
    lemma_pow2_pos(1074);
    lemma_mul_basics(u as int);
    lemma_mul_basics((width * u) as int);
    lemma_pow2_strictly_increases(1074, 2098);
    lemma_rounded_le(0, u, 0, 1074, 53, 0);
    lemma_fundamental_div_mod_converse(u as int, (2 * u) as int, 0, u as int);
    if !above(max, whole(0)) {
        lemma_cells_of_share(value, max, width);
    } else if !above(value, whole(0)) {
        if max is Fin && value is Fin {
            lemma_share_magnitude(value, max);
            lemma_cells_of_share(value, max, width);
            let c = max->Fin_mag;
            lemma_mul_basics(c as int);
            lemma_rounded_le(0, c, 0, 1074, 53, 0);
        } else if share(value, max) is Fin {
            lemma_cells_of_share(value, max, width);
            lemma_rounded_le(0, 1, 0, 1074, 53, 0);
            assert(share(value, max)->Fin_mag == 0);
        }
    }
    if max is Fin && above(max, whole(0)) && value is Fin && !above(max, value) {
        let c = max->Fin_mag;
        let m = value->Fin_mag;
        lemma_share_magnitude(value, max);
        lemma_cells_of_share(value, max, width);
        // the share is one
        assert((u * 1) * c == u * c) by (nonlinear_arith);
        lemma_mul_inequality(c as int, m as int, u as int);
        lemma_mul_is_commutative(c as int, u as int);
        lemma_mul_basics((m * u) as int);
        law_rounding_is_monotone(u, 1, m * u, c, 53, 0);
        reveal_pow2_zero();
        lemma_pow2_le(1, 53);
        lemma_rounded_exact(1, 1074, 53, 0);
        assert(share(value, max)->Fin_mag == u);
        lemma_all_cells(value, max, width);
    }
    if max is Fin && above(max, whole(0)) && value == (Num::Inf { neg: false }) {
        lemma_all_cells(value, max, width);
    }
}

/// A share of one fills all cells.
proof fn lemma_all_cells(value: Num, max: Num, width: nat)
    requires
        width < pow2(53),
        share(value, max) is Fin,
        share(value, max)->Fin_mag == one(),
    ensures
        filled_cells(value, max, width) == width,
{
    let u = one();
    let w = width * u;
    lemma_pow2_pos(1074);
    lemma_cells_of_share(value, max, width);
    assert((u * w) * 1 == w * u) by (nonlinear_arith);
    lemma_rounded_same(u * w, u, w, 1, 53, 0);
    lemma_rounded_exact(width, 1074, 53, 0);
    assert(2 * w + u == width * (2 * u) + u) by (nonlinear_arith)
        requires
            w == width * u,
    ;
    lemma_fundamental_div_mod_converse(
        (2 * w + u) as int,
        (2 * u) as int,
        width as int,
        u as int,
    );
}

/// A frequency is read back: whole megahertz exactly, gigahertz to half a hundredth.
pub proof fn law_freq_is_read(mhz: nat)
    requires
        mhz <= u32::MAX,
    ensures
        mhz == 0 ==> trimmed(freq_text(mhz)) == seq!['N', '/', 'A'],
        0 < mhz < 1000 ==> tells(freq_text(mhz), Seq::empty(), mhz as int, " MHz  "@),
        mhz >= 1000 ==> {
            let t = trimmed(field(freq_text(mhz), Seq::empty(), " GHz"@));
            &&& fits(freq_text(mhz), Seq::empty(), " GHz"@)
            &&& exists|v: Num| #[trigger] reads(t, v, 2)
            &&& -5 <= 10 * without_point(t, 2) - mhz <= 5
        },
        tells(log_freq_text(mhz), Seq::empty(), mhz as int, " MHz"@),
{
    let none = Seq::<char>::empty();
    law_count_is_read(mhz, 5);
    lemma_field(none, right_aligned(dec(mhz), 5), " MHz"@);
    assert(none + right_aligned(dec(mhz), 5) + " MHz"@ =~= log_freq_text(mhz));
    if mhz == 0 {
        reveal_strlit("    N/A  ");
        law_trimmed(4, seq!['N', '/', 'A'], 2);
        assert("    N/A  "@ =~= repeated(' ', 4) + seq!['N', '/', 'A'] + repeated(' ', 2));
    } else if mhz < 1000 {
        law_count_is_read(mhz, 4);
        lemma_field(none, right_aligned(dec(mhz), 4), " MHz  "@);
        assert(none + right_aligned(dec(mhz), 4) + " MHz  "@ =~= freq_text(mhz));
    } else {
        let v = fit(Width::Double, quotient(whole(mhz), whole(1000)));
        let s = right_aligned(fixed(v, 2), 6);
        lemma_field(none, s, " GHz"@);
        assert(none + s + " GHz"@ =~= freq_text(mhz));
        law_value_is_read(v, 2, 6);
        lemma_gigahertz(mhz);
        let t = trimmed(s);
        law_value_is_trimmed(v, 2, 6);
        assert(reads(t, v, 2));
        let h = without_point(t, 2);
        let u = one();
        lemma_pow_adds(10, 1, 1);
        lemma_pow1(10);
        lemma_pow2_pos(1074);
        let m = v->Fin_mag;
        assert(10 * h - mhz <= 5 && mhz - 10 * h <= 5) by (nonlinear_arith)
            requires
                2 * (h * u - m * 100) <= u,
                2 * (m * 100 - h * u) <= u,
                1000 * m - mhz * u < u,
                mhz * u - 1000 * m < u,
                u > 0,
        ;
    }
}

/// Gigahertz are close to the megahertz they stand for.
proof fn lemma_gigahertz(mhz: nat)
    requires
        mhz <= u32::MAX,
    ensures
        fit(Width::Double, quotient(whole(mhz), whole(1000))) matches Num::Fin { neg, mag } && !neg
            && 1000 * mag - mhz * one() < one() && mhz * one() - 1000 * mag < one(),
{
    let u = one();
    let n = mhz * u;
    let d = 1000 * u;
    lemma_pow2_pos(1074);
    lemma2_to64();
    lemma_pow2_adds(32, 1074);
    lemma_pow2_strictly_increases(32 + 1074, 2098);
    lemma_pow2_le(32 + 1074, 53 + 1053);
    assert(n < pow2(32) * u) by (nonlinear_arith)
        requires
            n == mhz * u,
            mhz < pow2(32),
            u > 0,
    ;
    reveal_pow2_zero();
    lemma_pow2_le(1, 53);
    let top = pow2(32 + 1074);
    lemma_mul_basics(top as int);
    assert(n * u <= top * d) by (nonlinear_arith)
        requires
            n <= top,
            u <= d,
    ;
    lemma_rounded_le(n * u, d, 1, 32 + 1074, 53, 0);
    law_rounding_error(n * u, d, 53, 0);
    let r = rounded(n * u, d, 53, 0);
    let q = (n * u) / d;
    assert(n * u <= n * d) by (nonlinear_arith)
        requires
            u <= d,
    ;
    lemma_div_is_ordered((n * u) as int, (n * d) as int, d as int);
    lemma_div_by_multiple(n as int, d as int);
    lemma_quantum_le(q, 53, 0, 1053);
    let step = pow2(quantum(q, 53, 0));
    lemma_pow2_le(quantum(q, 53, 0), 1053);
    lemma_pow2_adds(21, 1053);
    lemma_pow2_pos(1053);
    assert(1000 * r - n < u && n - 1000 * r < u) by (nonlinear_arith)
        requires
            2 * (n * u - r * d) <= d * step,
            2 * (r * d - n * u) <= d * step,
            d == 1000 * u,
            step <= pow2(1053),
            u == 2_097_152 * pow2(1053),
            pow2(1053) > 0,
    {
        let x = n - 1000 * r;
        assert(n * u - r * d == x * u);
        assert(2 * x * u <= 1000 * step * u);
        assert(-2 * x * u <= 1000 * step * u);
        assert(2 * x <= 1000 * step);
        assert(-2 * x <= 1000 * step);
    }
}

/// A power is read back; in the sample log, nothing is said of a power of zero.
pub proof fn law_watts_are_read(w: Num)
    ensures
        shows(log_watts_text(w), Seq::empty(), w, 2, " W"@),
        is_zero(w) ==> trimmed(watts_text(w)) == seq!['N', '/', 'A'],
        !is_zero(w) ==> shows(watts_text(w), Seq::empty(), w, 2, " W"@),
{
    let none = Seq::<char>::empty();
    let s = right_aligned(fixed(w, 2), 6);
    law_value_is_read(w, 2, 6);
    lemma_field(none, s, " W"@);
    assert(none + s + " W"@ =~= log_watts_text(w));
    reveal_strlit("   N/A");
    law_trimmed(3, seq!['N', '/', 'A'], 0);
    assert("   N/A"@ =~= repeated(' ', 3) + seq!['N', '/', 'A'] + repeated(' ', 0));
}

/// A temperature is read back; nothing is said of a temperature of zero.
pub proof fn law_temperature_is_read(t: Num)
    ensures
        is_zero(t) ==> trimmed(temp_text(t)) == seq!['N', '/', 'A'],
        !is_zero(t) ==> shows(temp_text(t), Seq::empty(), t, 1, "°C"@),
{
    let none = Seq::<char>::empty();
    let s = right_aligned(fixed(t, 1), 5);
    law_value_is_read(t, 1, 5);
    lemma_field(none, s, "°C"@);
    assert(!is_zero(t) ==> none + s + "°C"@ =~= temp_text(t));
    reveal_strlit("  N/A");
    law_trimmed(2, seq!['N', '/', 'A'], 0);
    assert("  N/A"@ =~= repeated(' ', 2) + seq!['N', '/', 'A'] + repeated(' ', 0));
}

/// A number of bytes is read back: under `2^53` bytes, the text is the number with two decimals
/// that is nearest to the bytes by `2^30`.
pub proof fn law_gb_is_read(bytes: nat)
    requires
        bytes <= u64::MAX,
    ensures
        shows(gb_text(bytes), Seq::empty(), gigabytes(bytes), 2, " GB"@),
        bytes < pow2(53) ==> (gigabytes(bytes) matches Num::Fin { neg, mag } && !neg && mag * GB
            == bytes * one()),
{
    let none = Seq::<char>::empty();
    let s = fixed(gigabytes(bytes), 2);
    law_value_is_read(gigabytes(bytes), 2, 0);
    lemma_field(none, s, " GB"@);
    assert(none + s + " GB"@ =~= gb_text(bytes));
    lemma_gigabytes(bytes);
    lemma_integer_fits(bytes);
    lemma2_to64();
}

/// The share of `max` that `value` makes up.
fn share_of(value: Double, max: Double) -> (r: Double)
    ensures
        r.num() == share(value.num(), max.num()),
{
    let none: Double = Double::from_u64(0);
    let all: Double = Double::from_u64(1);
    if max.exceeds(none) {
        let x: Double = value.over(max);
        if none.exceeds(x) {
            none
        } else if x.exceeds(all) {
            all
        } else {
            x
        }
    } else {
        none
    }
}

/// A bar in brackets: `value` of `max`, drawn with `width` cells.
pub fn bar(value: Double, max: Double, width: usize) -> (r: String)
    requires
        width < 0x20_0000_0000_0000,
    ensures
        r@ == bar_text(value.num(), max.num(), width as nat),
        r@.len() == width + 2,
{
    let cells: Double = share_of(value, max).times(Double::from_u64(width as u64));
    let filled: usize = cells.round() as usize;
    proof {
        lemma2_to64_rest();
        lemma_filled_cells(value.num(), max.num(), width as nat);
    }
    let mut r = String::new();
    r.push('[');
    r.append(repeat('█', filled).as_str());
    r.append(repeat('░', width - filled).as_str());
    r.push(']');
    assert(r@ =~= bar_text(value.num(), max.num(), width as nat));
    r
}

/// A frequency as the sample log shows it.
pub fn fmt_freq(mhz: u32) -> (r: String)
    ensures
        r@ == freq_text(mhz as nat),
{
    if mhz == 0 {
        return "    N/A  ".to_owned();
    }
    if mhz >= 1000 {
        let ghz: Double = Double::from_u64(mhz as u64).over(Double::from_u64(1000));
        let mut r: String = align_right(ghz.fixed(2).as_str(), 6);
        r.append(" GHz");
        r
    } else {
        let mut r: String = align_right(decimal(mhz as u64).as_str(), 4);
        r.append(" MHz  ");
        r
    }
}

/// A frequency as the session log shows it.
pub fn log_fmt_freq(mhz: u32) -> (r: String)
    ensures
        r@ == log_freq_text(mhz as nat),
{
    let mut r: String = align_right(decimal(mhz as u64).as_str(), 5);
    r.append(" MHz");
    r
}

/// A power as the session log shows it.
pub fn log_fmt_watts(w: Single) -> (r: String)
    ensures
        r@ == log_watts_text(w.num()),
{
    let mut r: String = align_right(w.fixed(2).as_str(), 6);
    r.append(" W");
    r
}

/// A power as the sample log shows it.
pub fn fmt_watts(w: Single) -> (r: String)
    ensures
        r@ == watts_text(w.num()),
{
    if w.is_zero() {
        "   N/A".to_owned()
    } else {
        log_fmt_watts(w)
    }
}

/// A temperature.
pub fn fmt_temp(t: Single) -> (r: String)
    ensures
        r@ == temp_text(t.num()),
{
    if t.is_zero() {
        "  N/A".to_owned()
    } else {
        let mut r: String = align_right(t.fixed(1).as_str(), 5);
        r.append("°C");
        r
    }
}

/// A number of bytes, in gigabytes.
pub fn in_gigabytes(bytes: u64) -> (r: Double)
    ensures
        r.num() == gigabytes(bytes as nat),
{
    Double::from_u64(bytes).over(Double::from_u64(GB))
}

/// A number of bytes, written in gigabytes.
pub fn fmt_gb(bytes: u64) -> (r: String)
    ensures
        r@ == gb_text(bytes as nat),
{
    let mut r: String = in_gigabytes(bytes).fixed(2);
    r.append(" GB");
    r
}

} // verus!
