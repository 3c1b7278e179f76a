//! How texts are read: numbers, fields between labels, pieces between separators.
//!
//! What the other modules write is stated here from the side of the reader. A reader knows digits,
//! spaces and labels, and nothing of how a text was made.

use crate::decimal::{
    dec, fixed, fixed_magnitude, law_decimal_reads_back, law_filled_decimal_reads_back,
    lemma_dec_digits, number, signed_dec, ten_to,
};
use crate::ieee::{one, Num};
use crate::rounding::{lemma_nearest_error, nearest};
use crate::text::{joined, left_aligned, repeated, right_aligned, zero_filled};
use vstd::arithmetic::div_mod::*;
use vstd::arithmetic::mul::*;
use vstd::arithmetic::power::*;
use vstd::arithmetic::power2::*;
use vstd::prelude::*;

verus! {

/// Decimal digits, at least one.
pub open spec fn is_digits(s: Seq<char>) -> bool {
    &&& s.len() > 0
    &&& forall|i: int| 0 <= i < s.len() ==> '0' <= #[trigger] s[i] <= '9'
}

/// Decimal digits without a zero in front, but for zero itself.
pub open spec fn is_plain(s: Seq<char>) -> bool {
    &&& is_digits(s)
    &&& s[0] == '0' ==> s.len() == 1
}

/// A text without the spaces in front.
pub open spec fn without_lead(s: Seq<char>) -> Seq<char>
    decreases s.len(),
{
    if s.len() > 0 && s[0] == ' ' {
        without_lead(s.drop_first())
    } else {
        s
    }
}

/// A text without the spaces behind.
pub open spec fn without_trail(s: Seq<char>) -> Seq<char>
    decreases s.len(),
{
    if s.len() > 0 && s.last() == ' ' {
        without_trail(s.drop_last())
    } else {
        s
    }
}

/// A text without the spaces round it.
pub open spec fn trimmed(s: Seq<char>) -> Seq<char> {
    without_trail(without_lead(s))
}

/// The text stands at the right end of `w` columns, or takes more than these.
pub open spec fn is_right(t: Seq<char>, w: nat) -> bool {
    &&& t.len() > 0
    &&& t.len() >= w
    &&& t.last() != ' '
    &&& t.len() > w ==> t[0] != ' '
}

/// The text stands at the left end of `w` columns, or takes more than these.
pub open spec fn is_left(t: Seq<char>, w: nat) -> bool {
    &&& t.len() > 0
    &&& t.len() >= w
    &&& t[0] != ' '
    &&& t.len() > w ==> t.last() != ' '
}

/// The text is the number `n`, with spaces round it or not.
pub open spec fn counts(t: Seq<char>, n: int) -> bool {
    &&& is_digits(trimmed(t))
    &&& number(trimmed(t)) == n
}

/// `h` is the integer nearest to `mag * scale` units; of two, the even one.
pub open spec fn is_nearest(h: int, mag: nat, scale: nat) -> bool {
    let off = h * one() - mag * scale;
    &&& -one() <= 2 * off <= one()
    &&& (2 * off == one() || 2 * off == -one()) ==> h % 2 == 0
}

/// The digits, without the point before the last `k` of them, as one number.
pub open spec fn without_point(s: Seq<char>, k: nat) -> int {
    number(s.take(s.len() - k - 1)) * ten_to(k) + number(s.skip(s.len() - k))
}

/// The text is the decimal number with `k` decimals that is nearest to a magnitude.
pub open spec fn reads_magnitude(s: Seq<char>, mag: nat, k: nat) -> bool {
    if k == 0 {
        &&& is_plain(s)
        &&& is_nearest(number(s), mag, 1)
    } else {
        &&& s.len() >= k + 2
        &&& is_plain(s.take(s.len() - k - 1))
        &&& s[s.len() - k - 1] == '.'
        &&& is_digits(s.skip(s.len() - k))
        &&& is_nearest(without_point(s, k), mag, ten_to(k))
    }
}

/// The text, with spaces round it or not, is the value `a` with `k` decimals.
pub open spec fn reads(t: Seq<char>, a: Num, k: nat) -> bool {
    let s = trimmed(t);
    match a {
        Num::Nan => s == seq!['N', 'a', 'N'],
        Num::Inf { neg } => s == if neg {
            seq!['-', 'i', 'n', 'f']
        } else {
            seq!['i', 'n', 'f']
        },
        Num::Fin { neg, mag } => if neg {
            s.len() > 0 && s[0] == '-' && reads_magnitude(s.skip(1), mag, k)
        } else {
            reads_magnitude(s, mag, k)
        },
    }
}

/// The line begins with `label` and ends with `unit`.
pub open spec fn fits(line: Seq<char>, label: Seq<char>, unit: Seq<char>) -> bool {
    &&& label.len() + unit.len() <= line.len()
    &&& line.take(label.len() as int) == label
    &&& line.skip(line.len() - unit.len()) == unit
}

/// What stands between `label` and `unit`.
pub open spec fn field(line: Seq<char>, label: Seq<char>, unit: Seq<char>) -> Seq<char> {
    line.subrange(label.len() as int, line.len() - unit.len())
}

/// The line is `label`, a count, and `unit`.
pub open spec fn tells(line: Seq<char>, label: Seq<char>, n: int, unit: Seq<char>) -> bool {
    fits(line, label, unit) && counts(field(line, label, unit), n)
}

/// The line is `label`, a value with `k` decimals, and `unit`.
pub open spec fn shows(
    line: Seq<char>,
    label: Seq<char>,
    a: Num,
    k: nat,
    unit: Seq<char>,
) -> bool {
    fits(line, label, unit) && reads(field(line, label, unit), a, k)
}

/// The line is `label` and, behind it, `text` as it is.
pub open spec fn quotes(line: Seq<char>, label: Seq<char>, text: Seq<char>) -> bool {
    &&& line.len() == label.len() + text.len()
    &&& line.take(label.len() as int) == label
    &&& line.skip(label.len() as int) == text
}

/// The pieces between separators.
pub open spec fn split(s: Seq<char>, sep: char) -> Seq<Seq<char>>
    decreases s.len(),
{
    if s.len() == 0 {
        seq![Seq::<char>::empty()]
    } else {
        let rest = split(s.drop_last(), sep);
        if s.last() == sep {
            rest.push(Seq::<char>::empty())
        } else {
            rest.drop_last().push(rest.last().push(s.last()))
        }
    }
}

/// Spaces are taken off in front.
proof fn lemma_without_lead(k: nat, s: Seq<char>)
    requires
        s.len() > 0,
        s[0] != ' ',
    ensures
        without_lead(repeated(' ', k) + s) == s,
    decreases k,
{
    let t = repeated(' ', k) + s;
    if k > 0 {
        lemma_without_lead((k - 1) as nat, s);
        assert(t.drop_first() =~= repeated(' ', (k - 1) as nat) + s);
    } else {
        assert(t =~= s);
    }
}

/// Spaces are taken off behind.
proof fn lemma_without_trail(s: Seq<char>, k: nat)
    requires
        s.len() > 0,
        s.last() != ' ',
    ensures
        without_trail(s + repeated(' ', k)) == s,
    decreases k,
{
    let t = s + repeated(' ', k);
    if k > 0 {
        lemma_without_trail(s, (k - 1) as nat);
        assert(t.drop_last() =~= s + repeated(' ', (k - 1) as nat));
    } else {
        assert(t =~= s);
    }
}

/// Spaces round a text that has none at its ends are taken off.
pub proof fn law_trimmed(i: nat, s: Seq<char>, j: nat)
    requires
        s.len() > 0,
        s[0] != ' ',
        s.last() != ' ',
    ensures
        trimmed(repeated(' ', i) + s + repeated(' ', j)) == s,
{
    let t = s + repeated(' ', j);
    assert(repeated(' ', i) + s + repeated(' ', j) =~= repeated(' ', i) + t);
    lemma_without_lead(i, t);
    lemma_without_trail(s, j);
}

/// An aligned text is the text with spaces on one side.
pub proof fn law_aligned_is_trimmed(s: Seq<char>, w: nat)
    requires
        s.len() > 0,
        s[0] != ' ',
        s.last() != ' ',
    ensures
        trimmed(s) == s,
        trimmed(right_aligned(s, w)) == s,
        trimmed(left_aligned(s, w)) == s,
        is_right(s, 0),
        is_right(right_aligned(s, w), w),
        is_left(left_aligned(s, w), w),
        right_aligned(s, w).len() == left_aligned(s, w).len() == if s.len() < w {
            w
        } else {
            s.len()
        },
{
    law_trimmed(0, s, 0);
    assert(repeated(' ', 0) + s + repeated(' ', 0) =~= s);
    if s.len() < w {
        let k = (w - s.len()) as nat;
        law_trimmed(k, s, 0);
        law_trimmed(0, s, k);
        assert(repeated(' ', k) + s + repeated(' ', 0) =~= right_aligned(s, w));
        assert(repeated(' ', 0) + s + repeated(' ', k) =~= left_aligned(s, w));
    }
}

/// A decimal number is read back, aligned or not.
pub proof fn law_count_is_read(n: nat, w: nat)
    ensures
        is_plain(dec(n)),
        is_right(dec(n), 0),
        is_right(right_aligned(dec(n), w), w),
        is_left(left_aligned(dec(n), w), w),
        counts(dec(n), n as int),
        counts(right_aligned(dec(n), w), n as int),
        counts(left_aligned(dec(n), w), n as int),
        counts(zero_filled(dec(n), w), n as int),
{
    lemma_dec_digits(n);
    law_decimal_reads_back(n);
    law_filled_decimal_reads_back(n, w);
    law_aligned_is_trimmed(dec(n), w);
    law_aligned_is_trimmed(zero_filled(dec(n), w), 0);
}

/// An integer is read back: its digits, behind a sign where it is negative.
pub proof fn law_integer_is_read(n: int)
    ensures
        n >= 0 ==> is_plain(signed_dec(n)) && counts(signed_dec(n), n),
        n < 0 ==> {
            &&& signed_dec(n)[0] == '-'
            &&& is_plain(signed_dec(n).skip(1))
            &&& counts(signed_dec(n).skip(1), -n)
        },
{
    if n < 0 {
        law_count_is_read((-n) as nat, 0);
        assert(signed_dec(n).skip(1) =~= dec((-n) as nat));
    } else {
        law_count_is_read(n as nat, 0);
    }
}

/// A number under `10^k` has at most `k` digits.
proof fn lemma_dec_len(n: nat, k: nat)
    requires
        k >= 1,
        n < ten_to(k),
    ensures
        dec(n).len() <= k,
    decreases k,
{
    lemma_pow1(10);
    if k > 1 && n >= 10 {
        lemma_pow_adds(10, 1, (k - 1) as nat);
        lemma_pow_positive(10, (k - 1) as nat);
        lemma_dec_len(n / 10, (k - 1) as nat);
    }
}

/// Halves go to the even side.
proof fn lemma_nearest_tie(n: nat, d: nat)
    requires
        d > 0,
    ensures
        2 * (nearest(n, d) * d - n) == d ==> nearest(n, d) % 2 == 0,
        2 * (n - nearest(n, d) * d) == d ==> nearest(n, d) % 2 == 0,
{
    let q = n / d;
    let r = n % d;
    let k = nearest(n, d);
    lemma_fundamental_div_mod(n as int, d as int);
    lemma_mod_bound(n as int, d as int);
    if k == q {
        assert(k * d == n - r) by (nonlinear_arith)
            requires
                k == q,
                n == d * q + r,
        ;
    } else {
        assert(k * d == n - r + d) by (nonlinear_arith)
            requires
                k == q + 1,
                n == d * q + r,
        ;
    }
}

proof fn lemma_magnitude_is_read(mag: nat, k: nat)
    ensures
        reads_magnitude(fixed_magnitude(mag, k), mag, k),
        fixed_magnitude(mag, k).len() > 0,
        '0' <= fixed_magnitude(mag, k)[0] <= '9',
        '0' <= fixed_magnitude(mag, k).last() <= '9',
{
    let t = ten_to(k);
    let u = one();
    lemma_pow2_pos(1074);
    lemma_pow_positive(10, k);
    let r = nearest(mag * t, u);
    lemma_nearest_error(mag * t, u);
    lemma_nearest_tie(mag * t, u);
    let s = fixed_magnitude(mag, k);
    if k == 0 {
        lemma_pow0(10);
        lemma_mul_basics(mag as int);
        lemma_dec_digits(r);
        law_decimal_reads_back(r);
    } else {
        let w = dec(r / t);
        let f = zero_filled(dec(r % t), k);
        lemma_mod_bound(r as int, t as int);
        lemma_dec_len(r % t, k);
        lemma_dec_digits(r / t);
        lemma_dec_digits(r % t);
        law_decimal_reads_back(r / t);
        law_filled_decimal_reads_back(r % t, k);
        assert(s =~= w + seq!['.'] + f);
        assert(s.take(s.len() - k - 1) =~= w);
        assert(s.skip(s.len() - k) =~= f);
        lemma_fundamental_div_mod(r as int, t as int);
        lemma_mul_is_commutative(t as int, (r / t) as int);
    }
}

/// A value with decimals is read back as the nearest number with as many, aligned or not.
pub proof fn law_value_is_read(a: Num, k: nat, w: nat)
    ensures
        reads(fixed(a, k), a, k),
        reads(right_aligned(fixed(a, k), w), a, k),
        is_right(fixed(a, k), 0),
        is_right(right_aligned(fixed(a, k), w), w),
{
    let s = fixed(a, k);
    if let Num::Fin { neg, mag } = a {
        lemma_magnitude_is_read(mag, k);
        if neg {
            assert(s.skip(1) =~= fixed_magnitude(mag, k));
            assert(s.last() == fixed_magnitude(mag, k).last());
        }
    }
    law_aligned_is_trimmed(s, w);
}

/// Reading does not mind being done twice over the spaces.
pub proof fn law_value_is_trimmed(a: Num, k: nat, w: nat)
    ensures
        trimmed(right_aligned(fixed(a, k), w)) == fixed(a, k),
        trimmed(fixed(a, k)) == fixed(a, k),
        a is Fin && !a->Fin_neg ==> reads_magnitude(fixed(a, k), a->Fin_mag, k),
{
    let s = fixed(a, k);
    if let Num::Fin { neg, mag } = a {
        lemma_magnitude_is_read(mag, k);
        if neg {
            assert(s.last() == fixed_magnitude(mag, k).last());
        }
    }
    law_aligned_is_trimmed(s, w);
}

/// A line that is made of a label, a text and a unit has the text as its field.
pub proof fn lemma_field(label: Seq<char>, t: Seq<char>, unit: Seq<char>)
    ensures
        fits(label + t + unit, label, unit),
        field(label + t + unit, label, unit) == t,
{
    let line = label + t + unit;
    assert(line.take(label.len() as int) =~= label);
    assert(line.skip(line.len() - unit.len()) =~= unit);
    assert(field(line, label, unit) =~= t);
}

/// A line that is made of a label and a text quotes the text.
pub proof fn lemma_quotes(label: Seq<char>, t: Seq<char>)
    ensures
        quotes(label + t, label, t),
{
    assert((label + t).take(label.len() as int) =~= label);
    assert((label + t).skip(label.len() as int) =~= t);
}

/// Text without a separator goes to the last piece.
pub proof fn lemma_split_text(s: Seq<char>, t: Seq<char>, sep: char)
    requires
        !t.contains(sep),
    ensures
        split(s, sep).len() > 0,
        split(s + t, sep) == split(s, sep).drop_last().push(split(s, sep).last() + t),
    decreases t.len(),
{
    lemma_split_some(s, sep);
    let p = split(s, sep);
    if t.len() == 0 {
        assert(s + t =~= s);
        assert(p.last() + t =~= p.last());
        assert(p.drop_last().push(p.last()) =~= p);
    } else {
        let u = t.drop_last();
        assert forall|i: int| 0 <= i < u.len() implies u[i] != sep by {
            assert(t.contains(t[i]));
        }
        assert(t.contains(t.last()));
        lemma_split_text(s, u, sep);
        assert((s + t).drop_last() =~= s + u);
        let q = split(s + u, sep);
        assert(q.drop_last() =~= p.drop_last());
        assert((p.last() + u).push(t.last()) =~= p.last() + t);
    }
}

proof fn lemma_split_some(s: Seq<char>, sep: char)
    ensures
        split(s, sep).len() > 0,
    decreases s.len(),
{
    if s.len() > 0 {
        lemma_split_some(s.drop_last(), sep);
    }
}

/// A separator begins a new piece.
pub proof fn lemma_split_separator(s: Seq<char>, sep: char)
    ensures
        split(s.push(sep), sep) == split(s, sep).push(Seq::<char>::empty()),
{
    assert(s.push(sep).drop_last() =~= s);
}

/// Pieces that hold no separator are read back from the text that joins them.
pub proof fn law_joined_is_read(pieces: Seq<Seq<char>>, sep: char)
    requires
        pieces.len() > 0,
        forall|i: int| 0 <= i < pieces.len() ==> !(#[trigger] pieces[i]).contains(sep),
    ensures
        split(joined(pieces, seq![sep]), sep) == pieces,
    decreases pieces.len(),
{
    let empty = Seq::<char>::empty();
    let last = pieces.last();
    assert(!pieces[pieces.len() - 1].contains(sep));
    if pieces.len() == 1 {
        lemma_split_text(empty, last, sep);
        assert(empty + last =~= last);
        assert(split(last, sep) =~= pieces);
    } else {
        let rest = pieces.drop_last();
        assert forall|i: int| 0 <= i < rest.len() implies !(#[trigger] rest[i]).contains(sep) by {
            assert(rest[i] == pieces[i]);
        }
        law_joined_is_read(rest, sep);
        let s = joined(rest, seq![sep]);
        lemma_split_separator(s, sep);
        assert(s + seq![sep] =~= s.push(sep));
        lemma_split_text(s.push(sep), last, sep);
        assert(empty + last =~= last);
        let q = split(s.push(sep), sep);
        assert(q.drop_last() =~= rest);
        assert(rest.push(last) =~= pieces);
    }
}

} // verus!
