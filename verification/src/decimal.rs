//! Numbers in decimal.

use crate::ieee::{one, Double, Num, Parts, Single};
use crate::rounding::{
    lemma_nearest_exact, lemma_nearest_scale, lemma_pow2_le, nearest, power_of_two,
};
use crate::text::{fill_zeros, repeated, zero_filled};
use vstd::arithmetic::div_mod::*;
use vstd::arithmetic::mul::*;
use vstd::arithmetic::power::*;
use vstd::arithmetic::power2::*;
use vstd::prelude::*;
use vstd::string::StringExecFns;

verus! {

/// The character of a decimal digit.
pub open spec fn digit(d: nat) -> char {
    (48 + d) as char
}

/// A natural number in decimal, without leading zeros.
pub open spec fn dec(n: nat) -> Seq<char>
    decreases n,
{
    if n < 10 {
        seq![digit(n)]
    } else {
        dec(n / 10).push(digit(n % 10))
    }
}

/// An integer in decimal.
pub open spec fn signed_dec(n: int) -> Seq<char> {
    if n < 0 {
        seq!['-'] + dec((-n) as nat)
    } else {
        dec(n as nat)
    }
}

/// `10^k`.
pub open spec fn ten_to(k: nat) -> nat {
    pow(10, k) as nat
}

/// A magnitude with `k` decimals: rounded to the nearest multiple of `10^-k`, ties to even.
pub open spec fn fixed_magnitude(mag: nat, k: nat) -> Seq<char> {
    let r = nearest(mag * ten_to(k), one());
    if k == 0 {
        dec(r)
    } else {
        dec(r / ten_to(k)) + seq!['.'] + zero_filled(dec(r % ten_to(k)), k)
    }
}

/// A floating-point value with `k` decimals.
pub open spec fn fixed(a: Num, k: nat) -> Seq<char> {
    match a {
        Num::Nan => seq!['N', 'a', 'N'],
        Num::Inf { neg } => if neg {
            seq!['-', 'i', 'n', 'f']
        } else {
            seq!['i', 'n', 'f']
        },
        Num::Fin { neg, mag } => if neg {
            seq!['-'] + fixed_magnitude(mag, k)
        } else {
            fixed_magnitude(mag, k)
        },
    }
}

fn digit_char(d: u8) -> (c: char)
    requires
        d < 10,
    ensures
        c == digit(d as nat),
{
    (48 + d) as char
}

/// A natural number in decimal.
pub fn decimal(n: u64) -> (r: String)
    ensures
        r@ == dec(n as nat),
    decreases n,
{
    if n < 10 {
        let mut r = String::new();
        r.push(digit_char(n as u8));
        assert(r@ =~= seq![digit(n as nat)]);
        r
    } else {
        let mut r = decimal(n / 10);
        r.push(digit_char((n % 10) as u8));
        r
    }
}

/// An integer in decimal.
pub fn signed_decimal(n: i64) -> (r: String)
    ensures
        r@ == signed_dec(n as int),
{
    if n < 0 {
        let mut r = String::new();
        r.push('-');
        let size: u64 = if n == i64::MIN {
            0x8000_0000_0000_0000
        } else {
            (-n) as u64
        };
        let digits: String = decimal(size);
        r.append(digits.as_str());
        assert(r@ =~= seq!['-'] + dec(size as nat));
        r
    } else {
        decimal(n as u64)
    }
}

/// The number whose decimal digits are `s`, the least significant one first.
spec fn digits_value(s: Seq<u8>) -> nat
    decreases s.len(),
{
    if s.len() == 0 {
        0
    } else {
        digits_value(s.drop_last()) + s.last() as nat * ten_to((s.len() - 1) as nat)
    }
}

spec fn all_digits(s: Seq<u8>) -> bool {
    forall|i: int| 0 <= i < s.len() ==> s[i] < 10
}

/// The digits as text, the most significant one first.
spec fn digits_text(s: Seq<u8>) -> Seq<char> {
    Seq::new(s.len(), |i: int| digit(s[s.len() - 1 - i] as nat))
}

proof fn lemma_ten_to(k: nat)
    ensures
        ten_to(0) == 1,
        ten_to(k) > 0,
        ten_to(k + 1) == 10 * ten_to(k),
{
    reveal(pow);
    lemma_pow_positive(10, k);
    lemma_pow_positive(10, k + 1);
}

/// The least significant digit is the number modulo ten, the others are the number over ten.
proof fn lemma_digits_low(s: Seq<u8>)
    requires
        s.len() >= 1,
    ensures
        digits_value(s) == s[0] as nat + 10 * digits_value(s.drop_first()),
    decreases s.len(),
{
    lemma_ten_to(0);
    if s.len() == 1 {
        assert(s.drop_last().len() == 0);
        assert(s.drop_first().len() == 0);
        assert(digits_value(s.drop_last()) == 0);
        assert(digits_value(s.drop_first()) == 0);
        lemma_mul_basics(s[0] as int);
    } else {
        lemma_digits_low(s.drop_last());
        let t = s.drop_first();
        assert(s.drop_last().drop_first() =~= t.drop_last());
        lemma_ten_to((s.len() - 2) as nat);
        let p = ten_to((s.len() - 2) as nat);
        let x = s.last() as nat;
        assert(x * (10 * p) == 10 * (x * p)) by (nonlinear_arith);
    }
}

/// Digits without a leading zero are the decimal text of their number.
proof fn lemma_digits_text(s: Seq<u8>)
    requires
        s.len() >= 1,
        all_digits(s),
        s.len() > 1 ==> s.last() > 0,
    ensures
        digits_text(s) == dec(digits_value(s)),
        s.len() > 1 ==> digits_value(s) >= 10,
        s.last() > 0 ==> digits_value(s) > 0,
    decreases s.len(),
{
    lemma_digits_low(s);
    let t = s.drop_first();
    if s.len() == 1 {
        assert(digits_value(t) == 0);
        assert(digits_text(s) =~= seq![digit(s[0] as nat)]);
    } else {
        lemma_digits_text(t);
        let v = digits_value(s);
        assert(v / 10 == digits_value(t) && v % 10 == s[0]);
        assert(digits_text(s) =~= digits_text(t).push(digit(s[0] as nat)));
    }
}

/// Doubles a number in place.
fn double_digits(v: &mut Vec<u8>)
    requires
        old(v).len() >= 1,
        all_digits(old(v)@),
        old(v).len() > 1 ==> old(v)@.last() > 0,
        old(v).len() < 1000,
    ensures
        final(v).len() >= 1,
        all_digits(final(v)@),
        final(v).len() > 1 ==> final(v)@.last() > 0,
        digits_value(final(v)@) == 2 * digits_value(old(v)@),
        final(v).len() <= old(v).len() + 1,
{
    let n: usize = v.len();
    let mut carry: u8 = 0;
    let mut i: usize = 0;
    let ghost start = v@;
    while i < n
        invariant
            i <= n,
            n == v.len(),
            n == start.len(),
            n >= 1,
            carry <= 1,
            all_digits(start),
            all_digits(v@),
            forall|k: int| i <= k < n ==> v@[k] == start[k],
            i == n && n > 1 && start.last() > 0 ==> v@.last() + 10 * carry > 0,
            digits_value(v@.take(i as int)) + carry as nat * ten_to(i as nat) == 2 * digits_value(
                start.take(i as int),
            ),
        decreases n - i,
    {
        let ghost before = v@;
        let t: u8 = 2 * v[i] + carry;
        let low: u8 = t % 10;
        let next: u8 = t / 10;
        v.set(i, low);
        proof {
            let now = v@.take(i + 1);
            let was = start.take(i + 1);
            assert(now.drop_last() =~= before.take(i as int));
            assert(was.drop_last() =~= start.take(i as int));
            assert(now.last() == low);
            assert(was.last() == start[i as int]);
            lemma_ten_to(i as nat);
            let p = ten_to(i as nat);
            let d = start[i as int] as nat;
            assert(low as nat * p + next as nat * (10 * p) == 2 * (d * p) + carry as nat * p)
                by (nonlinear_arith)
                requires
                    low + 10 * next == 2 * d + carry,
            ;
        }
        carry = next;
        i = i + 1;
    }
    assert(v@.take(n as int) =~= v@);
    assert(start.take(n as int) =~= start);
    if carry > 0 {
        let ghost before = v@;
        v.push(carry);
        assert(v@.drop_last() =~= before);
    } else {
        proof {
            lemma_mul_basics(ten_to(n as nat) as int);
        }
    }
}

/// The digits of a number, the least significant one first.
fn digits_of(m: u64) -> (v: Vec<u8>)
    ensures
        1 <= v.len() <= 20,
        all_digits(v@),
        v.len() > 1 ==> v@.last() > 0,
        digits_value(v@) == m,
{
    let mut v: Vec<u8> = Vec::new();
    let mut rest: u64 = m;
    proof {
        lemma_ten_to(0);
        lemma_mul_basics(m as int);
        assert(digits_value(v@) == 0);
    }
    v.push((rest % 10) as u8);
    proof {
        assert(v@.drop_last() =~= Seq::<u8>::empty());
        lemma_ten_to(0);
        let r = (m % 10) as nat;
        lemma_mul_basics(r as int);
        assert(digits_value(v@) == r);
    }
    rest = rest / 10;
    while rest > 0
        invariant
            1 <= v.len() <= 20,
            all_digits(v@),
            v.len() > 1 && rest == 0 ==> v@.last() > 0,
            digits_value(v@) + rest as nat * ten_to(v.len() as nat) == m,
        decreases rest,
    {
        let ghost before = v@;
        let ghost was = rest as nat;
        proof {
            lemma_ten_to_twenty();
            if v.len() == 20 {
                assert(was * ten_to(20) >= ten_to(20)) by (nonlinear_arith)
                    requires
                        was >= 1,
                ;
                assert(false);
            }
            let p = ten_to(v.len() as nat);
            lemma_ten_to(v.len() as nat);
            assert(was * p == (was % 10) * p + (was / 10) * (10 * p)) by (nonlinear_arith)
                requires
                    was == 10 * (was / 10) + was % 10,
            ;
        }
        v.push((rest % 10) as u8);
        rest = rest / 10;
        assert(v@.drop_last() =~= before);
    }
    proof {
        lemma_mul_basics(ten_to(v.len() as nat) as int);
    }
    v
}

proof fn lemma_ten_to_twenty()
    ensures
        ten_to(20) == 100_000_000_000_000_000_000,
{
    lemma_ten_to(0);
    lemma_ten_to(1);
    lemma_ten_to(2);
    lemma_ten_to(3);
    lemma_ten_to(4);
    lemma_ten_to(5);
    lemma_ten_to(6);
    lemma_ten_to(7);
    lemma_ten_to(8);
    lemma_ten_to(9);
    lemma_ten_to(10);
    lemma_ten_to(11);
    lemma_ten_to(12);
    lemma_ten_to(13);
    lemma_ten_to(14);
    lemma_ten_to(15);
    lemma_ten_to(16);
    lemma_ten_to(17);
    lemma_ten_to(18);
    lemma_ten_to(19);
}

/// `m * 2^k` in decimal.
fn shifted_decimal(m: u64, k: u32) -> (r: String)
    requires
        k <= 971,
    ensures
        r@ == dec(m as nat * pow2(k as nat)),
{
    let mut v: Vec<u8> = digits_of(m);
    let mut i: u32 = 0;
    proof {
        lemma2_to64();
        lemma_mul_basics(m as int);
    }
    while i < k
        invariant
            i <= k <= 971,
            1 <= v.len() <= 20 + i,
            all_digits(v@),
            v.len() > 1 ==> v@.last() > 0,
            digits_value(v@) == m as nat * pow2(i as nat),
        decreases k - i,
    {
        double_digits(&mut v);
        proof {
            lemma_pow2_unfold((i + 1) as nat);
            let p = pow2(i as nat);
            assert(m as nat * (2 * p) == 2 * (m as nat * p)) by (nonlinear_arith);
        }
        i = i + 1;
    }
    let mut r = String::new();
    let mut j: usize = v.len();
    while j > 0
        invariant
            j <= v.len(),
            all_digits(v@),
            r@ =~= digits_text(v@).take(v.len() - j),
        decreases j,
    {
        j = j - 1;
        r.push(digit_char(v[j]));
    }
    proof {
        assert(digits_text(v@).take(v.len() as int) =~= digits_text(v@));
        lemma_digits_text(v@);
    }
    r
}

/// `mant * 2^exp` units with `k` decimals.
fn fixed_part(mant: u64, exp: u32, k: u32) -> (r: String)
    requires
        mant < pow2(53),
        exp <= 2045,
        k <= 2,
    ensures
        r@ == fixed_magnitude(mant as nat * pow2(exp as nat), k as nat),
{
    let ghost mag = mant as nat * pow2(exp as nat);
    let scale: u64 = if k == 0 {
        1
    } else if k == 1 {
        10
    } else {
        100
    };
    proof {
        lemma_ten_to(0);
        lemma_ten_to(1);
        lemma2_to64_rest();
        lemma_pow2_pos(1074);
        lemma_pow2_pos(exp as nat);
        assert(scale == ten_to(k as nat));
    }
    if exp >= 1074 {
        let up_by: u32 = exp - 1074;
        let ghost n = mant as nat * pow2(up_by as nat);
        let mut r: String = shifted_decimal(mant, up_by);
        proof {
            lemma_pow2_adds(1074, up_by as nat);
            assert(mag * scale == (n * scale) * one()) by (nonlinear_arith)
                requires
                    mag == mant as nat * pow2(exp as nat),
                    n == mant as nat * pow2(up_by as nat),
                    pow2(exp as nat) == one() * pow2(up_by as nat),
            ;
            lemma_nearest_exact((n * scale) as nat, one());
            lemma_mul_basics(n as int);
            lemma_fundamental_div_mod_converse((n * scale) as int, scale as int, n as int, 0);
        }
        if k > 0 {
            r.push('.');
            let zeros: String = fill_zeros(decimal(0).as_str(), k as usize);
            r.append(zeros.as_str());
            assert(r@ =~= dec(n) + seq!['.'] + zero_filled(dec(0), k as nat));
        }
        return r;
    }
    let off: u32 = 1074 - exp;
    let scaled: u64 = mant * scale;
    let ghost d = pow2(off as nat);
    proof {
        lemma_pow2_adds(exp as nat, off as nat);
        lemma_pow2_pos(off as nat);
        let f = pow2(exp as nat);
        assert(mag * scale == scaled as nat * f) by (nonlinear_arith)
            requires
                mag == mant as nat * f,
                scaled == mant * scale,
        ;
        assert(one() == d * f) by (nonlinear_arith)
            requires
                one() == f * d,
        ;
        lemma_nearest_scale(scaled as nat, d, f);
    }
    let value: u64 = nearest_shift(scaled, off);
    assert(value == nearest(mag * ten_to(k as nat), one()));
    let mut r: String = decimal(value / scale);
    if k > 0 {
        r.push('.');
        let tail: String = fill_zeros(decimal(value % scale).as_str(), k as usize);
        r.append(tail.as_str());
        assert(r@ =~= dec(value as nat / ten_to(k as nat)) + seq!['.'] + zero_filled(
            dec(value as nat % ten_to(k as nat)),
            k as nat,
        ));
    }
    r
}

/// `n / 2^off`, rounded to the nearest integer, ties to even.
fn nearest_shift(n: u64, off: u32) -> (r: u64)
    requires
        n < 0x1000_0000_0000_0000,
        off >= 1,
    ensures
        r == nearest(n as nat, pow2(off as nat)),
        r <= 0x1000_0000_0000_0000,
{
    proof {
        lemma_pow2_pos(off as nat);
        lemma2_to64_rest();
        if off >= 62 {
            lemma_pow2_le(62, off as nat);
            lemma_small_mod(n as nat, pow2(off as nat));
            lemma_basic_div(n as int, pow2(off as nat) as int);
        }
    }
    if off >= 62 {
        return 0;
    }
    let d: u128 = power_of_two(off);
    proof {
        lemma_pow2_le(off as nat, 61);
        lemma_div_nonincreasing(n as int, d as int);
    }
    let step: u64 = d as u64;
    let q: u64 = n / step;
    let rem: u64 = n % step;
    proof {
        // a quotient by two or more leaves room for one more
        lemma_mod_bound(n as int, step as int);
    }
    if 2 * rem < step || (2 * rem == step && q % 2 == 0) {
        q
    } else {
        q + 1
    }
}

/// A value taken apart, with `k` decimals.
fn fixed_parts(p: Parts, k: u32) -> (r: String)
    requires
        p matches Parts::Fin { mant, exp, .. } ==> mant < pow2(53) && exp <= 2045,
        k <= 2,
    ensures
        r@ == fixed(p.num(), k as nat),
{
    match p {
        Parts::Nan => {
            let r: String = "NaN".to_owned();
            proof {
                reveal_strlit("NaN");
            }
            assert(r@ =~= seq!['N', 'a', 'N']);
            r
        },
        Parts::Inf { neg } => {
            proof {
                reveal_strlit("inf");
                reveal_strlit("-inf");
            }
            let r: String = if neg {
                "-inf".to_owned()
            } else {
                "inf".to_owned()
            };
            assert(neg ==> r@ =~= seq!['-', 'i', 'n', 'f']);
            assert(!neg ==> r@ =~= seq!['i', 'n', 'f']);
            r
        },
        Parts::Fin { neg, mant, exp } => {
            let digits: String = fixed_part(mant, exp, k);
            if neg {
                let mut r = String::new();
                r.push('-');
                r.append(digits.as_str());
                assert(r@ =~= seq!['-'] + digits@);
                r
            } else {
                digits
            }
        },
    }
}

impl Double {
    /// The value with `k` decimals.
    pub fn fixed(self, k: u32) -> (r: String)
        requires
            k <= 2,
        ensures
            r@ == fixed(self.num(), k as nat),
    {
        fixed_parts(self.parts(), k)
    }
}

impl Single {
    /// The value with `k` decimals.
    pub fn fixed(self, k: u32) -> (r: String)
        requires
            k <= 2,
        ensures
            r@ == fixed(self.num(), k as nat),
    {
        proof {
            lemma_pow2_le(24, 53);
        }
        fixed_parts(self.parts(), k)
    }
}

/// The number that decimal digits stand for.
pub open spec fn number(s: Seq<char>) -> int
    decreases s.len(),
{
    if s.len() == 0 {
        0
    } else {
        10 * number(s.drop_last()) + (s.last() as int - 48)
    }
}

/// A number is read back from its decimal form.
pub proof fn law_decimal_reads_back(n: nat)
    ensures
        number(dec(n)) == n,
    decreases n,
{
    assert(dec(n).last() == digit(n % 10));
    assert(digit(n % 10) as int == 48 + n % 10);
    if n < 10 {
        assert(number(dec(n).drop_last()) == 0);
    } else {
        law_decimal_reads_back(n / 10);
        assert(dec(n).drop_last() =~= dec(n / 10));
    }
}

/// Leading zeros do not change what is read back.
pub proof fn lemma_leading_zeros(s: Seq<char>, k: nat)
    ensures
        number(repeated('0', k) + s) == number(s),
    decreases s.len() + k,
{
    let t = repeated('0', k) + s;
    if s.len() > 0 {
        lemma_leading_zeros(s.drop_last(), k);
        assert(t.drop_last() =~= repeated('0', k) + s.drop_last());
    } else if k > 0 {
        lemma_leading_zeros(s, (k - 1) as nat);
        assert(t.drop_last() =~= repeated('0', (k - 1) as nat) + s);
    }
}

/// A number is read back from its decimal form, filled up with zeros.
pub proof fn law_filled_decimal_reads_back(n: nat, w: nat)
    ensures
        number(zero_filled(dec(n), w)) == n,
{
    law_decimal_reads_back(n);
    let s = dec(n);
    if s.len() < w {
        lemma_leading_zeros(s, (w - s.len()) as nat);
    }
}

/// A decimal number is made of digits, and begins with a zero only where it is zero.
pub proof fn lemma_dec_digits(n: nat)
    ensures
        dec(n)[0] == '0' ==> n == 0 && dec(n).len() == 1,
        dec(n).len() >= 1,
        forall|i: int| 0 <= i < dec(n).len() ==> '0' <= #[trigger] dec(n)[i] <= '9',
    decreases n,
{
    if n < 10 {
    } else {
        lemma_dec_digits(n / 10);
    }
}

} // verus!
