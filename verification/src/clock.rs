//! Moments, and how they are written.

use crate::decimal::{
    dec, decimal, law_filled_decimal_reads_back, lemma_dec_digits, signed_dec, signed_decimal,
};
use crate::reading::{counts, law_count_is_read};
use crate::text::{fill_zeros, zero_filled};
use vstd::prelude::*;
use vstd::string::StringExecFns;

verus! {

/// A calendar date and a time of day. A leap second is the second after second 59, told by
/// nanoseconds of a whole second or more.
#[derive(Clone, Copy, Debug)]
pub struct Stamp {
    year: i32,
    month: u32,
    day: u32,
    hour: u32,
    minute: u32,
    second: u32,
    nano: u32,
}

/// A moment as seconds since the Unix epoch, and nanoseconds.
#[derive(Clone, Copy, Debug)]
pub struct UnixTime {
    secs: i64,
    nanos: u32,
}

/// A leap year of the Gregorian calendar.
pub open spec fn is_leap(year: int) -> bool {
    (year % 4 == 0 && year % 100 != 0) || year % 400 == 0
}

/// How many days a month has.
pub open spec fn days_in(year: int, month: int) -> int {
    if month == 2 {
        if is_leap(year) {
            29
        } else {
            28
        }
    } else if month == 4 || month == 6 || month == 9 || month == 11 {
        30
    } else {
        31
    }
}

/// The fields name a moment of the calendar, in a year that the clock library covers.
pub open spec fn is_moment(
    year: int,
    month: int,
    day: int,
    hour: int,
    minute: int,
    second: int,
    nano: int,
) -> bool {
    &&& -262_143 <= year <= 262_142
    &&& 1 <= month <= 12
    &&& 1 <= day <= days_in(year, month)
    &&& 0 <= hour < 24
    &&& 0 <= minute < 60
    &&& 0 <= second < 60
    &&& 0 <= nano < 2_000_000_000
    &&& nano >= 1_000_000_000 ==> second == 59
}

/// Two digits.
pub open spec fn two(n: nat) -> Seq<char> {
    zero_filled(dec(n), 2)
}

/// A year of four digits; with its sign where it has more, or is before year zero.
pub open spec fn year_text(year: int) -> Seq<char> {
    if year < 0 {
        seq!['-'] + zero_filled(dec((-year) as nat), 4)
    } else if year > 9999 {
        seq!['+'] + zero_filled(dec(year as nat), 4)
    } else {
        zero_filled(dec(year as nat), 4)
    }
}

impl Stamp {
    pub closed spec fn year(self) -> int {
        self.year as int
    }

    pub closed spec fn month(self) -> nat {
        self.month as nat
    }

    pub closed spec fn day(self) -> nat {
        self.day as nat
    }

    pub closed spec fn hour(self) -> nat {
        self.hour as nat
    }

    pub closed spec fn minute(self) -> nat {
        self.minute as nat
    }

    pub closed spec fn second(self) -> nat {
        self.second as nat
    }

    pub closed spec fn nano(self) -> nat {
        self.nano as nat
    }

    pub open spec fn wf(self) -> bool {
        is_moment(
            self.year(),
            self.month() as int,
            self.day() as int,
            self.hour() as int,
            self.minute() as int,
            self.second() as int,
            self.nano() as int,
        )
    }

    #[verifier::type_invariant]
    spec fn inv(self) -> bool {
        self.wf()
    }

    /// The second as it is shown, 60 in a leap second.
    pub open spec fn shown_second(self) -> nat {
        self.second() + self.nano() / 1_000_000_000
    }

    /// `2026-04-11`.
    pub open spec fn date_text(self) -> Seq<char> {
        year_text(self.year()) + "-"@ + two(self.month()) + "-"@ + two(self.day())
    }

    /// `14:23:07`, with `sep` in place of the colons.
    pub open spec fn time_text(self, sep: Seq<char>) -> Seq<char> {
        two(self.hour()) + sep + two(self.minute()) + sep + two(self.shown_second())
    }

    /// `2026-04-11 14:23:07`.
    pub open spec fn line_text(self) -> Seq<char> {
        self.date_text() + " "@ + self.time_text(":"@)
    }

    /// `2026-04-11_14-23-07`.
    pub open spec fn file_text(self) -> Seq<char> {
        self.date_text() + "_"@ + self.time_text("-"@)
    }

    /// `2026-04-11 14:23:07.250`.
    pub open spec fn sample_text(self) -> Seq<char> {
        self.line_text() + "."@ + zero_filled(dec(self.nano() / 1_000_000 % 1000), 3)
    }

    /// The fraction of a second with as many digits, in threes, as it has.
    pub open spec fn fraction_text(self) -> Seq<char> {
        let n = self.nano() % 1_000_000_000;
        if n == 0 {
            Seq::empty()
        } else if n % 1_000_000 == 0 {
            "."@ + zero_filled(dec(n / 1_000_000), 3)
        } else if n % 1_000 == 0 {
            "."@ + zero_filled(dec(n / 1_000), 6)
        } else {
            "."@ + zero_filled(dec(n), 9)
        }
    }

    /// `2026-04-11T14:23:07.250+00:00`.
    pub open spec fn rfc3339_text(self) -> Seq<char> {
        self.date_text() + "T"@ + self.time_text(":"@) + self.fraction_text() + "+00:00"@
    }

    /// The moment that the fields name, if they name one.
    pub fn new(
        year: i32,
        month: u32,
        day: u32,
        hour: u32,
        minute: u32,
        second: u32,
        nano: u32,
    ) -> (r: Option<Stamp>)
        ensures
            r is Some <==> is_moment(
                year as int,
                month as int,
                day as int,
                hour as int,
                minute as int,
                second as int,
                nano as int,
            ),
            r matches Some(s) ==> {
                &&& s.wf()
                &&& s.year() == year
                &&& s.month() == month
                &&& s.day() == day
                &&& s.hour() == hour
                &&& s.minute() == minute
                &&& s.second() == second
                &&& s.nano() == nano
            },
    {
        if year < -262_143 || year > 262_142 || month < 1 || month > 12 || day < 1 {
            return None;
        }
        if day > month_length(year, month) {
            return None;
        }
        if hour >= 24 || minute >= 60 || second >= 60 || nano >= 2_000_000_000 {
            return None;
        }
        if nano >= 1_000_000_000 && second != 59 {
            return None;
        }
        Some(Stamp { year, month, day, hour, minute, second, nano })
    }

    /// `2026-04-11 14:23:07`.
    pub fn line(&self) -> (r: String)
        ensures
            r@ == self.line_text(),
    {
        proof {
            use_type_invariant(self);
        }
        strftime(self, "%Y-%m-%d %H:%M:%S")
    }

    /// `2026-04-11_14-23-07`.
    pub fn file(&self) -> (r: String)
        ensures
            r@ == self.file_text(),
    {
        proof {
            use_type_invariant(self);
        }
        strftime(self, "%Y-%m-%d_%H-%M-%S")
    }

    /// `2026-04-11 14:23:07.250`.
    pub fn sample(&self) -> (r: String)
        ensures
            r@ == self.sample_text(),
    {
        proof {
            use_type_invariant(self);
        }
        strftime(self, "%Y-%m-%d %H:%M:%S%.3f")
    }

    /// The moment, taken as UTC, in the form of RFC 3339.
    pub fn rfc3339(&self) -> (r: String)
        ensures
            r@ == self.rfc3339_text(),
    {
        proof {
            use_type_invariant(self);
        }
        to_rfc3339(self)
    }
}

fn month_length(year: i32, month: u32) -> (r: u32)
    requires
        -262_143 <= year <= 262_142,
        1 <= month <= 12,
    ensures
        r == days_in(year as int, month as int),
{
    if month == 2 {
        // The calendar repeats every 400 years.
        let y: u32 = (year + 400_000) as u32;
        assert(y % 4 == 0 <==> year as int % 4 == 0);
        assert(y % 100 == 0 <==> year as int % 100 == 0);
        assert(y % 400 == 0 <==> year as int % 400 == 0);
        if (y % 4 == 0 && y % 100 != 0) || y % 400 == 0 {
            29
        } else {
            28
        }
    } else if month == 4 || month == 6 || month == 9 || month == 11 {
        30
    } else {
        31
    }
}

/// `NaiveDateTime::format` of chrono, written out: year, month, day, hour, minute and second as
/// the pattern orders them, each filled up with zeros to its width, a leap second as second 60,
/// and the milliseconds where the pattern ends in them. Stated for the three patterns in use.
#[verifier::external_body]
fn strftime(s: &Stamp, pattern: &str) -> (r: String)
    requires
        s.wf(),
        pattern@ == "%Y-%m-%d %H:%M:%S"@ || pattern@ == "%Y-%m-%d_%H-%M-%S"@ || pattern@
            == "%Y-%m-%d %H:%M:%S%.3f"@,
    ensures
        pattern@ == "%Y-%m-%d %H:%M:%S"@ ==> r@ == s.line_text(),
        pattern@ == "%Y-%m-%d_%H-%M-%S"@ ==> r@ == s.file_text(),
        pattern@ == "%Y-%m-%d %H:%M:%S%.3f"@ ==> r@ == s.sample_text(),
{
    let day = chrono::NaiveDate::from_ymd_opt(s.year, s.month, s.day).unwrap();
    let moment = day.and_hms_nano_opt(s.hour, s.minute, s.second, s.nano).unwrap();
    moment.format(pattern).to_string()
}

/// `DateTime::to_rfc3339` of chrono, for a moment in UTC: date, `T`, time, the fraction of a second
/// in as many groups of three digits as it needs, and the offset.
#[verifier::external_body]
fn to_rfc3339(s: &Stamp) -> (r: String)
    requires
        s.wf(),
    ensures
        r@ == s.rfc3339_text(),
{
    let day = chrono::NaiveDate::from_ymd_opt(s.year, s.month, s.day).unwrap();
    let moment = day.and_hms_nano_opt(s.hour, s.minute, s.second, s.nano).unwrap();
    moment.and_utc().to_rfc3339()
}

impl UnixTime {
    pub closed spec fn secs(self) -> int {
        self.secs as int
    }

    pub closed spec fn nanos(self) -> nat {
        self.nanos as nat
    }

    /// Nanoseconds since the epoch.
    pub open spec fn total(self) -> int {
        self.secs() * 1_000_000_000 + self.nanos()
    }

    /// Within the years that the clock library covers.
    pub open spec fn wf(self) -> bool {
        &&& -8_334_601_228_800 <= self.secs() <= 8_210_266_876_799
        &&& self.nanos() < 1_000_000_000
    }

    #[verifier::type_invariant]
    spec fn inv(self) -> bool {
        self.wf()
    }

    /// The moment, if it lies within the years that the clock library covers.
    pub fn new(secs: i64, nanos: u32) -> (r: Option<UnixTime>)
        ensures
            r is Some <==> -8_334_601_228_800 <= secs <= 8_210_266_876_799 && nanos < 1_000_000_000,
            r matches Some(t) ==> t.wf() && t.secs() == secs && t.nanos() == nanos,
    {
        if secs < -8_334_601_228_800 || secs > 8_210_266_876_799 || nanos >= 1_000_000_000 {
            None
        } else {
            Some(UnixTime { secs, nanos })
        }
    }

    /// Whole seconds from `start` to `self`, cut off towards zero.
    pub fn seconds_since(&self, start: &UnixTime) -> (r: i64)
        ensures
            r == cut_off(self.total() - start.total()),
    {
        proof {
            use_type_invariant(self);
            use_type_invariant(start);
        }
        whole_seconds(start, self)
    }
}

/// Nanoseconds in whole seconds, cut off towards zero.
pub open spec fn cut_off(nanos: int) -> int {
    if nanos >= 0 {
        nanos / 1_000_000_000
    } else {
        -((-nanos) / 1_000_000_000)
    }
}

/// `DateTime::signed_duration_since` of chrono, in the whole seconds that `TimeDelta::num_seconds`
/// gives: the difference, cut off towards zero.
#[verifier::external_body]
fn whole_seconds(start: &UnixTime, end: &UnixTime) -> (r: i64)
    requires
        start.wf(),
        end.wf(),
    ensures
        r == cut_off(end.total() - start.total()),
{
    let from = chrono::DateTime::from_timestamp(start.secs, start.nanos).unwrap();
    let to = chrono::DateTime::from_timestamp(end.secs, end.nanos).unwrap();
    to.signed_duration_since(from).num_seconds()
}

/// A span in hours, minutes and seconds, without leading units that are not positive.
pub open spec fn duration_text(secs: int) -> Seq<char> {
    if secs >= 3600 {
        dec((secs / 3600) as nat) + "h "@ + two((secs / 60 % 60) as nat) + "m "@ + two(
            (secs % 60) as nat,
        ) + "s"@
    } else if secs >= 60 {
        dec((secs / 60) as nat) + "m "@ + two((secs % 60) as nat) + "s"@
    } else if secs >= 0 {
        dec(secs as nat) + "s"@
    } else {
        signed_dec(-((-secs) % 60)) + "s"@
    }
}

/// A span in hours, minutes and seconds. Of a negative span only the seconds beyond its whole
/// minutes are shown.
pub fn fmt_duration(secs: i64) -> (r: String)
    ensures
        r@ == duration_text(secs as int),
{
    if secs >= 3600 {
        let mut r: String = decimal((secs / 3600) as u64);
        r.append("h ");
        r.append(fill_zeros(decimal((secs / 60 % 60) as u64).as_str(), 2).as_str());
        r.append("m ");
        r.append(fill_zeros(decimal((secs % 60) as u64).as_str(), 2).as_str());
        r.append("s");
        r
    } else if secs >= 60 {
        let mut r: String = decimal((secs / 60) as u64);
        r.append("m ");
        r.append(fill_zeros(decimal((secs % 60) as u64).as_str(), 2).as_str());
        r.append("s");
        r
    } else {
        let mut r: String = signed_decimal(secs % 60);
        r.append("s");
        r
    }
}

/// Texts that agree, with a separator in them and as much behind it, agree on either side of it.
proof fn lemma_peel(a: Seq<char>, x: Seq<char>, b: Seq<char>, y: Seq<char>, sep: Seq<char>)
    requires
        a + sep + x == b + sep + y,
        x.len() == y.len(),
    ensures
        a == b,
        x == y,
{
    let s = a + sep + x;
    let t = b + sep + y;
    assert(s.len() == t.len());
    assert(s.take(a.len() as int) =~= a);
    assert(t.take(b.len() as int) =~= b);
    assert(s.skip((a.len() + sep.len()) as int) =~= x);
    assert(t.skip((b.len() + sep.len()) as int) =~= y);
}

/// Two digits are two characters, and tell numbers apart.
proof fn lemma_two(m: nat, n: nat)
    requires
        m < 100,
        n < 100,
    ensures
        two(m).len() == 2,
        two(n).len() == 2,
        two(m) == two(n) ==> m == n,
{
    reveal_with_fuel(dec, 2);
    law_filled_decimal_reads_back(m, 2);
    law_filled_decimal_reads_back(n, 2);
}

/// Three digits are three characters, and tell numbers apart.
proof fn lemma_three(m: nat, n: nat)
    requires
        m < 1000,
        n < 1000,
    ensures
        zero_filled(dec(m), 3).len() == 3,
        zero_filled(dec(n), 3).len() == 3,
        zero_filled(dec(m), 3) == zero_filled(dec(n), 3) ==> m == n,
{
    reveal_with_fuel(dec, 3);
    law_filled_decimal_reads_back(m, 3);
    law_filled_decimal_reads_back(n, 3);
}

/// A year with its sign taken off.
proof fn lemma_signed_year(c: char, m: nat, n: nat)
    requires
        seq![c] + zero_filled(dec(m), 4) == seq![c] + zero_filled(dec(n), 4),
    ensures
        m == n,
{
    let s = seq![c] + zero_filled(dec(m), 4);
    let t = seq![c] + zero_filled(dec(n), 4);
    assert(s.skip(1) =~= zero_filled(dec(m), 4));
    assert(t.skip(1) =~= zero_filled(dec(n), 4));
    law_filled_decimal_reads_back(m, 4);
    law_filled_decimal_reads_back(n, 4);
}

/// The sign of a year is its first character; a year without sign begins with a digit.
proof fn lemma_year_sign(y: int)
    ensures
        year_text(y).len() > 0,
        year_text(y)[0] == '-' <==> y < 0,
        year_text(y)[0] == '+' <==> y > 9999,
{
    lemma_dec_digits(y as nat);
    lemma_dec_digits((-y) as nat);
    if y < 0 {
        assert(year_text(y) =~= seq!['-'] + zero_filled(dec((-y) as nat), 4));
    } else if y > 9999 {
        assert(year_text(y) =~= seq!['+'] + zero_filled(dec(y as nat), 4));
    } else {
        assert('0' <= zero_filled(dec(y as nat), 4)[0] <= '9');
    }
}

/// Years are told apart by their texts.
pub proof fn law_years_are_told_apart(a: int, b: int)
    requires
        year_text(a) == year_text(b),
    ensures
        a == b,
{
    lemma_year_sign(a);
    lemma_year_sign(b);
    if a < 0 {
        lemma_signed_year('-', (-a) as nat, (-b) as nat);
    } else if a > 9999 {
        lemma_signed_year('+', a as nat, b as nat);
    } else {
        law_filled_decimal_reads_back(a as nat, 4);
        law_filled_decimal_reads_back(b as nat, 4);
    }
}

/// Samples that were taken in different milliseconds are dated differently.
pub proof fn law_samples_are_told_apart(a: Stamp, b: Stamp)
    requires
        a.wf(),
        b.wf(),
        a.sample_text() == b.sample_text(),
    ensures
        a.year() == b.year(),
        a.month() == b.month(),
        a.day() == b.day(),
        a.hour() == b.hour(),
        a.minute() == b.minute(),
        a.second() == b.second(),
        a.nano() / 1_000_000 == b.nano() / 1_000_000,
{
    let u = a.nano() / 1_000_000 % 1000;
    let v = b.nano() / 1_000_000 % 1000;
    lemma_three(u, v);
    lemma_peel(
        a.line_text(),
        zero_filled(dec(u), 3),
        b.line_text(),
        zero_filled(dec(v), 3),
        "."@,
    );
    lemma_line(a, b);
    lemma_leap_second(a);
    lemma_leap_second(b);
}

proof fn lemma_line(a: Stamp, b: Stamp)
    requires
        a.wf(),
        b.wf(),
        a.line_text() == b.line_text(),
    ensures
        a.year() == b.year(),
        a.month() == b.month(),
        a.day() == b.day(),
        a.hour() == b.hour(),
        a.minute() == b.minute(),
        a.shown_second() == b.shown_second(),
{
    let sep = ":"@;
    lemma_two(a.month(), b.month());
    lemma_two(a.day(), b.day());
    lemma_two(a.hour(), b.hour());
    lemma_two(a.minute(), b.minute());
    lemma_two(a.shown_second(), b.shown_second());
    assert(a.time_text(sep).len() == b.time_text(sep).len());
    lemma_peel(a.date_text(), a.time_text(sep), b.date_text(), b.time_text(sep), " "@);
    // the time, from its end
    let x = two(a.hour()) + sep + two(a.minute());
    let y = two(b.hour()) + sep + two(b.minute());
    lemma_peel(x, two(a.shown_second()), y, two(b.shown_second()), sep);
    lemma_peel(two(a.hour()), two(a.minute()), two(b.hour()), two(b.minute()), sep);
    // the date, from its end
    let p = year_text(a.year()) + "-"@ + two(a.month());
    let q = year_text(b.year()) + "-"@ + two(b.month());
    lemma_peel(p, two(a.day()), q, two(b.day()), "-"@);
    lemma_peel(year_text(a.year()), two(a.month()), year_text(b.year()), two(b.month()), "-"@);
    law_years_are_told_apart(a.year(), b.year());
}

proof fn lemma_leap_second(s: Stamp)
    requires
        s.wf(),
    ensures
        s.nano() < 1_000_000_000 ==> s.shown_second() == s.second() && s.nano() / 1_000_000 % 1000
            == s.nano() / 1_000_000 && s.shown_second() < 60,
        s.nano() >= 1_000_000_000 ==> s.shown_second() == 60 && s.second() == 59 && s.nano()
            / 1_000_000 == 1000 + s.nano() / 1_000_000 % 1000,
{
}

/// No space in the text.
pub open spec fn without_spaces(s: Seq<char>) -> bool {
    forall|i: int| 0 <= i < s.len() ==> #[trigger] s[i] != ' '
}

/// The moment in a file name has no space in it.
pub proof fn lemma_file_text(s: Stamp)
    ensures
        without_spaces(s.file_text()),
{
    reveal_strlit("-");
    reveal_strlit("_");
    lemma_dec_digits((-s.year()) as nat);
    lemma_dec_digits(s.year() as nat);
    lemma_dec_digits(s.month());
    lemma_dec_digits(s.day());
    lemma_dec_digits(s.hour());
    lemma_dec_digits(s.minute());
    lemma_dec_digits(s.shown_second());
    assert(without_spaces(year_text(s.year())));
    assert(without_spaces(two(s.month())));
    assert(without_spaces(two(s.day())));
    assert(without_spaces(s.date_text()));
    assert(without_spaces(two(s.hour())));
    assert(without_spaces(two(s.minute())));
    assert(without_spaces(two(s.shown_second())));
    assert(without_spaces(s.time_text("-"@)));
}

/// Two digits that are read back.
pub open spec fn is_two(t: Seq<char>, n: int) -> bool {
    t.len() == 2 && counts(t, n)
}

proof fn lemma_is_two(n: nat)
    requires
        n < 100,
    ensures
        is_two(two(n), n as int),
{
    law_count_is_read(n, 2);
    lemma_two(n, n);
}

/// The text is a year: four digits or more, with a sign where it is not one of year 0 to 9999.
pub open spec fn reads_year(t: Seq<char>, year: int) -> bool {
    if 0 <= year <= 9999 {
        t.len() == 4 && counts(t, year)
    } else {
        &&& t.len() >= 5
        &&& t[0] == if year < 0 {
            '-'
        } else {
            '+'
        }
        &&& counts(t.skip(1), if year < 0 {
            -year
        } else {
            year
        })
    }
}

/// The second on the clock: 60 in a leap second.
pub open spec fn on_the_clock(s: Stamp) -> int {
    if s.nano() < 1_000_000_000 {
        s.second() as int
    } else {
        60
    }
}

/// The text is a date and a time of day.
pub open spec fn reads_moment(t: Seq<char>, s: Stamp, gap: Seq<char>, sep: Seq<char>) -> bool {
    exists|y: Seq<char>, m: Seq<char>, d: Seq<char>, h: Seq<char>, n: Seq<char>, c: Seq<char>|
        {
            &&& t == y + "-"@ + m + "-"@ + d + gap + h + sep + n + sep + c
            &&& #[trigger] reads_year(y, s.year())
            &&& #[trigger] is_two(m, s.month() as int)
            &&& #[trigger] is_two(d, s.day() as int)
            &&& #[trigger] is_two(h, s.hour() as int)
            &&& #[trigger] is_two(n, s.minute() as int)
            &&& #[trigger] is_two(c, on_the_clock(s))
        }
}

proof fn lemma_reads_year(year: int)
    ensures
        reads_year(year_text(year), year),
{
    let n = (if year < 0 {
        -year
    } else {
        year
    }) as nat;
    let t = year_text(year);
    law_count_is_read(n, 4);
    lemma_four(n);
    if year < 0 || year > 9999 {
        assert(t.skip(1) =~= zero_filled(dec(n), 4));
    }
}

proof fn lemma_four(n: nat)
    ensures
        zero_filled(dec(n), 4).len() >= 4,
        n <= 9999 ==> zero_filled(dec(n), 4).len() == 4,
{
    reveal_with_fuel(dec, 5);
}

proof fn lemma_reads_moment(s: Stamp, gap: Seq<char>, sep: Seq<char>)
    requires
        s.wf(),
    ensures
        reads_moment(s.date_text() + gap + s.time_text(sep), s, gap, sep),
{
    let y = year_text(s.year());
    let m = two(s.month());
    let d = two(s.day());
    let h = two(s.hour());
    let n = two(s.minute());
    let c = two(s.shown_second());
    lemma_reads_year(s.year());
    lemma_is_two(s.month());
    lemma_is_two(s.day());
    lemma_is_two(s.hour());
    lemma_is_two(s.minute());
    lemma_leap_second(s);
    lemma_is_two(s.shown_second());
    assert(reads_year(y, s.year()) && is_two(m, s.month() as int) && is_two(d, s.day() as int)
        && is_two(h, s.hour() as int) && is_two(n, s.minute() as int));
    assert(is_two(c, on_the_clock(s)));
    assert(s.date_text() + gap + s.time_text(sep) =~= y + "-"@ + m + "-"@ + d + gap + h + sep + n
        + sep + c);
}

/// A moment is read back, field by field: from a line, from a file name, and, with its milliseconds,
/// from the title of a sample.
pub proof fn law_moment_is_read(s: Stamp)
    requires
        s.wf(),
    ensures
        reads_moment(s.line_text(), s, " "@, ":"@),
        reads_moment(s.file_text(), s, "_"@, "-"@),
        exists|t: Seq<char>, f: Seq<char>|
            {
                &&& s.sample_text() == t + "."@ + f
                &&& #[trigger] reads_moment(t, s, " "@, ":"@)
                &&& f.len() == 3
                &&& #[trigger] counts(f, (s.nano() / 1_000_000 % 1000) as int)
            },
{
    let f = zero_filled(dec(s.nano() / 1_000_000 % 1000), 3);
    lemma_reads_moment(s, " "@, ":"@);
    lemma_reads_moment(s, "_"@, "-"@);
    law_count_is_read(s.nano() / 1_000_000 % 1000, 3);
    lemma_three(s.nano() / 1_000_000 % 1000, s.nano() / 1_000_000 % 1000);
    assert(reads_moment(s.line_text(), s, " "@, ":"@));
    assert(counts(f, (s.nano() / 1_000_000 % 1000) as int));
}

/// The text is the fraction of a second: none, or a point and as many digits, in threes, as it takes.
pub open spec fn reads_fraction(t: Seq<char>, nanos: int) -> bool {
    if nanos == 0 {
        t.len() == 0
    } else {
        &&& t.len() > 0
        &&& t[0] == '.'
        &&& (t.len() == 4 && counts(t.skip(1), nanos / 1_000_000) && nanos % 1_000_000 == 0) || (
        t.len() == 7 && counts(t.skip(1), nanos / 1_000) && nanos % 1_000 == 0 && nanos % 1_000_000
            != 0) || (t.len() == 10 && counts(t.skip(1), nanos) && nanos % 1_000 != 0)
    }
}

proof fn lemma_nine(n: nat)
    ensures
        n < 1_000 ==> zero_filled(dec(n), 3).len() == 3,
        n < 1_000_000 ==> zero_filled(dec(n), 6).len() == 6,
        n < 1_000_000_000 ==> zero_filled(dec(n), 9).len() == 9,
{
    reveal_with_fuel(dec, 10);
}

/// A moment in the form of RFC 3339 is read back, with the fraction of its second.
pub proof fn law_rfc3339_is_read(s: Stamp)
    requires
        s.wf(),
    ensures
        exists|t: Seq<char>, f: Seq<char>|
            {
                &&& s.rfc3339_text() == t + f + "+00:00"@
                &&& #[trigger] reads_moment(t, s, "T"@, ":"@)
                &&& #[trigger] reads_fraction(f, (s.nano() % 1_000_000_000) as int)
            },
{
    let n = s.nano() % 1_000_000_000;
    let f = s.fraction_text();
    lemma_reads_moment(s, "T"@, ":"@);
    reveal_strlit(".");
    law_count_is_read(n / 1_000_000, 3);
    law_count_is_read(n / 1_000, 6);
    law_count_is_read(n, 9);
    lemma_nine(n / 1_000_000);
    lemma_nine(n / 1_000);
    lemma_nine(n);
    if n != 0 {
        let k: nat = if n % 1_000_000 == 0 {
            3
        } else if n % 1_000 == 0 {
            6
        } else {
            9
        };
        let m: nat = if n % 1_000_000 == 0 {
            n / 1_000_000
        } else if n % 1_000 == 0 {
            n / 1_000
        } else {
            n
        };
        assert(f.skip(1) =~= zero_filled(dec(m), k));
    }
    assert(reads_fraction(f, n as int));
    assert(reads_moment(s.date_text() + "T"@ + s.time_text(":"@), s, "T"@, ":"@));
}

/// The calendar: every year has the same months but for one day in February, a year has 366 days
/// in every fourth year, but for full centuries that are not a multiple of 400, and it repeats after
/// 400 years.
pub proof fn law_calendar(year: int, month: int)
    requires
        1 <= month <= 12,
    ensures
        month != 2 ==> days_in(year, month) == seq![
            31int,
            28,
            31,
            30,
            31,
            30,
            31,
            31,
            30,
            31,
            30,
            31,
        ][month - 1],
        days_in(year, 2) == 28 || days_in(year, 2) == 29,
        year % 4 != 0 ==> days_in(year, 2) == 28,
        year % 4 == 0 && year % 100 != 0 ==> days_in(year, 2) == 29,
        days_in(100 * year, 2) == if year % 4 == 0 {
            29int
        } else {
            28
        },
        days_in(year + 400, month) == days_in(year, month),
{
}

/// Every second of every day is a moment, at any nanosecond, and the last second of every minute may
/// be followed by a leap second. No other time of day is a moment.
pub proof fn law_every_second_is_a_moment(year: int, month: int, day: int, second: int, nano: int)
    requires
        -262_143 <= year <= 262_142,
        1 <= month <= 12,
        1 <= day <= days_in(year, month),
        0 <= second < 86_400,
        0 <= nano < 1_000_000_000,
    ensures
        ({
            let (h, m, s) = (second / 3600, second / 60 % 60, second % 60);
            &&& is_moment(year, month, day, h, m, s, nano)
            &&& is_moment(year, month, day, h, m, s, 1_000_000_000 + nano) <==> (second + 1) % 60
                == 0
            &&& !is_moment(year, month, day, h, m, s, 2_000_000_000 + nano)
            &&& !is_moment(year, month, day, h + 24, m, s, nano)
            &&& !is_moment(year, month, day, h, m + 60, s, nano)
            &&& !is_moment(year, month, day, h, m, s + 60, nano)
            &&& !is_moment(year, month, day + days_in(year, month), h, m, s, nano)
            &&& !is_moment(year, month + 12, day, h, m, s, nano)
            &&& !is_moment(year, month, 0, h, m, s, nano)
            &&& !is_moment(year, 0, day, h, m, s, nano)
        }),
{
}

/// Whole seconds: the span lies between them and the next, away from zero, and a span the other way
/// has as many, below zero.
pub proof fn law_cut_off(nanos: int)
    ensures
        nanos >= 0 ==> 0 <= nanos - cut_off(nanos) * 1_000_000_000 < 1_000_000_000,
        nanos <= 0 ==> 0 <= cut_off(nanos) * 1_000_000_000 - nanos < 1_000_000_000,
        cut_off(-nanos) == -cut_off(nanos),
{
}

/// The text is a span of hours, minutes and seconds.
pub open spec fn reads_hours(t: Seq<char>, h: int, m: int, s: int) -> bool {
    exists|a: Seq<char>, b: Seq<char>, c: Seq<char>|
        {
            &&& t == a + "h "@ + b + "m "@ + c + "s"@
            &&& #[trigger] counts(a, h)
            &&& #[trigger] is_two(b, m)
            &&& #[trigger] is_two(c, s)
        }
}

/// The text is a span of minutes and seconds.
pub open spec fn reads_minutes(t: Seq<char>, m: int, s: int) -> bool {
    exists|b: Seq<char>, c: Seq<char>|
        {
            &&& t == b + "m "@ + c + "s"@
            &&& #[trigger] counts(b, m)
            &&& #[trigger] is_two(c, s)
        }
}

/// The text is a number of seconds.
pub open spec fn reads_seconds(t: Seq<char>, s: int) -> bool {
    if s < 0 {
        exists|c: Seq<char>| t == seq!['-'] + c + "s"@ && #[trigger] counts(c, -s)
    } else {
        exists|c: Seq<char>| t == c + "s"@ && #[trigger] counts(c, s)
    }
}

proof fn lemma_hours_are_read(secs: int)
    requires
        secs >= 3600,
    ensures
        ({
            let (h, m, s) = (secs / 3600, secs / 60 % 60, secs % 60);
            &&& reads_hours(duration_text(secs), h, m, s)
            &&& h > 0
            &&& 0 <= m < 60
            &&& 0 <= s < 60
            &&& 3600 * h + 60 * m + s == secs
        }),
{
    let h = secs / 3600;
    let m = secs / 60 % 60;
    let s = secs % 60;
    law_count_is_read(h as nat, 0);
    lemma_is_two(m as nat);
    lemma_is_two(s as nat);
    assert(counts(dec(h as nat), h) && is_two(two(m as nat), m) && is_two(two(s as nat), s));
    assert(reads_hours(duration_text(secs), h, m, s));
}

proof fn lemma_minutes_are_read(secs: int)
    requires
        60 <= secs < 3600,
    ensures
        ({
            let (m, s) = (secs / 60, secs % 60);
            &&& reads_minutes(duration_text(secs), m, s)
            &&& 0 < m < 60
            &&& 0 <= s < 60
            &&& 60 * m + s == secs
        }),
{
    let m = secs / 60;
    let s = secs % 60;
    law_count_is_read(m as nat, 0);
    lemma_is_two(s as nat);
    assert(counts(dec(m as nat), m) && is_two(two(s as nat), s));
    assert(reads_minutes(duration_text(secs), m, s));
}

proof fn lemma_seconds_are_read(secs: int)
    requires
        secs < 60,
    ensures
        secs >= 0 ==> reads_seconds(duration_text(secs), secs),
        secs < 0 ==> reads_seconds(duration_text(secs), -((-secs) % 60)),
        secs < 0 ==> (secs + (-secs) % 60) % 60 == 0,
{
    if secs >= 0 {
        law_count_is_read(secs as nat, 0);
        assert(counts(dec(secs as nat), secs));
    } else {
        let n = (-secs) % 60;
        law_count_is_read(n as nat, 0);
        assert(counts(dec(n as nat), n));
    }
}

/// A span is read back: its hours, minutes and seconds make up the whole of it. Of a negative one
/// only the seconds beyond whole minutes are shown.
pub proof fn law_duration_is_read(secs: int)
    ensures
        secs >= 3600 ==> exists|h: int, m: int, s: int|
            {
                &&& #[trigger] reads_hours(duration_text(secs), h, m, s)
                &&& h > 0
                &&& 0 <= m < 60
                &&& 0 <= s < 60
                &&& 3600 * h + 60 * m + s == secs
            },
        60 <= secs < 3600 ==> exists|m: int, s: int|
            {
                &&& #[trigger] reads_minutes(duration_text(secs), m, s)
                &&& 0 < m < 60
                &&& 0 <= s < 60
                &&& 60 * m + s == secs
            },
        0 <= secs < 60 ==> reads_seconds(duration_text(secs), secs),
        secs < 0 ==> exists|s: int|
            {
                &&& #[trigger] reads_seconds(duration_text(secs), s)
                &&& -60 < s <= 0
                &&& (secs - s) % 60 == 0
            },
{
    if secs >= 3600 {
        lemma_hours_are_read(secs);
    } else if secs >= 60 {
        lemma_minutes_are_read(secs);
    } else {
        lemma_seconds_are_read(secs);
    }
}

} // verus!
