//! Dates in the Gregorian calendar, counted in days and seconds from 1970.

use vstd::prelude::*;
use vstd::string::StrSliceExecFns;

use crate::text::{digit_char, is_digit};

verus! {

/// Whether a year has a 29th of February.
pub open spec fn is_leap(y: int) -> bool {
    y % 4 == 0 && (y % 100 != 0 || y % 400 == 0)
}

/// The number of days of a year.
pub open spec fn year_days(y: int) -> int {
    if is_leap(y) {
        366
    } else {
        365
    }
}

/// The number of days of a month.
pub open spec fn month_days(y: int, m: int) -> int {
    if m == 2 {
        if is_leap(y) {
            29
        } else {
            28
        }
    } else if m == 4 || m == 6 || m == 9 || m == 11 {
        30
    } else {
        31
    }
}

/// The number of days from 1970-01-01 to the first day of a year.
pub open spec fn days_before_year(y: int) -> int
    decreases
            (if y >= 1970 {
                y - 1970
            } else {
                1970 - y
            }),
{
    if y == 1970 {
        0
    } else if y > 1970 {
        days_before_year(y - 1) + year_days(y - 1)
    } else {
        days_before_year(y + 1) - year_days(y)
    }
}

/// The number of days from the first day of a year to that of a month of it.
pub open spec fn days_before_month(y: int, m: int) -> int
    decreases m,
{
    if m <= 1 {
        0
    } else {
        days_before_month(y, m - 1) + month_days(y, m - 1)
    }
}

/// The number of days from 1970-01-01 to a day, whose number in the month may
/// also run past its end.
pub open spec fn day_number(y: int, m: int, d: int) -> int {
    days_before_year(y) + days_before_month(y, m) + d - 1
}

/// The days before a year, from year 0 on, without counting.
spec fn year_sum(y: int) -> int {
    365 * y + (y + 3) / 4 - (y + 99) / 100 + (y + 399) / 400
}

/// One more step reaches the next multiple of `n` exactly from a multiple.
proof fn lemma_next_multiple(y: int, n: int)
    requires
        0 < n,
    ensures
        (y + n) / n == (y + n - 1) / n + if y % n == 0 {
            1int
        } else {
            0
        },
{
    let (q, r) = (y / n, y % n);
    vstd::arithmetic::div_mod::lemma_fundamental_div_mod(y, n);
    vstd::arithmetic::div_mod::lemma_mod_bound(y, n);
    assert(n * q == q * n) by (nonlinear_arith);
    assert((q + 1) * n == q * n + n) by (nonlinear_arith);
    vstd::arithmetic::div_mod::lemma_fundamental_div_mod_converse(y + n, n, q + 1, r);
    if r == 0 {
        vstd::arithmetic::div_mod::lemma_fundamental_div_mod_converse(y + n - 1, n, q, n - 1);
    } else {
        vstd::arithmetic::div_mod::lemma_fundamental_div_mod_converse(y + n - 1, n, q + 1, r - 1);
    }
}

proof fn lemma_year_step(y: int)
    ensures
        year_sum(y + 1) == year_sum(y) + year_days(y),
{
    lemma_next_multiple(y, 4);
    lemma_next_multiple(y, 100);
    lemma_next_multiple(y, 400);
    assert(y % 100 == 0 ==> y % 4 == 0);
    assert(y % 400 == 0 ==> y % 100 == 0);
}

proof fn lemma_days_before_year(y: int)
    ensures
        days_before_year(y) == year_sum(y) - year_sum(1970),
    decreases
            (if y >= 1970 {
                y - 1970
            } else {
                1970 - y
            }),
{
    if y > 1970 {
        lemma_days_before_year(y - 1);
        lemma_year_step(y - 1);
    } else if y < 1970 {
        lemma_days_before_year(y + 1);
        lemma_year_step(y);
    }
}

/// The days before a month, in a year counted from March: `k` months after it.
proof fn lemma_months(y: int, m: int)
    requires
        1 <= m <= 12,
    ensures
        m > 2 ==> days_before_month(y, m) == (153 * (m - 3) + 2) / 5 + 59 + (if is_leap(y) {
            1int
        } else {
            0
        }),
        m <= 2 ==> days_before_month(y, m) == (153 * (m + 9) + 2) / 5 - 306,
{
    reveal_with_fuel(days_before_month, 13);
    assert(m == 1 || m == 2 || m == 3 || m == 4 || m == 5 || m == 6 || m == 7 || m == 8 || m == 9
        || m == 10 || m == 11 || m == 12);
}

/// The number of days from 1970-01-01 to a day, negative before it.
pub fn days_from_civil(y: i64, m: i64, d: i64) -> (n: i64)
    requires
        1 <= m <= 12,
        i64::MIN <= day_number(y as int, m as int, d as int) <= i64::MAX,
    ensures
        n == day_number(y as int, m as int, d as int),
{
    let yy: i128 = if m <= 2 { y as i128 - 1 } else { y as i128 };
    let era: i128 = floor_div(yy, 400);
    let yoe: i128 = yy - era * 400;
    let mp: i128 = if m > 2 { m as i128 - 3 } else { m as i128 + 9 };
    let doy: i128 = floor_div(153 * mp + 2, 5) + (d as i128 - 1);
    let doe: i128 = yoe * 365 + floor_div(yoe, 4) - floor_div(yoe, 100) + doy;
    proof {
        lemma_days_before_year(y as int);
        lemma_months(y as int, m as int);
        let z = yy as int;
        assert(yoe == z % 400 && era == z / 400);
        assert(z / 4 == era * 100 + yoe as int / 4);
        assert(z / 100 == era * 4 + yoe as int / 100);
        if m > 2 {
            assert((z + 3) / 4 == z / 4 + if z % 4 == 0 {
                0int
            } else {
                1
            });
            assert((z + 99) / 100 == z / 100 + if z % 100 == 0 {
                0int
            } else {
                1
            });
            assert((z + 399) / 400 == z / 400 + if z % 400 == 0 {
                0int
            } else {
                1
            });
        } else {
            assert((z + 4) / 4 == z / 4 + 1);
            assert((z + 100) / 100 == z / 100 + 1);
            assert((z + 400) / 400 == z / 400 + 1);
        }
    }
    (era * 146_097 + doe - 719_468) as i64
}

/// The quotient, rounded down.
fn floor_div(a: i128, b: i128) -> (q: i128)
    requires
        0 < b,
    ensures
        q == a as int / b as int,
{
    if a >= 0 {
        let q: u128 = a as u128 / b as u128;
        q as i128
    } else {
        let up: u128 = (-(a + 1)) as u128;
        let q: u128 = up / b as u128;
        proof {
            let r = up as int % b as int;
            vstd::arithmetic::div_mod::lemma_fundamental_div_mod(up as int, b as int);
            assert(a as int == (-(q as int) - 1) * b + (b - 1 - r)) by (nonlinear_arith)
                requires
                    up == b * q + r,
                    up == -(a + 1),
            ;
            vstd::arithmetic::div_mod::lemma_fundamental_div_mod_converse(
                a as int,
                b as int,
                -(q as int) - 1,
                b - 1 - r,
            );
        }
        -(q as i128) - 1
    }
}

/// The number that the digits of `s` from `from` up to `to` make up.
pub open spec fn digits_value(s: Seq<char>, from: int, to: int) -> int
    decreases to - from,
{
    if to <= from {
        0
    } else {
        10 * digits_value(s, from, to - 1) + (s[to - 1] as int - '0' as int)
    }
}

/// A moment, by its calendar date and its time of day.
pub struct Stamp {
    pub year: int,
    pub month: int,
    pub day: int,
    pub hour: int,
    pub minute: int,
    pub second: int,
}

impl Stamp {
    /// Whether the parts are in range: a day from 1 to 31 in any month, and a
    /// second up to 60.
    pub open spec fn in_range(self) -> bool {
        &&& 1 <= self.month <= 12
        &&& 1 <= self.day <= 31
        &&& 0 <= self.hour <= 23
        &&& 0 <= self.minute <= 59
        &&& 0 <= self.second <= 60
    }

    /// The number of seconds from the start of 1970.
    pub open spec fn seconds(self) -> int {
        day_number(self.year, self.month, self.day) * 86_400 + self.hour * 3_600 + self.minute * 60
            + self.second
    }

    /// Whether the day exists in its month, and the second in its minute.
    pub open spec fn exists_in_calendar(self) -> bool {
        self.in_range() && self.day <= month_days(self.year, self.month) && self.second <= 59
    }

    /// Whether the moment stands earlier in the calendar and on the clock.
    pub open spec fn earlier(self, o: Stamp) -> bool {
        ||| self.year < o.year
        ||| self.year == o.year && self.month < o.month
        ||| self.year == o.year && self.month == o.month && self.day < o.day
        ||| self.year == o.year && self.month == o.month && self.day == o.day && self.hour < o.hour
        ||| self.year == o.year && self.month == o.month && self.day == o.day && self.hour == o.hour
            && self.minute < o.minute
        ||| self.year == o.year && self.month == o.month && self.day == o.day && self.hour == o.hour
            && self.minute == o.minute && self.second < o.second
    }
}

/// The moment that the first fourteen characters of a text stand for: year,
/// month, day, hour, minute and second, in four and then two digits each.
pub open spec fn stamp_of(s: Seq<char>) -> Stamp {
    Stamp {
        year: digits_value(s, 0, 4),
        month: digits_value(s, 4, 6),
        day: digits_value(s, 6, 8),
        hour: digits_value(s, 8, 10),
        minute: digits_value(s, 10, 12),
        second: digits_value(s, 12, 14),
    }
}

/// Whether a text starts with fourteen digits.
pub open spec fn starts_with_stamp(s: Seq<char>) -> bool {
    s.len() >= 14 && forall|i: int| 0 <= i < 14 ==> is_digit(#[trigger] s[i])
}

/// The seconds from the start of 1970 to the moment that a text stands for;
/// none if it does not start with fourteen digits, if a part is out of range,
/// or if the moment is before 1970.
pub open spec fn unix_time(s: Seq<char>) -> Option<int> {
    if starts_with_stamp(s) && stamp_of(s).in_range() && stamp_of(s).seconds() >= 0 {
        Some(stamp_of(s).seconds())
    } else {
        None
    }
}

proof fn lemma_digits(s: Seq<char>, from: int, to: int)
    requires
        0 <= from <= to <= s.len(),
        to - from <= 4,
        forall|i: int| from <= i < to ==> is_digit(#[trigger] s[i]),
    ensures
        0 <= digits_value(s, from, to) <= 9999,
        to - from <= 2 ==> digits_value(s, from, to) <= 99,
        to - from <= 3 ==> digits_value(s, from, to) <= 999,
        to - from <= 1 ==> digits_value(s, from, to) <= 9,
    decreases to - from,
{
    if from < to {
        lemma_digits(s, from, to - 1);
        assert(is_digit(s[to - 1]));
    }
}

/// The number that two or four digits make up.
fn number(s: &str, from: usize, to: usize) -> (n: i64)
    requires
        from <= to <= s@.len(),
        to - from <= 4,
        forall|i: int| from <= i < to ==> is_digit(#[trigger] s@[i]),
    ensures
        n == digits_value(s@, from as int, to as int),
        0 <= n <= 9999,
{
    let mut n: i64 = 0;
    let mut i: usize = from;
    while i < to
        invariant
            from <= i <= to <= s@.len(),
            to - from <= 4,
            forall|k: int| from <= k < to ==> is_digit(#[trigger] s@[k]),
            n == digits_value(s@, from as int, i as int),
        decreases to - i,
    {
        proof {
            lemma_digits(s@, from as int, i as int);
            assert(is_digit(s@[i as int]));
        }
        n = n * 10 + (s.get_char(i) as u32 - '0' as u32) as i64;
        i = i + 1;
    }
    proof {
        lemma_digits(s@, from as int, to as int);
    }
    n
}

/// The seconds from the start of 1970 to a moment in the form
/// `YYYYMMDDHHMMSS`, in universal time.
pub fn validtime_to_unix(s: &str) -> (t: Option<u64>)
    ensures
        match t {
            Some(secs) => unix_time(s@) == Some(secs as int),
            None => unix_time(s@) is None,
        },
{
    if s.unicode_len() < 14 {
        return None;
    }
    let mut i: usize = 0;
    while i < 14
        invariant
            i <= 14 <= s@.len(),
            forall|k: int| 0 <= k < i ==> is_digit(#[trigger] s@[k]),
        decreases 14 - i,
    {
        let c: char = s.get_char(i);
        if c < '0' || '9' < c {
            assert(!is_digit(s@[i as int]));
            return None;
        }
        i = i + 1;
    }
    let y: i64 = number(s, 0, 4);
    let mo: i64 = number(s, 4, 6);
    let d: i64 = number(s, 6, 8);
    let h: i64 = number(s, 8, 10);
    let mi: i64 = number(s, 10, 12);
    let se: i64 = number(s, 12, 14);
    if mo < 1 || 12 < mo || d < 1 || 31 < d || h > 23 || mi > 59 || se > 60 {
        return None;
    }
    proof {
        lemma_day_bounds(y as int, mo as int, d as int);
    }
    let days: i64 = days_from_civil(y, mo, d);
    let secs: i64 = days * 86_400 + h * 3_600 + mi * 60 + se;
    if secs < 0 {
        None
    } else {
        Some(secs as u64)
    }
}

/// Days of years of four digits are fewer than ten million.
proof fn lemma_day_bounds(y: int, m: int, d: int)
    requires
        0 <= y <= 9999,
        1 <= m <= 12,
        1 <= d <= 31,
    ensures
        -10_000_000 <= day_number(y, m, d) <= 10_000_000,
{
    lemma_days_before_year(y);
    lemma_months(y, m);
}

proof fn lemma_years_ascend(a: int, b: int)
    requires
        a < b,
    ensures
        days_before_year(a) + year_days(a) <= days_before_year(b),
    decreases b - a,
{
    lemma_days_before_year(a);
    lemma_days_before_year(b);
    lemma_year_step(a);
    if a + 1 < b {
        lemma_years_ascend(a + 1, b);
        lemma_days_before_year(a + 1);
    }
}

proof fn lemma_months_ascend(y: int, a: int, b: int)
    requires
        1 <= a <= b <= 12,
    ensures
        a < b ==> days_before_month(y, a) + month_days(y, a) <= days_before_month(y, b),
        0 <= days_before_month(y, a),
        days_before_month(y, a) + month_days(y, a) <= year_days(y),
{
    reveal_with_fuel(days_before_month, 13);
    assert(a == 1 || a == 2 || a == 3 || a == 4 || a == 5 || a == 6 || a == 7 || a == 8 || a == 9
        || a == 10 || a == 11 || a == 12);
    assert(b == 1 || b == 2 || b == 3 || b == 4 || b == 5 || b == 6 || b == 7 || b == 8 || b == 9
        || b == 10 || b == 11 || b == 12);
}

/// Time goes forward: of two moments that exist, the one that stands earlier
/// in the calendar and on the clock has the smaller number of seconds.
pub proof fn earlier_means_fewer_seconds(a: Stamp, b: Stamp)
    requires
        a.exists_in_calendar(),
        b.exists_in_calendar(),
        a.earlier(b),
    ensures
        a.seconds() < b.seconds(),
{
    let da = day_number(a.year, a.month, a.day);
    let db = day_number(b.year, b.month, b.day);
    lemma_months_ascend(a.year, a.month, a.month);
    lemma_months_ascend(b.year, b.month, b.month);
    if a.year < b.year {
        lemma_years_ascend(a.year, b.year);
        assert(da < db);
    } else if a.month < b.month {
        lemma_months_ascend(a.year, a.month, b.month);
        assert(da < db);
    }
}

/// Within a day seconds are counted as on the clock: five minutes later is 300
/// seconds later.
pub proof fn same_day_difference(a: Stamp, b: Stamp)
    requires
        a.year == b.year,
        a.month == b.month,
        a.day == b.day,
    ensures
        b.seconds() - a.seconds() == (b.hour - a.hour) * 3_600 + (b.minute - a.minute) * 60 + (
        b.second - a.second),
{
}

/// The count starts with 1970: its first moment is number 0.
pub proof fn epoch_is_zero()
    ensures
        (Stamp { year: 1970, month: 1, day: 1, hour: 0, minute: 0, second: 0 }).seconds() == 0,
{
}

impl Stamp {
    /// The next moment, as calendar and clock go.
    pub open spec fn next(self) -> Stamp {
        if self.second < 59 {
            Stamp { second: self.second + 1, ..self }
        } else if self.minute < 59 {
            Stamp { minute: self.minute + 1, second: 0, ..self }
        } else if self.hour < 23 {
            Stamp { hour: self.hour + 1, minute: 0, second: 0, ..self }
        } else if self.day < month_days(self.year, self.month) {
            Stamp { day: self.day + 1, hour: 0, minute: 0, second: 0, ..self }
        } else if self.month < 12 {
            Stamp { month: self.month + 1, day: 1, hour: 0, minute: 0, second: 0, ..self }
        } else {
            Stamp { year: self.year + 1, month: 1, day: 1, hour: 0, minute: 0, second: 0 }
        }
    }

    /// The moment `k` seconds later, as calendar and clock go.
    pub open spec fn later(self, k: nat) -> Stamp
        decreases k,
    {
        if k == 0 {
            self
        } else {
            self.later((k - 1) as nat).next()
        }
    }
}

proof fn lemma_next(a: Stamp)
    requires
        a.exists_in_calendar(),
    ensures
        a.next().exists_in_calendar(),
        a.next().seconds() == a.seconds() + 1,
        a.next().year >= a.year,
{
    let b = a.next();
    if a.second == 59 && a.minute == 59 && a.hour == 23 && a.day == month_days(a.year, a.month) {
        if a.month == 12 {
            lemma_days_before_year(a.year);
            lemma_days_before_year(a.year + 1);
            lemma_year_step(a.year);
            lemma_months(a.year, 12);
        }
        assert(day_number(b.year, b.month, b.day) == day_number(a.year, a.month, a.day) + 1);
    }
}

/// Seconds go with the clock: a moment `k` seconds later, across minutes, days,
/// months and years, has a number larger by `k`.
pub proof fn later_is_more_seconds(a: Stamp, k: nat)
    requires
        a.exists_in_calendar(),
    ensures
        a.later(k).exists_in_calendar(),
        a.later(k).seconds() == a.seconds() + k,
        a.later(k).year >= a.year,
    decreases k,
{
    if k > 0 {
        later_is_more_seconds(a, (k - 1) as nat);
        lemma_next(a.later((k - 1) as nat));
    }
}

/// Of two texts for moments from 1970 on, the second `k` seconds after the
/// first, the times differ by `k`.
pub proof fn times_differ_as_the_clock_does(a: Seq<char>, b: Seq<char>, k: nat)
    requires
        starts_with_stamp(a),
        starts_with_stamp(b),
        stamp_of(a).exists_in_calendar(),
        stamp_of(a).year >= 1970,
        stamp_of(b) == stamp_of(a).later(k),
    ensures
        unix_time(a) matches Some(s) && unix_time(b) == Some(s + k),
{
    later_is_more_seconds(stamp_of(a), k);
    lemma_from_1970(stamp_of(a));
}

proof fn lemma_from_1970(a: Stamp)
    requires
        a.exists_in_calendar(),
        a.year >= 1970,
    ensures
        a.seconds() >= 0,
{
    if a.year > 1970 {
        lemma_years_ascend(1970, a.year);
    }
    lemma_months_ascend(a.year, a.month, a.month);
}

/// Texts stand in the order of their times: where two texts for moments that
/// exist first differ in a digit, the smaller digit means the earlier time.
pub proof fn text_order_is_time_order(a: Seq<char>, b: Seq<char>, at: int)
    requires
        starts_with_stamp(a),
        starts_with_stamp(b),
        stamp_of(a).exists_in_calendar(),
        stamp_of(b).exists_in_calendar(),
        0 <= at < 14,
        forall|i: int| 0 <= i < at ==> a[i] == b[i],
        a[at] < b[at],
    ensures
        stamp_of(a).earlier(stamp_of(b)),
        stamp_of(a).seconds() < stamp_of(b).seconds(),
{
    let (from, to): (int, int) = if at < 4 {
        (0, 4)
    } else if at < 6 {
        (4, 6)
    } else if at < 8 {
        (6, 8)
    } else if at < 10 {
        (8, 10)
    } else if at < 12 {
        (10, 12)
    } else {
        (12, 14)
    };
    lemma_smaller_digit(a, b, from, to, at);
    if from >= 4 {
        lemma_same_digits(a, b, 0, 4);
    }
    if from >= 6 {
        lemma_same_digits(a, b, 4, 6);
    }
    if from >= 8 {
        lemma_same_digits(a, b, 6, 8);
    }
    if from >= 10 {
        lemma_same_digits(a, b, 8, 10);
    }
    if from >= 12 {
        lemma_same_digits(a, b, 10, 12);
    }
    earlier_means_fewer_seconds(stamp_of(a), stamp_of(b));
}

proof fn lemma_same_digits(a: Seq<char>, b: Seq<char>, from: int, to: int)
    requires
        0 <= from <= to,
        forall|i: int| from <= i < to ==> a[i] == b[i],
    ensures
        digits_value(a, from, to) == digits_value(b, from, to),
    decreases to - from,
{
    if from < to {
        lemma_same_digits(a, b, from, to - 1);
    }
}

proof fn lemma_smaller_digit(a: Seq<char>, b: Seq<char>, from: int, to: int, at: int)
    requires
        0 <= from <= at < to <= a.len(),
        to <= b.len(),
        forall|i: int| from <= i < to ==> is_digit(#[trigger] a[i]),
        forall|i: int| from <= i < to ==> is_digit(#[trigger] b[i]),
        forall|i: int| from <= i < at ==> a[i] == b[i],
        a[at] < b[at],
    ensures
        digits_value(a, from, to) < digits_value(b, from, to),
    decreases to,
{
    assert(is_digit(a[to - 1]) && is_digit(b[to - 1]));
    if at == to - 1 {
        lemma_same_digits(a, b, from, at);
    } else {
        lemma_smaller_digit(a, b, from, to - 1, at);
    }
}

/// Years and months are as long as the Gregorian calendar makes them: a year has
/// 365 days, one more every fourth year, but not in the last year of three centuries
/// out of four; and 400 years have 146,097 days.
pub proof fn years_and_months_have_their_days(y: int, m: int)
    requires
        1 <= m <= 12,
    ensures
        day_number(y + 1, 1, 1) - day_number(y, 1, 1) == if (y % 4 == 0 && y % 100 != 0) || y % 400
            == 0 {
            366int
        } else {
            365
        },
        day_number(y + 400, 1, 1) - day_number(y, 1, 1) == 146_097,
        m < 12 ==> day_number(y, m + 1, 1) - day_number(y, m, 1) == if m == 2 {
            day_number(y + 1, 1, 1) - day_number(y, 1, 1) - 337
        } else {
            seq![31int, 28, 31, 30, 31, 30, 31, 31, 30, 31, 30, 31][m - 1]
        },
        day_number(y + 1, 1, 1) - day_number(y, 12, 1) == 31,
{
    lemma_days_before_year(y);
    lemma_days_before_year(y + 1);
    lemma_days_before_year(y + 400);
    lemma_year_step(y);
    assert(year_sum(y + 400) == year_sum(y) + 146_097) by {
        assert((y + 400 + 3) / 4 == (y + 3) / 4 + 100);
        assert((y + 400 + 99) / 100 == (y + 99) / 100 + 4);
        assert((y + 400 + 399) / 400 == (y + 399) / 400 + 1);
    }
    assert(y % 400 == 0 ==> y % 4 == 0);
    lemma_month_lengths(y, m);
}

proof fn lemma_month_lengths(y: int, m: int)
    requires
        1 <= m <= 12,
    ensures
        days_before_month(y, 1) == 0,
        days_before_month(y, 12) == year_days(y) - 31,
        m < 12 ==> days_before_month(y, m + 1) - days_before_month(y, m) == if m == 2 {
            year_days(y) - 337
        } else {
            seq![31int, 28, 31, 30, 31, 30, 31, 31, 30, 31, 30, 31][m - 1]
        },
{
    reveal_with_fuel(days_before_month, 13);
    assert(m == 1 || m == 2 || m == 3 || m == 4 || m == 5 || m == 6 || m == 7 || m == 8 || m == 9
        || m == 10 || m == 11 || m == 12);
}

/// Days are counted one by one, past the end of the month too.
pub proof fn days_are_counted_one_by_one(y: int, m: int, d: int, k: int)
    ensures
        day_number(y, m, d + k) == day_number(y, m, d) + k,
{
}

/// Two digits.
pub open spec fn two_digits(n: int) -> Seq<char> {
    seq![digit_char(n / 10), digit_char(n % 10)]
}

/// A moment as fourteen digits: year, month, day, hour, minute and second.
pub open spec fn stamp_text(t: Stamp) -> Seq<char> {
    two_digits(t.year / 100) + two_digits(t.year % 100) + two_digits(t.month) + two_digits(t.day)
        + two_digits(t.hour) + two_digits(t.minute) + two_digits(t.second)
}

/// A moment reads back from its text, whatever follows. From 1970 on a text stands
/// for a time exactly if month, day, hour, minute and second are in range, where a
/// month has up to 31 days and a minute up to 61 seconds; before 1970 for none.
pub proof fn moments_read_back(t: Stamp, rest: Seq<char>)
    requires
        0 <= t.year <= 9999,
        0 <= t.month <= 99,
        0 <= t.day <= 99,
        0 <= t.hour <= 99,
        0 <= t.minute <= 99,
        0 <= t.second <= 99,
    ensures
        starts_with_stamp(stamp_text(t) + rest),
        stamp_of(stamp_text(t) + rest) == t,
        t.year >= 1970 ==> (unix_time(stamp_text(t) + rest) is Some <==> 1 <= t.month <= 12 && 1
            <= t.day <= 31 && t.hour < 24 && t.minute < 60 && t.second <= 60),
        t.year < 1970 && t.second < 60 ==> unix_time(stamp_text(t) + rest) is None,
        unix_time(stamp_text(t) + rest) matches Some(s) ==> s == t.seconds(),
{
    let s = stamp_text(t) + rest;
    assert(s.len() >= 14);
    lemma_pair(s, 0, t.year / 100);
    lemma_pair(s, 2, t.year % 100);
    lemma_pair(s, 4, t.month);
    lemma_pair(s, 6, t.day);
    lemma_pair(s, 8, t.hour);
    lemma_pair(s, 10, t.minute);
    lemma_pair(s, 12, t.second);
    reveal_with_fuel(digits_value, 5);
    assert(digits_value(s, 0, 4) == t.year) by {
        assert(digits_value(s, 0, 2) == t.year / 100);
        assert(digits_value(s, 2, 4) == t.year % 100);
    }
    assert forall|i: int| 0 <= i < 14 implies is_digit(#[trigger] s[i]) by {
        assert(is_digit(s[0]) && is_digit(s[1]) && is_digit(s[2]) && is_digit(s[3]) && is_digit(s[4])
            && is_digit(s[5]) && is_digit(s[6]) && is_digit(s[7]) && is_digit(s[8]) && is_digit(s[9])
            && is_digit(s[10]) && is_digit(s[11]) && is_digit(s[12]) && is_digit(s[13]));
    }
    if t.in_range() {
        lemma_months_ascend(t.year, t.month, t.month);
        if t.year >= 1970 {
            if t.year > 1970 {
                lemma_years_ascend(1970, t.year);
            }
            assert(days_before_year(1970) == 0);
            assert(day_number(t.year, t.month, t.day) >= 0);
        } else {
            lemma_years_ascend(t.year, 1970);
            lemma_months(t.year, t.month);
            assert(days_before_month(t.year, t.month) + 31 <= year_days(t.year));
            assert(day_number(t.year, t.month, t.day) <= -1);
        }
    }
}

proof fn lemma_pair(s: Seq<char>, at: int, n: int)
    requires
        0 <= at,
        at + 2 <= s.len(),
        0 <= n <= 99,
        s[at] == digit_char(n / 10),
        s[at + 1] == digit_char(n % 10),
    ensures
        is_digit(s[at]),
        is_digit(s[at + 1]),
        digits_value(s, at, at + 2) == n,
        s[at] as int - '0' as int == n / 10,
        s[at + 1] as int - '0' as int == n % 10,
{
    reveal_with_fuel(digits_value, 3);
}

} // verus!
