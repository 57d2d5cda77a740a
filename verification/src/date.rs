//! Calendar dates for the windowed totals aggregator: a plain
//! year/month/day value with a total order, the month and year boundaries
//! the named windows start at, and day arithmetic delegated to chrono.

use vstd::prelude::*;

use crate::text::{all_digits, digits_val, is_digit};

verus! {

/// A proleptic-Gregorian calendar date.
#[derive(Clone, Copy, Debug, PartialEq, Eq, Structural)]
pub struct Date {
    pub year: i32,
    pub month: u8,
    pub day: u8,
}

/// Whether `y` is a leap year.
pub open spec fn is_leap_year(y: int) -> bool {
    y % 4 == 0 && (y % 100 != 0 || y % 400 == 0)
}

/// The number of days in month `m` of year `y`.
pub open spec fn days_in_month(y: int, m: int) -> int {
    if m == 2 {
        if is_leap_year(y) {
            29
        } else {
            28
        }
    } else if m == 4 || m == 6 || m == 9 || m == 11 {
        30
    } else {
        31
    }
}

/// A well-formed calendar date.
pub open spec fn valid_date(d: Date) -> bool {
    &&& 1 <= d.month <= 12
    &&& 1 <= d.day <= days_in_month(d.year as int, d.month as int)
}

/// The years over which the aggregator's window arithmetic is defined: deep
/// enough into the calendar that a trailing year exists, and inside the
/// range chrono's `NaiveDate` supports.
pub open spec fn year_in_range(y: int) -> bool {
    2 <= y <= 262142
}

/// One end of a date range: open, or closed at a date, or excluding it.
pub enum DateBound {
    Unbounded,
    Included(Date),
    Excluded(Date),
}

/// The date with the given field values.
pub open spec fn date_of(y: int, m: int, d: int) -> Date {
    Date { year: y as i32, month: m as u8, day: d as u8 }
}

/// Chronological order on dates: year, then month, then day.
pub open spec fn date_le(a: Date, b: Date) -> bool {
    ||| a.year < b.year
    ||| (a.year == b.year && a.month < b.month)
    ||| (a.year == b.year && a.month == b.month && a.day <= b.day)
}

pub open spec fn date_lt(a: Date, b: Date) -> bool {
    date_le(a, b) && a != b
}

impl Date {
    /// Chronological comparison: this date on or before `other`.
    pub fn le(&self, other: &Date) -> (r: bool)
        ensures
            r == date_le(*self, *other),
    {
        if self.year != other.year {
            self.year < other.year
        } else if self.month != other.month {
            self.month < other.month
        } else {
            self.day <= other.day
        }
    }

    /// Chronological comparison: this date strictly before `other`.
    pub fn lt(&self, other: &Date) -> (r: bool)
        ensures
            r == date_lt(*self, *other),
    {
        if self.year != other.year {
            self.year < other.year
        } else if self.month != other.month {
            self.month < other.month
        } else {
            self.day < other.day
        }
    }

    /// The first day of this date's month.
    pub fn first_of_month(&self) -> (r: Date)
        requires
            valid_date(*self),
        ensures
            valid_date(r),
            r.year == self.year && r.month == self.month && r.day == 1,
    {
        Date { year: self.year, month: self.month, day: 1 }
    }

    /// The first day of this date's year.
    pub fn first_of_year(&self) -> (r: Date)
        requires
            valid_date(*self),
        ensures
            valid_date(r),
            r.year == self.year && r.month == 1 && r.day == 1,
    {
        Date { year: self.year, month: 1, day: 1 }
    }

    /// The first day of the month before this date's month.
    pub fn first_of_previous_month(&self) -> (r: Date)
        requires
            valid_date(*self),
            self.year >= 2,
        ensures
            valid_date(r),
            r == previous_month_first(*self),
    {
        if self.month == 1 {
            Date { year: self.year - 1, month: 12, day: 1 }
        } else {
            Date { year: self.year, month: self.month - 1, day: 1 }
        }
    }
}

/// The first day of the month before `d`'s month.
pub open spec fn previous_month_first(d: Date) -> Date {
    if d.month == 1 {
        Date { year: (d.year - 1) as i32, month: 12, day: 1 }
    } else {
        Date { year: d.year, month: (d.month - 1) as u8, day: 1 }
    }
}

/// The calendar date `n` days before the date `(y, m, d)`, as chrono's
/// proleptic-Gregorian day arithmetic defines it.
pub uninterp spec fn date_minus_days_spec(y: int, m: int, d: int, n: int) -> (int, int, int);

/// Relies on chrono's `NaiveDate`: `from_ymd_opt` accepts every well-formed
/// date in its supported year range, and subtracting `Days` yields the
/// calendar date that many days earlier. The preconditions keep both steps
/// inside chrono's range, where neither panics.
#[verifier::external_body]
pub fn date_minus_days(date: Date, n: u32) -> (r: Date)
    requires
        valid_date(date),
        year_in_range(date.year as int),
        n <= 365,
    ensures
        valid_date(r),
        (r.year as int, r.month as int, r.day as int) == date_minus_days_spec(
            date.year as int,
            date.month as int,
            date.day as int,
            n as int,
        ),
        r == date_of(
            date_minus_days_spec(date.year as int, date.month as int, date.day as int, n as int).0,
            date_minus_days_spec(date.year as int, date.month as int, date.day as int, n as int).1,
            date_minus_days_spec(date.year as int, date.month as int, date.day as int, n as int).2,
        ),
{
    let d = chrono::NaiveDate::from_ymd_opt(date.year, date.month as u32, date.day as u32).unwrap();
    let e = d - chrono::Days::new(n as u64);
    Date {
        year: chrono::Datelike::year(&e),
        month: chrono::Datelike::month(&e) as u8,
        day: chrono::Datelike::day(&e) as u8,
    }
}

/// Relies on chrono's local clock: `Local::now().date_naive()` is today's
/// calendar date. Nothing is assumed of which date comes back beyond its
/// being well-formed.
#[verifier::external_body]
pub fn today() -> (r: Date)
    ensures
        valid_date(r),
{
    let now = chrono::Local::now().date_naive();
    Date {
        year: chrono::Datelike::year(&now),
        month: chrono::Datelike::month(&now) as u8,
        day: chrono::Datelike::day(&now) as u8,
    }
}

/// The index of the first '/' in `s`, or `s.len()` if there is none.
pub open spec fn first_slash(s: Seq<char>) -> int
    decreases s.len(),
{
    if s.len() == 0 {
        0
    } else if s[0] == '/' {
        0
    } else {
        1 + first_slash(s.drop_first())
    }
}

/// If no '/' occurs before position `j`, and `j` is the end or a '/', then
/// `j` is the first slash.
proof fn lemma_first_slash_at(s: Seq<char>, j: int)
    requires
        0 <= j <= s.len(),
        forall|k: int| 0 <= k < j ==> (#[trigger] s[k]) != '/',
        j == s.len() || s[j] == '/',
    ensures
        first_slash(s) == j,
    decreases j,
{
    if s.len() == 0 {
    } else if j == 0 {
    } else {
        assert(s[0] != '/');
        assert forall|k: int| 0 <= k < j - 1 implies (#[trigger] s.drop_first()[k]) != '/' by {
            assert(s.drop_first()[k] == s[k + 1]);
        }
        if j < s.len() {
            assert(s.drop_first()[j - 1] == s[j]);
        }
        lemma_first_slash_at(s.drop_first(), j - 1);
    }
}

/// The calendar date a "month/day/year" string denotes: one or two month
/// digits, '/', one or two day digits, '/', exactly four year digits —
/// provided they make a well-formed date. `None` for any other shape.
pub open spec fn date_of_mdy(s: Seq<char>) -> Option<Date> {
    let p = first_slash(s);
    if p >= s.len() {
        Option::None
    } else {
        let m_part = s.take(p);
        let rest = s.skip(p + 1);
        let q = first_slash(rest);
        if q >= rest.len() {
            Option::None
        } else {
            let d_part = rest.take(q);
            let y_part = rest.skip(q + 1);
            if 1 <= m_part.len() <= 2 && all_digits(m_part) && 1 <= d_part.len() <= 2
                && all_digits(d_part) && y_part.len() == 4 && all_digits(y_part) {
                let date = Date {
                    year: digits_val(y_part) as i32,
                    month: digits_val(m_part) as u8,
                    day: digits_val(d_part) as u8,
                };
                if valid_date(date) {
                    Option::Some(date)
                } else {
                    Option::None
                }
            } else {
                Option::None
            }
        }
    }
}

/// Whether `y` is a leap year; for the calendar's nonnegative years.
fn leap_year(y: i32) -> (r: bool)
    requires
        y >= 0,
    ensures
        r == is_leap_year(y as int),
{
    y % 4 == 0 && (y % 100 != 0 || y % 400 == 0)
}

/// The number of days in month `m` of year `y`.
fn month_days(y: i32, m: u8) -> (r: u8)
    requires
        y >= 0,
    ensures
        r as int == days_in_month(y as int, m as int),
{
    if m == 2 {
        if leap_year(y) {
            29
        } else {
            28
        }
    } else if m == 4 || m == 6 || m == 9 || m == 11 {
        30
    } else {
        31
    }
}

/// Whether the fields make a well-formed calendar date.
fn date_fields_valid(date: &Date) -> (r: bool)
    requires
        date.year >= 0,
    ensures
        r == valid_date(*date),
{
    1 <= date.month && date.month <= 12 && 1 <= date.day && date.day <= month_days(
        date.year,
        date.month,
    )
}

/// Ten to the `n`th.
pub open spec fn pow10(n: int) -> int
    decreases n,
{
    if n <= 0 {
        1
    } else {
        10 * pow10(n - 1)
    }
}

/// The value of a run of digit characters, for runs short enough that the
/// value fits comfortably in a machine word.
fn digits_value(s: &str, from: usize, to: usize) -> (r: u32)
    requires
        from <= to <= s@.len(),
        to - from <= 4,
        forall|k: int| from <= k < to ==> is_digit(#[trigger] s@[k]),
    ensures
        r as int == digits_val(s@.subrange(from as int, to as int)),
        (r as int) < pow10(to - from),
{
    proof {
        assert(pow10(0) == 1);
        assert(pow10(1) == 10);
        assert(pow10(2) == 100);
        assert(pow10(3) == 1000);
        assert(pow10(4) == 10000);
    }
    let mut acc: u32 = 0;
    let mut k: usize = from;
    while k < to
        invariant
            from <= k <= to <= s@.len(),
            to - from <= 4,
            forall|x: int| from <= x < to ==> is_digit(#[trigger] s@[x]),
            acc as int == digits_val(s@.subrange(from as int, k as int)),
            (acc as int) < pow10(k - from),
            pow10(k - from) <= 10000,
        decreases to - k,
    {
        let c = s.get_char(k);
        proof {
            assert(is_digit(s@[k as int]));
            assert(48 <= c as u32 <= 57);
            assert(s@.subrange(from as int, k + 1).drop_last() =~= s@.subrange(
                from as int,
                k as int,
            ));
            assert(s@.subrange(from as int, k + 1).last() == s@[k as int]);
            assert(pow10(k - from + 1) == 10 * pow10(k - from));
            assert(pow10(k + 1 - from) <= 10000) by {
                assert(k + 1 - from <= 4);
                assert(pow10(0) == 1);
                assert(pow10(1) == 10);
                assert(pow10(2) == 100);
                assert(pow10(3) == 1000);
                assert(pow10(4) == 10000);
                if k + 1 - from == 1 {
                } else if k + 1 - from == 2 {
                } else if k + 1 - from == 3 {
                }
            }
        }
        acc = acc * 10 + (c as u32 - 48);
        k = k + 1;
    }
    acc
}

impl Date {
    /// Parses a "month/day/year" form value into a well-formed date.
    pub fn parse_mdy(s: &str) -> (r: Option<Date>)
        ensures
            r == date_of_mdy(s@),
    {
        let n = s.unicode_len();
        // The two '/' separators.
        let mut p: usize = 0;
        while p < n && s.get_char(p) != '/'
            invariant
                p <= n,
                n == s@.len(),
                forall|k: int| 0 <= k < p ==> (#[trigger] s@[k]) != '/',
            decreases n - p,
        {
            p = p + 1;
        }
        proof {
            lemma_first_slash_at(s@, p as int);
        }
        if p == n {
            return None;
        }
        let ghost rest = s@.skip(p + 1);
        let mut p2: usize = p + 1;
        while p2 < n && s.get_char(p2) != '/'
            invariant
                p < p2 <= n,
                n == s@.len(),
                rest == s@.skip(p + 1),
                forall|k: int| p + 1 <= k < p2 ==> (#[trigger] s@[k]) != '/',
            decreases n - p2,
        {
            p2 = p2 + 1;
        }
        proof {
            assert forall|k: int| 0 <= k < p2 - p - 1 implies (#[trigger] rest[k]) != '/' by {
                assert(rest[k] == s@[p + 1 + k]);
            }
            if p2 < n {
                assert(rest[p2 - p - 1] == s@[p2 as int]);
            }
            lemma_first_slash_at(rest, p2 - p - 1);
        }
        if p2 == n {
            return None;
        }

        // The three digit runs.
        let m_len = p;
        let d_len = p2 - p - 1;
        let y_len = n - p2 - 1;
        if m_len < 1 || m_len > 2 || d_len < 1 || d_len > 2 || y_len != 4 {
            proof {
                lemma_mdy_part_shapes(s@, p as int, p2 as int);
            }
            return None;
        }
        let mut k: usize = 0;
        while k < n
            invariant
                n == s@.len(),
                k <= n,
                p < p2 < n,
                rest == s@.skip(p + 1),
                first_slash(s@) == p as int,
                first_slash(rest) == p2 - p - 1,
                1 <= p <= 2,
                1 <= p2 - p - 1 <= 2,
                n - p2 - 1 == 4,
                forall|x: int| 0 <= x < k && x != p && x != p2 ==> is_digit(#[trigger] s@[x]),
            decreases n - k,
        {
            if k != p && k != p2 {
                let c = s.get_char(k);
                let code = c as u32;
                if code < 48 || code > 57 {
                    proof {
                        assert(c as int == code as int);
                        assert(!is_digit(s@[k as int]));
                        lemma_mdy_part_shapes(s@, p as int, p2 as int);
                        if k < p {
                            assert(s@.take(p as int)[k as int] == s@[k as int]);
                            assert(!all_digits(s@.take(p as int)));
                        } else if k < p2 {
                            assert(s@.skip(p + 1).take(p2 - p - 1)[k - p - 1] == s@[k as int]);
                            assert(!all_digits(s@.skip(p + 1).take(p2 - p - 1)));
                        } else {
                            assert(s@.skip(p + 1).skip(p2 - p)[k - p2 - 1] == s@[k as int]);
                            assert(!all_digits(s@.skip(p + 1).skip(p2 - p)));
                        }
                    }
                    return None;
                }
            }
            k = k + 1;
        }
        proof {
            lemma_mdy_part_shapes(s@, p as int, p2 as int);
            assert forall|x: int| 0 <= x < s@.take(p as int).len() implies is_digit(
                #[trigger] s@.take(p as int)[x],
            ) by {
                assert(s@.take(p as int)[x] == s@[x]);
            }
            assert forall|x: int| 0 <= x < rest.take(p2 - p - 1).len() implies is_digit(
                #[trigger] rest.take(p2 - p - 1)[x],
            ) by {
                assert(rest.take(p2 - p - 1)[x] == s@[p + 1 + x]);
            }
            assert forall|x: int| 0 <= x < rest.skip(p2 - p).len() implies is_digit(
                #[trigger] rest.skip(p2 - p)[x],
            ) by {
                assert(rest.skip(p2 - p)[x] == s@[p2 + 1 + x]);
            }
        }

        let month = digits_value(s, 0, p);
        let day = digits_value(s, p + 1, p2);
        let year = digits_value(s, p2 + 1, n);
        proof {
            assert(s@.subrange(0, p as int) =~= s@.take(p as int));
            assert(s@.subrange(p + 1, p2 as int) =~= rest.take(p2 - p - 1));
            assert(s@.subrange(p2 + 1, n as int) =~= rest.skip(p2 - p));
        }
        proof {
            assert(pow10(2) == 100) by {
                assert(pow10(0) == 1);
                assert(pow10(1) == 10);
            }
            assert(pow10(1) == 10) by {
                assert(pow10(0) == 1);
            }
            assert(pow10(4) == 10000) by {
                assert(pow10(0) == 1);
                assert(pow10(1) == 10);
                assert(pow10(2) == 100);
                assert(pow10(3) == 1000);
            }
            assert(month <= 99 && day <= 99 && year <= 9999);
        }
        let date = Date { year: year as i32, month: month as u8, day: day as u8 };
        if date_fields_valid(&date) {
            Some(date)
        } else {
            None
        }
    }
}

/// Names the month, day and year parts of a string around its first two
/// separators, so the parser's exits line up with the grammar.
proof fn lemma_mdy_part_shapes(s: Seq<char>, p: int, p2: int)
    requires
        0 <= p < p2 < s.len(),
        first_slash(s) == p,
        first_slash(s.skip(p + 1)) == p2 - p - 1,
    ensures
        s.take(p).len() == p,
        s.skip(p + 1).take(p2 - p - 1).len() == p2 - p - 1,
        s.skip(p + 1).skip(p2 - p).len() == s.len() - p2 - 1,
        forall|x: int| 0 <= x < p ==> #[trigger] s.take(p)[x] == s[x],
        forall|x: int|
            0 <= x < p2 - p - 1 ==> #[trigger] s.skip(p + 1).take(p2 - p - 1)[x] == s[p + 1 + x],
        forall|x: int|
            0 <= x < s.len() - p2 - 1 ==> #[trigger] s.skip(p + 1).skip(p2 - p)[x] == s[p2 + 1
                + x],
{
    assert forall|x: int| 0 <= x < s.len() - p2 - 1 implies #[trigger] s.skip(p + 1).skip(
        p2 - p,
    )[x] == s[p2 + 1 + x] by {
        assert(s.skip(p + 1).skip(p2 - p)[x] == s.skip(p + 1)[p2 - p + x]);
    }
}

} // verus!
