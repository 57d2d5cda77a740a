//! Windowed totals: for a user and a date range (open at either end),
//! the pair (household total spent, the user's attributable share), and the
//! five named windows the status page shows.

use vstd::prelude::*;

use crate::date::{
    Date, DateBound, date_le, date_lt, date_minus_days, date_minus_days_spec, date_of,
    previous_month_first, valid_date, year_in_range,
};
use crate::money::{Currency, abs_of};
use crate::records::{Expenditure, Split};
use crate::settle::Query;

verus! {

/// A date range built from two independent bounds. A record without a date
/// falls in no bounded range but in the all-time range, matching a store
/// where a comparison with a missing date never holds.
pub struct DateRange {
    pub start: DateBound,
    pub end: DateBound,
}

/// Whether `d` satisfies the start bound.
pub open spec fn start_ok(d: Date, b: DateBound) -> bool {
    match b {
        DateBound::Unbounded => true,
        DateBound::Included(s) => date_le(s, d),
        DateBound::Excluded(s) => date_lt(s, d),
    }
}

/// Whether `d` satisfies the end bound.
pub open spec fn end_ok(d: Date, b: DateBound) -> bool {
    match b {
        DateBound::Unbounded => true,
        DateBound::Included(e) => date_le(d, e),
        DateBound::Excluded(e) => date_lt(d, e),
    }
}

/// Whether a record dated `od` falls in the range.
pub open spec fn in_range(od: Option<Date>, r: DateRange) -> bool {
    match od {
        Option::None => r.start is Unbounded && r.end is Unbounded,
        Option::Some(d) => start_ok(d, r.start) && end_ok(d, r.end),
    }
}

/// The sum of the amounts of the expenditures dated within the range.
pub open spec fn household_total(s: Seq<Expenditure>, r: DateRange) -> int
    decreases s.len(),
{
    if s.len() == 0 {
        0
    } else {
        (if in_range(s.first().date, r) {
            s.first().amount@
        } else {
            0
        }) + household_total(s.drop_first(), r)
    }
}

/// The sum of the amounts' magnitudes, a bound on every windowed total.
pub open spec fn exp_abs_total(s: Seq<Expenditure>) -> int
    decreases s.len(),
{
    if s.len() == 0 {
        0
    } else {
        abs_of(s.first().amount@) + exp_abs_total(s.drop_first())
    }
}

/// Whether some expenditure with id `eid` is dated within the range.
pub open spec fn expenditure_in_range(s: Seq<Expenditure>, eid: int, r: DateRange) -> bool {
    exists|i: int| 0 <= i < s.len() && (#[trigger] s[i]).id == eid && in_range(s[i].date, r)
}

/// The sum of user `u`'s split shares whose expenditure is dated within the
/// range.
pub open spec fn user_total(exps: Seq<Expenditure>, s: Seq<Split>, u: int, r: DateRange) -> int
    decreases s.len(),
{
    if s.len() == 0 {
        0
    } else {
        (if s.first().user_id == u && expenditure_in_range(exps, s.first().expenditure_id as int, r) {
            s.first().share@
        } else {
            0
        }) + user_total(exps, s.drop_first(), u, r)
    }
}

/// The sum of the shares' magnitudes, a bound on every user total.
pub open spec fn split_abs_total(s: Seq<Split>) -> int
    decreases s.len(),
{
    if s.len() == 0 {
        0
    } else {
        abs_of(s.first().share@) + split_abs_total(s.drop_first())
    }
}

/// Extending a prefix of the expenditures by one record extends the window
/// sums by that record's contribution.
proof fn lemma_household_take_step(s: Seq<Expenditure>, r: DateRange, i: int)
    requires
        0 <= i < s.len(),
    ensures
        household_total(s.take(i + 1), r) == household_total(s.take(i), r) + (if in_range(
            s[i].date,
            r,
        ) {
            s[i].amount@
        } else {
            0
        }),
        exp_abs_total(s.take(i + 1)) == exp_abs_total(s.take(i)) + abs_of(s[i].amount@),
    decreases i,
{
    if i == 0 {
        assert(s.take(1).drop_first() =~= s.take(0));
    } else {
        assert(s.take(i + 1).drop_first() =~= s.drop_first().take(i));
        assert(s.take(i).drop_first() =~= s.drop_first().take(i - 1));
        lemma_household_take_step(s.drop_first(), r, i - 1);
    }
}

/// Window sums are bounded in magnitude by the magnitude sums.
proof fn lemma_household_bounded(s: Seq<Expenditure>, r: DateRange)
    ensures
        exp_abs_total(s) >= 0,
        abs_of(household_total(s, r)) <= exp_abs_total(s),
    decreases s.len(),
{
    if s.len() > 0 {
        lemma_household_bounded(s.drop_first(), r);
    }
}

/// A prefix's magnitude sum never exceeds the whole list's.
proof fn lemma_exp_abs_take_le(s: Seq<Expenditure>, i: int)
    requires
        0 <= i <= s.len(),
    ensures
        exp_abs_total(s.take(i)) <= exp_abs_total(s),
    decreases s.len() - i,
{
    if i == s.len() {
        assert(s.take(i) =~= s);
    } else {
        lemma_household_take_step(s, DateRange { start: DateBound::Unbounded, end: DateBound::Unbounded }, i);
        lemma_exp_abs_take_le(s, i + 1);
    }
}

/// Extending a prefix of the splits by one record extends the user sums by
/// that record's contribution.
proof fn lemma_user_take_step(exps: Seq<Expenditure>, s: Seq<Split>, u: int, r: DateRange, i: int)
    requires
        0 <= i < s.len(),
    ensures
        user_total(exps, s.take(i + 1), u, r) == user_total(exps, s.take(i), u, r) + (if s[i].user_id
            == u && expenditure_in_range(exps, s[i].expenditure_id as int, r) {
            s[i].share@
        } else {
            0
        }),
        split_abs_total(s.take(i + 1)) == split_abs_total(s.take(i)) + abs_of(s[i].share@),
    decreases i,
{
    if i == 0 {
        assert(s.take(1).drop_first() =~= s.take(0));
    } else {
        assert(s.take(i + 1).drop_first() =~= s.drop_first().take(i));
        assert(s.take(i).drop_first() =~= s.drop_first().take(i - 1));
        lemma_user_take_step(exps, s.drop_first(), u, r, i - 1);
    }
}

/// User sums are bounded in magnitude by the shares' magnitude sum.
proof fn lemma_user_bounded(exps: Seq<Expenditure>, s: Seq<Split>, u: int, r: DateRange)
    ensures
        split_abs_total(s) >= 0,
        abs_of(user_total(exps, s, u, r)) <= split_abs_total(s),
    decreases s.len(),
{
    if s.len() > 0 {
        lemma_user_bounded(exps, s.drop_first(), u, r);
    }
}

/// A prefix's magnitude sum never exceeds the whole list's.
proof fn lemma_split_abs_take_le(exps: Seq<Expenditure>, s: Seq<Split>, i: int)
    requires
        0 <= i <= s.len(),
    ensures
        split_abs_total(s.take(i)) <= split_abs_total(s),
    decreases s.len() - i,
{
    if i == s.len() {
        assert(s.take(i) =~= s);
    } else {
        lemma_user_take_step(
            exps,
            s,
            0,
            DateRange { start: DateBound::Unbounded, end: DateBound::Unbounded },
            i,
        );
        lemma_split_abs_take_le(exps, s, i + 1);
    }
}

/// Whether an expenditure with the given id is dated within the range.
fn has_expenditure_in_range(exps: &Vec<Expenditure>, eid: i32, range: &DateRange) -> (r: bool)
    ensures
        r == expenditure_in_range(exps@, eid as int, *range),
{
    let mut i: usize = 0;
    while i < exps.len()
        invariant
            i <= exps@.len(),
            forall|k: int|
                0 <= k < i ==> !((#[trigger] exps@[k]).id == eid as int && in_range(
                    exps@[k].date,
                    *range,
                )),
        decreases exps@.len() - i,
    {
        if exps[i].id == eid {
            let matches = match &exps[i].date {
                Option::Some(d) => {
                    let s_ok = match &range.start {
                        DateBound::Unbounded => true,
                        DateBound::Included(s) => s.le(d),
                        DateBound::Excluded(s) => s.lt(d),
                    };
                    let e_ok = match &range.end {
                        DateBound::Unbounded => true,
                        DateBound::Included(e) => d.le(e),
                        DateBound::Excluded(e) => d.lt(e),
                    };
                    s_ok && e_ok
                },
                Option::None => {
                    match (&range.start, &range.end) {
                        (DateBound::Unbounded, DateBound::Unbounded) => true,
                        _ => false,
                    }
                },
            };
            if matches {
                return true;
            }
        }
        i = i + 1;
    }
    false
}

/// Whether a record dated `od` falls in the range.
fn record_in_range(od: &Option<Date>, range: &DateRange) -> (r: bool)
    ensures
        r == in_range(*od, *range),
{
    match od {
        Option::Some(d) => {
            let s_ok = match &range.start {
                DateBound::Unbounded => true,
                DateBound::Included(s) => s.le(d),
                DateBound::Excluded(s) => s.lt(d),
            };
            let e_ok = match &range.end {
                DateBound::Unbounded => true,
                DateBound::Included(e) => d.le(e),
                DateBound::Excluded(e) => d.lt(e),
            };
            s_ok && e_ok
        },
        Option::None => {
            match (&range.start, &range.end) {
                (DateBound::Unbounded, DateBound::Unbounded) => true,
                _ => false,
            }
        },
    }
}

/// The five named windows of household and per-user totals.
pub struct Totals {
    pub total: (Currency, Currency),
    pub past_year: (Currency, Currency),
    pub year_to_date: (Currency, Currency),
    pub month_to_date: (Currency, Currency),
    pub last_month: (Currency, Currency),
}

/// The pair (household total, user total) over one range.
pub open spec fn range_totals(
    exps: Seq<Expenditure>,
    splits: Seq<Split>,
    u: int,
    r: DateRange,
) -> (int, int) {
    (household_total(exps, r), user_total(exps, splits, u, r))
}

/// The start of the trailing-365-day window, as chrono computes it.
pub open spec fn past_year_start(today: Date) -> Date {
    date_of(
        date_minus_days_spec(today.year as int, today.month as int, today.day as int, 365).0,
        date_minus_days_spec(today.year as int, today.month as int, today.day as int, 365).1,
        date_minus_days_spec(today.year as int, today.month as int, today.day as int, 365).2,
    )
}

/// The range starting at `d` (inclusive), unbounded above.
pub open spec fn window_from(d: Date) -> DateRange {
    DateRange { start: DateBound::Included(d), end: DateBound::Unbounded }
}

/// The unbounded (all-time) range.
pub open spec fn window_all() -> DateRange {
    DateRange { start: DateBound::Unbounded, end: DateBound::Unbounded }
}

/// The half-open range from `a` (inclusive) to `b` (exclusive).
pub open spec fn window_between(a: Date, b: Date) -> DateRange {
    DateRange { start: DateBound::Included(a), end: DateBound::Excluded(b) }
}

impl Query {
    /// Computes, over the expenditures dated within the range, the pair of
    /// the household's total spending and the given user's attributable
    /// share (their splits of in-range expenditures).
    pub fn get_totals_for_date_range(
        expenditures: &Vec<Expenditure>,
        splits: &Vec<Split>,
        user_id: i32,
        range: &DateRange,
    ) -> (r: (Currency, Currency))
        requires
            exp_abs_total(expenditures@) <= i64::MAX,
            split_abs_total(splits@) <= i64::MAX,
        ensures
            r.0@ == household_total(expenditures@, *range),
            r.1@ == user_total(expenditures@, splits@, user_id as int, *range),
    {
        let mut household: i64 = 0;
        let mut i: usize = 0;
        while i < expenditures.len()
            invariant
                i <= expenditures@.len(),
                exp_abs_total(expenditures@) <= i64::MAX,
                household as int == household_total(expenditures@.take(i as int), *range),
                abs_of(household as int) <= exp_abs_total(expenditures@.take(i as int)),
            decreases expenditures@.len() - i,
        {
            proof {
                lemma_household_take_step(expenditures@, *range, i as int);
                lemma_exp_abs_take_le(expenditures@, i + 1);
            }
            if record_in_range(&expenditures[i].date, range) {
                household = household + expenditures[i].amount.as_minor();
            }
            i = i + 1;
        }
        proof {
            assert(expenditures@.take(expenditures@.len() as int) =~= expenditures@);
        }

        let mut mine: i64 = 0;
        let mut j: usize = 0;
        while j < splits.len()
            invariant
                j <= splits@.len(),
                split_abs_total(splits@) <= i64::MAX,
                mine as int == user_total(
                    expenditures@,
                    splits@.take(j as int),
                    user_id as int,
                    *range,
                ),
                abs_of(mine as int) <= split_abs_total(splits@.take(j as int)),
            decreases splits@.len() - j,
        {
            proof {
                lemma_user_take_step(expenditures@, splits@, user_id as int, *range, j as int);
                lemma_split_abs_take_le(expenditures@, splits@, j + 1);
            }
            if splits[j].user_id == user_id && has_expenditure_in_range(
                expenditures,
                splits[j].expenditure_id,
                range,
            ) {
                mine = mine + splits[j].share.as_minor();
            }
            j = j + 1;
        }
        proof {
            assert(splits@.take(splits@.len() as int) =~= splits@);
        }
        (Currency::from_minor(household), Currency::from_minor(mine))
    }

    /// Computes the five named windows for a user: all time, the trailing
    /// 365 days, the year to date, the month to date, and the previous
    /// calendar month (half-open at the current month's first day).
    pub fn get_totals(
        expenditures: &Vec<Expenditure>,
        splits: &Vec<Split>,
        user_id: i32,
        today: Date,
    ) -> (r: Totals)
        requires
            exp_abs_total(expenditures@) <= i64::MAX,
            split_abs_total(splits@) <= i64::MAX,
            valid_date(today),
            year_in_range(today.year as int),
        ensures
            (r.total.0@, r.total.1@) == range_totals(
                expenditures@,
                splits@,
                user_id as int,
                window_all(),
            ),
            (r.past_year.0@, r.past_year.1@) == range_totals(
                expenditures@,
                splits@,
                user_id as int,
                window_from(past_year_start(today)),
            ),
            (r.year_to_date.0@, r.year_to_date.1@) == range_totals(
                expenditures@,
                splits@,
                user_id as int,
                window_from(Date { year: today.year, month: 1, day: 1 }),
            ),
            (r.month_to_date.0@, r.month_to_date.1@) == range_totals(
                expenditures@,
                splits@,
                user_id as int,
                window_from(Date { year: today.year, month: today.month, day: 1 }),
            ),
            (r.last_month.0@, r.last_month.1@) == range_totals(
                expenditures@,
                splits@,
                user_id as int,
                window_between(
                    previous_month_first(Date { year: today.year, month: today.month, day: 1 }),
                    Date { year: today.year, month: today.month, day: 1 },
                ),
            ),
    {
        let first_of_month = today.first_of_month();
        let year_ago = date_minus_days(today, 365);
        let jan_first = today.first_of_year();
        let prev_month = first_of_month.first_of_previous_month();
        Totals {
            total: Self::get_totals_for_date_range(
                expenditures,
                splits,
                user_id,
                &DateRange { start: DateBound::Unbounded, end: DateBound::Unbounded },
            ),
            past_year: Self::get_totals_for_date_range(
                expenditures,
                splits,
                user_id,
                &DateRange { start: DateBound::Included(year_ago), end: DateBound::Unbounded },
            ),
            year_to_date: Self::get_totals_for_date_range(
                expenditures,
                splits,
                user_id,
                &DateRange { start: DateBound::Included(jan_first), end: DateBound::Unbounded },
            ),
            month_to_date: Self::get_totals_for_date_range(
                expenditures,
                splits,
                user_id,
                &DateRange { start: DateBound::Included(first_of_month), end: DateBound::Unbounded },
            ),
            last_month: Self::get_totals_for_date_range(
                expenditures,
                splits,
                user_id,
                &DateRange {
                    start: DateBound::Included(prev_month),
                    end: DateBound::Excluded(first_of_month),
                },
            ),
        }
    }
}

} // verus!
