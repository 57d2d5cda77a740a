use bluechips::date::{date_minus_days, today, Date};
use bluechips::money::Currency;
use bluechips::records::{Expenditure, Split};
use bluechips::settle::Query;

fn c(v: i64) -> Currency {
    Currency::from_minor(v)
}

fn d(year: i32, month: u8, day: u8) -> Date {
    Date { year, month, day }
}

#[test]
fn month_to_date_totals_for_an_even_split() {
    // An expenditure of 1200 dated within the current month, split evenly
    // between two users.
    let exps = vec![Expenditure {
        id: 1,
        spender_id: 1,
        amount: c(1200),
        description: None,
        date: Some(d(2024, 6, 10)),
    }];
    let splits = vec![
        Split { id: 1, expenditure_id: 1, user_id: 1, share: c(600) },
        Split { id: 2, expenditure_id: 1, user_id: 2, share: c(600) },
    ];
    let today = d(2024, 6, 15);
    let totals_one = Query::get_totals(&exps, &splits, 1, today);
    assert_eq!((c(1200), c(600)), totals_one.month_to_date);
    let totals_two = Query::get_totals(&exps, &splits, 2, today);
    assert_eq!((c(1200), c(600)), totals_two.month_to_date);
    // The wider windows see the same expenditure.
    assert_eq!((c(1200), c(600)), totals_one.total);
    assert_eq!((c(1200), c(600)), totals_one.year_to_date);
    assert_eq!((c(1200), c(600)), totals_one.past_year);
    // Last month saw nothing.
    assert_eq!((c(0), c(0)), totals_one.last_month);
}

#[test]
fn windows_are_half_open_at_the_month_boundary() {
    let on_first = Expenditure {
        id: 1,
        spender_id: 1,
        amount: c(100),
        description: None,
        date: Some(d(2024, 6, 1)),
    };
    let in_may = Expenditure {
        id: 2,
        spender_id: 1,
        amount: c(40),
        description: None,
        date: Some(d(2024, 5, 20)),
    };
    let exps = vec![on_first, in_may];
    let splits: Vec<Split> = vec![];
    let totals = Query::get_totals(&exps, &splits, 1, d(2024, 6, 15));
    // The first of the month belongs to month-to-date, not to last month.
    assert_eq!((c(100), c(0)), totals.month_to_date);
    assert_eq!((c(40), c(0)), totals.last_month);
    assert_eq!((c(140), c(0)), totals.total);
}

#[test]
fn undated_records_count_only_toward_all_time() {
    let exps = vec![Expenditure {
        id: 1,
        spender_id: 1,
        amount: c(55),
        description: None,
        date: None,
    }];
    let splits: Vec<Split> = vec![];
    let totals = Query::get_totals(&exps, &splits, 1, d(2024, 6, 15));
    assert_eq!((c(55), c(0)), totals.total);
    assert_eq!((c(0), c(0)), totals.month_to_date);
    assert_eq!((c(0), c(0)), totals.past_year);
}

#[test]
fn shares_follow_their_expenditure_into_the_window() {
    let exps = vec![
        Expenditure { id: 1, spender_id: 1, amount: c(100), description: None, date: Some(d(2024, 6, 2)) },
        Expenditure { id: 2, spender_id: 1, amount: c(90), description: None, date: Some(d(2023, 1, 2)) },
    ];
    let splits = vec![
        Split { id: 1, expenditure_id: 1, user_id: 2, share: c(50) },
        Split { id: 2, expenditure_id: 2, user_id: 2, share: c(45) },
    ];
    let totals = Query::get_totals(&exps, &splits, 2, d(2024, 6, 15));
    // Only the June expenditure's share is in the month to date.
    assert_eq!((c(100), c(50)), totals.month_to_date);
    assert_eq!((c(190), c(95)), totals.total);
}

#[test]
fn day_arithmetic_crosses_leap_boundaries() {
    let r = date_minus_days(d(2024, 3, 1), 1);
    assert_eq!(d(2024, 2, 29), r);
    let r = date_minus_days(d(2024, 6, 15), 365);
    assert_eq!(d(2023, 6, 16), r);
    let r = date_minus_days(d(2024, 1, 1), 1);
    assert_eq!(d(2023, 12, 31), r);
}

#[test]
fn date_order_is_chronological() {
    assert!(d(2023, 12, 31).lt(&d(2024, 1, 1)));
    assert!(d(2024, 5, 2).le(&d(2024, 5, 2)));
    assert!(!d(2024, 5, 3).le(&d(2024, 5, 2)));
}

#[test]
fn the_clock_yields_a_well_formed_date() {
    let t = today();
    assert!(1 <= t.month && t.month <= 12);
    assert!(1 <= t.day && t.day <= 31);
}

#[test]
fn form_dates_parse_and_validate() {
    assert_eq!(Some(d(2024, 2, 29)), Date::parse_mdy("02/29/2024"));
    assert_eq!(Some(d(2024, 1, 2)), Date::parse_mdy("1/2/2024"));
    assert_eq!(None, Date::parse_mdy("02/30/2024"));
    assert_eq!(None, Date::parse_mdy("2/29/2023"));
    assert_eq!(None, Date::parse_mdy("13/01/2024"));
    assert_eq!(None, Date::parse_mdy("0/5/2024"));
    assert_eq!(None, Date::parse_mdy("2024-01-02"));
    assert_eq!(None, Date::parse_mdy("1/2/24"));
    assert_eq!(None, Date::parse_mdy("1/2/20245"));
    assert_eq!(None, Date::parse_mdy(""));
}
