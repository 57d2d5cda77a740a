use bluechips::money::Currency;
use bluechips::settle::{Query, SettleError};
use bluechips::balance::net_for_user;
use bluechips::records::{Expenditure, Split, Transfer, User};

fn c(v: i64) -> Currency {
    Currency::from_minor(v)
}

/// Applies a settlement plan to balances and returns the adjusted values.
fn apply_plan(balances: &[(i32, i64)], plan: &[(i32, i32, Currency)]) -> Vec<(i32, i64)> {
    let mut out: Vec<(i32, i64)> = balances.to_vec();
    for (from, to, amount) in plan {
        for entry in out.iter_mut() {
            if entry.0 == *from {
                entry.1 += amount.as_minor();
            }
            if entry.0 == *to {
                entry.1 -= amount.as_minor();
            }
        }
    }
    out
}

#[test]
fn settle_scenario_two_debtors_one_creditor() {
    // alice is owed 500; bob owes 300; carol owes 200.
    let debts = vec![(1, c(500)), (2, c(-300)), (3, c(-200))];
    let plan = Query::settle(debts).unwrap();
    assert_eq!(vec![(2, 1, c(300)), (3, 1, c(200))], plan);
}

#[test]
fn settle_scenario_greedy_pairing_zeroes_everyone() {
    let debts = vec![(1, c(700)), (2, c(-300)), (3, c(-300)), (4, c(-100))];
    let plan = Query::settle(debts.clone()).unwrap();
    let adjusted = apply_plan(&[(1, 700), (2, -300), (3, -300), (4, -100)], &plan);
    for (_, v) in adjusted {
        assert_eq!(0, v);
    }
    // The greedy strategy pairs the largest debtor with the largest creditor
    // first, deterministically for a fixed input.
    assert_eq!(vec![(2, 1, c(300)), (3, 1, c(300)), (4, 1, c(100))], plan);
}

#[test]
fn settle_already_settled_yields_empty_plan() {
    let debts = vec![(1, c(0)), (2, c(0)), (3, c(0))];
    assert_eq!(Ok(vec![]), Query::settle(debts));
}

#[test]
fn settle_unbalanced_credit_reports_residue() {
    let debts = vec![(10, c(10)), (20, c(-7))];
    let r = Query::settle(debts);
    assert_eq!(Err(SettleError::CollectiveCredit(vec![(10, c(3))])), r);
}

#[test]
fn settle_unbalanced_debt_reports_residue() {
    let debts = vec![(10, c(4)), (20, c(-9))];
    match Query::settle(debts) {
        Err(SettleError::CollectiveDebt(res)) => {
            let total: i64 = res.iter().map(|(_, v)| v.as_minor()).sum();
            assert_eq!(-5, total);
        }
        other => panic!("expected a collective debt, got {:?}", other),
    }
}

#[test]
fn balances_from_records_feed_settlement() {
    let users = vec![
        User { id: 1, username: "alice".to_string(), name: None, resident: true, email: None, password: None },
        User { id: 2, username: "bob".to_string(), name: None, resident: true, email: None, password: None },
        User { id: 3, username: "carol".to_string(), name: None, resident: true, email: None, password: None },
    ];
    // alice paid 500, split 300 to bob and 200 to carol.
    let exps = vec![Expenditure { id: 7, spender_id: 1, amount: c(500), description: None, date: None }];
    let splits = vec![
        Split { id: 1, expenditure_id: 7, user_id: 2, share: c(300) },
        Split { id: 2, expenditure_id: 7, user_id: 3, share: c(200) },
    ];
    let transfers: Vec<Transfer> = vec![];
    let debts = Query::get_debts(&users, &exps, &splits, &transfers);
    assert_eq!(vec![(1, c(500)), (2, c(-300)), (3, c(-200))], debts);
    let plan = Query::settle(debts).unwrap();
    assert_eq!(vec![(2, 1, c(300)), (3, 1, c(200))], plan);
}

#[test]
fn recorded_transfers_move_balances() {
    let users = vec![
        User { id: 1, username: "a".to_string(), name: None, resident: true, email: None, password: None },
        User { id: 2, username: "b".to_string(), name: None, resident: true, email: None, password: None },
    ];
    let exps: Vec<Expenditure> = vec![];
    let splits: Vec<Split> = vec![];
    // b pays a 40: b is owed 40, a owes 40.
    let transfers = vec![Transfer {
        id: 1,
        debtor_id: 2,
        creditor_id: 1,
        amount: c(40),
        description: None,
        date: None,
    }];
    let debts = Query::get_debts(&users, &exps, &splits, &transfers);
    assert_eq!(vec![(1, c(-40)), (2, c(40))], debts);
}

#[test]
fn zero_balances_never_affect_the_plan() {
    let debts = vec![(1, c(500)), (2, c(-300)), (3, c(-200))];
    let with_zeros = vec![(9, c(0)), (1, c(500)), (2, c(-300)), (8, c(0)), (3, c(-200))];
    assert_eq!(Query::settle(debts), Query::settle(with_zeros));
}

#[test]
fn net_position_in_a_plan() {
    let plan = vec![(2, 1, c(300)), (3, 1, c(200))];
    assert_eq!(500, net_for_user(&plan, 1).as_minor());
    assert_eq!(-300, net_for_user(&plan, 2).as_minor());
    assert_eq!(-200, net_for_user(&plan, 3).as_minor());
    assert_eq!(0, net_for_user(&plan, 9).as_minor());
}
