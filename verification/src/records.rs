//! The ledger's raw records, as the store materializes them: expenditures,
//! their per-user splits, recorded transfers, and users.

use vstd::prelude::*;

use crate::date::Date;
use crate::money::Currency;

verus! {

/// A recorded purchase: who paid, how much, and when.
#[derive(Clone, Debug)]
pub struct Expenditure {
    pub id: i32,
    pub spender_id: i32,
    pub amount: Currency,
    pub description: Option<String>,
    pub date: Option<Date>,
}

/// One user's share of one expenditure.
#[derive(Clone, Copy, Debug)]
pub struct Split {
    pub id: i32,
    pub expenditure_id: i32,
    pub user_id: i32,
    pub share: Currency,
}

/// A recorded money movement between two users.
#[derive(Clone, Debug)]
pub struct Transfer {
    pub id: i32,
    pub debtor_id: i32,
    pub creditor_id: i32,
    pub amount: Currency,
    pub description: Option<String>,
    pub date: Option<Date>,
}

/// A submitted expenditure, as the request layer hands it to the engine:
/// the payer, the total amount, and the weighted split request.
pub struct ExpenditureForm {
    pub spender_id: i32,
    pub amount: Currency,
    pub description: String,
    pub date: Date,
    pub splits: Vec<(i32, Currency)>,
}

/// A submitted transfer, as the request layer hands it to the store.
pub struct TransferForm {
    pub debtor_id: i32,
    pub creditor_id: i32,
    pub amount: Currency,
    pub description: String,
    pub date: Date,
}

/// A user of the household ledger.
#[derive(Clone, Debug)]
pub struct User {
    pub id: i32,
    pub username: String,
    pub name: Option<String>,
    pub resident: bool,
    pub email: Option<String>,
    pub password: Option<String>,
}

} // verus!
