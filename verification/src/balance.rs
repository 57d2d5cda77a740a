//! Balance construction: turns the raw expenditure, split and transfer
//! records into the per-user signed balance map the settlement engine
//! consumes. A user's balance is what they spent for the household plus the
//! transfers they paid out, minus their share of the expenses and the
//! transfers they received; positive means the user is owed money.

use vstd::prelude::*;

use crate::money::{Currency, abs_of};
use crate::records::{Expenditure, Split, Transfer, User};
use crate::settle::{Query, lemma_effect_push, transfer_effect};
use crate::totals::{exp_abs_total, split_abs_total};

verus! {

/// The sum of the amounts user `u` spent.
pub open spec fn spent_by(s: Seq<Expenditure>, u: int) -> int
    decreases s.len(),
{
    if s.len() == 0 {
        0
    } else {
        (if s.first().spender_id == u {
            s.first().amount@
        } else {
            0
        }) + spent_by(s.drop_first(), u)
    }
}

/// The sum of the split shares charged to user `u`.
pub open spec fn share_owed_by(s: Seq<Split>, u: int) -> int
    decreases s.len(),
{
    if s.len() == 0 {
        0
    } else {
        (if s.first().user_id == u {
            s.first().share@
        } else {
            0
        }) + share_owed_by(s.drop_first(), u)
    }
}

/// The net of the recorded transfers for user `u`: the amounts they paid
/// out minus the amounts they received.
pub open spec fn transfers_net(s: Seq<Transfer>, u: int) -> int
    decreases s.len(),
{
    if s.len() == 0 {
        0
    } else {
        (if s.first().debtor_id == u {
            s.first().amount@
        } else {
            0
        }) - (if s.first().creditor_id == u {
            s.first().amount@
        } else {
            0
        }) + transfers_net(s.drop_first(), u)
    }
}

/// The sum of the transfer amounts' magnitudes.
pub open spec fn transfer_abs_total(s: Seq<Transfer>) -> int
    decreases s.len(),
{
    if s.len() == 0 {
        0
    } else {
        abs_of(s.first().amount@) + transfer_abs_total(s.drop_first())
    }
}

/// User `u`'s net signed position from the raw records: positive when the
/// user is owed money, negative when the user owes money.
pub open spec fn balance_of_user(
    exps: Seq<Expenditure>,
    splits: Seq<Split>,
    transfers: Seq<Transfer>,
    u: int,
) -> int {
    spent_by(exps, u) + transfers_net(transfers, u) - share_owed_by(splits, u)
}

proof fn lemma_spent_take_step(s: Seq<Expenditure>, u: int, i: int)
    requires
        0 <= i < s.len(),
    ensures
        spent_by(s.take(i + 1), u) == spent_by(s.take(i), u) + (if s[i].spender_id == u {
            s[i].amount@
        } else {
            0
        }),
        exp_abs_total(s.take(i + 1)) == exp_abs_total(s.take(i)) + abs_of(s[i].amount@),
    decreases i,
{
    if i == 0 {
        assert(s.take(1).drop_first() =~= s.take(0));
    } else {
        assert(s.take(i + 1).drop_first() =~= s.drop_first().take(i));
        assert(s.take(i).drop_first() =~= s.drop_first().take(i - 1));
        lemma_spent_take_step(s.drop_first(), u, i - 1);
    }
}

proof fn lemma_share_take_step(s: Seq<Split>, u: int, i: int)
    requires
        0 <= i < s.len(),
    ensures
        share_owed_by(s.take(i + 1), u) == share_owed_by(s.take(i), u) + (if s[i].user_id == u {
            s[i].share@
        } else {
            0
        }),
        split_abs_total(s.take(i + 1)) == split_abs_total(s.take(i)) + abs_of(s[i].share@),
    decreases i,
{
    if i == 0 {
        assert(s.take(1).drop_first() =~= s.take(0));
    } else {
        assert(s.take(i + 1).drop_first() =~= s.drop_first().take(i));
        assert(s.take(i).drop_first() =~= s.drop_first().take(i - 1));
        lemma_share_take_step(s.drop_first(), u, i - 1);
    }
}

proof fn lemma_transfers_take_step(s: Seq<Transfer>, u: int, i: int)
    requires
        0 <= i < s.len(),
    ensures
        transfers_net(s.take(i + 1), u) == transfers_net(s.take(i), u) + (if s[i].debtor_id == u {
            s[i].amount@
        } else {
            0
        }) - (if s[i].creditor_id == u {
            s[i].amount@
        } else {
            0
        }),
        transfer_abs_total(s.take(i + 1)) == transfer_abs_total(s.take(i)) + abs_of(s[i].amount@),
    decreases i,
{
    if i == 0 {
        assert(s.take(1).drop_first() =~= s.take(0));
    } else {
        assert(s.take(i + 1).drop_first() =~= s.drop_first().take(i));
        assert(s.take(i).drop_first() =~= s.drop_first().take(i - 1));
        lemma_transfers_take_step(s.drop_first(), u, i - 1);
    }
}

/// The record sums are bounded in magnitude by the magnitude totals, which
/// are nonnegative.
proof fn lemma_record_sums_bounded(
    exps: Seq<Expenditure>,
    splits: Seq<Split>,
    transfers: Seq<Transfer>,
    u: int,
)
    ensures
        exp_abs_total(exps) >= 0,
        split_abs_total(splits) >= 0,
        transfer_abs_total(transfers) >= 0,
        abs_of(spent_by(exps, u)) <= exp_abs_total(exps),
        abs_of(share_owed_by(splits, u)) <= split_abs_total(splits),
        abs_of(transfers_net(transfers, u)) <= 2 * transfer_abs_total(transfers),
    decreases exps.len() + splits.len() + transfers.len(),
{
    if exps.len() > 0 {
        lemma_record_sums_bounded(exps.drop_first(), splits, transfers, u);
    } else if splits.len() > 0 {
        lemma_record_sums_bounded(exps, splits.drop_first(), transfers, u);
    } else if transfers.len() > 0 {
        lemma_record_sums_bounded(exps, splits, transfers.drop_first(), u);
    }
}

/// One user's balance from the raw records.
fn balance_for(
    expenditures: &Vec<Expenditure>,
    splits: &Vec<Split>,
    transfers: &Vec<Transfer>,
    user_id: i32,
) -> (r: Currency)
    requires
        exp_abs_total(expenditures@) + split_abs_total(splits@) + 2 * transfer_abs_total(
            transfers@,
        ) <= i64::MAX,
    ensures
        r@ == balance_of_user(expenditures@, splits@, transfers@, user_id as int),
{
    let ghost u: int = user_id as int;
    proof {
        lemma_record_sums_bounded(expenditures@, splits@, transfers@, u);
    }
    let mut acc: i64 = 0;
    let mut i: usize = 0;
    while i < expenditures.len()
        invariant
            i <= expenditures@.len(),
            u == user_id as int,
            exp_abs_total(expenditures@) <= i64::MAX,
            acc as int == spent_by(expenditures@.take(i as int), u),
            abs_of(acc as int) <= exp_abs_total(expenditures@.take(i as int)),
            exp_abs_total(expenditures@.take(i as int)) <= exp_abs_total(expenditures@),
        decreases expenditures@.len() - i,
    {
        proof {
            lemma_spent_take_step(expenditures@, u, i as int);
            lemma_exp_abs_prefix(expenditures@, i + 1);
        }
        if expenditures[i].spender_id == user_id {
            acc = acc + expenditures[i].amount.as_minor();
        }
        i = i + 1;
    }
    proof {
        assert(expenditures@.take(expenditures@.len() as int) =~= expenditures@);
    }

    let ghost spent: int = acc as int;
    let mut j: usize = 0;
    while j < transfers.len()
        invariant
            j <= transfers@.len(),
            u == user_id as int,
            spent == spent_by(expenditures@, u),
            abs_of(spent) <= exp_abs_total(expenditures@),
            exp_abs_total(expenditures@) + 2 * transfer_abs_total(transfers@) <= i64::MAX,
            acc as int == spent + transfers_net(transfers@.take(j as int), u),
            abs_of(acc as int) <= exp_abs_total(expenditures@) + 2 * transfer_abs_total(
                transfers@.take(j as int),
            ),
            2 * transfer_abs_total(transfers@.take(j as int)) <= 2 * transfer_abs_total(
                transfers@,
            ),
        decreases transfers@.len() - j,
    {
        proof {
            lemma_transfers_take_step(transfers@, u, j as int);
            lemma_transfer_abs_prefix(transfers@, j + 1);
        }
        if transfers[j].debtor_id == user_id {
            acc = acc + transfers[j].amount.as_minor();
        }
        if transfers[j].creditor_id == user_id {
            acc = acc - transfers[j].amount.as_minor();
        }
        j = j + 1;
    }
    proof {
        assert(transfers@.take(transfers@.len() as int) =~= transfers@);
    }

    let ghost with_transfers: int = acc as int;
    let mut k: usize = 0;
    while k < splits.len()
        invariant
            k <= splits@.len(),
            u == user_id as int,
            with_transfers == spent_by(expenditures@, u) + transfers_net(transfers@, u),
            abs_of(with_transfers) <= exp_abs_total(expenditures@) + 2 * transfer_abs_total(
                transfers@,
            ),
            exp_abs_total(expenditures@) + split_abs_total(splits@) + 2 * transfer_abs_total(
                transfers@,
            ) <= i64::MAX,
            acc as int == with_transfers - share_owed_by(splits@.take(k as int), u),
            abs_of(acc as int) <= abs_of(with_transfers) + split_abs_total(splits@.take(k as int)),
            split_abs_total(splits@.take(k as int)) <= split_abs_total(splits@),
        decreases splits@.len() - k,
    {
        proof {
            lemma_share_take_step(splits@, u, k as int);
            lemma_split_abs_prefix(splits@, k + 1);
        }
        if splits[k].user_id == user_id {
            acc = acc - splits[k].share.as_minor();
        }
        k = k + 1;
    }
    proof {
        assert(splits@.take(splits@.len() as int) =~= splits@);
    }
    Currency::from_minor(acc)
}

proof fn lemma_exp_abs_prefix(s: Seq<Expenditure>, i: int)
    requires
        0 <= i <= s.len(),
    ensures
        exp_abs_total(s.take(i)) <= exp_abs_total(s),
    decreases s.len() - i,
{
    if i == s.len() {
        assert(s.take(i) =~= s);
    } else {
        lemma_spent_take_step(s, 0, i);
        lemma_exp_abs_prefix(s, i + 1);
    }
}

proof fn lemma_split_abs_prefix(s: Seq<Split>, i: int)
    requires
        0 <= i <= s.len(),
    ensures
        split_abs_total(s.take(i)) <= split_abs_total(s),
    decreases s.len() - i,
{
    if i == s.len() {
        assert(s.take(i) =~= s);
    } else {
        lemma_share_take_step(s, 0, i);
        lemma_split_abs_prefix(s, i + 1);
    }
}

proof fn lemma_transfer_abs_prefix(s: Seq<Transfer>, i: int)
    requires
        0 <= i <= s.len(),
    ensures
        transfer_abs_total(s.take(i)) <= transfer_abs_total(s),
    decreases s.len() - i,
{
    if i == s.len() {
        assert(s.take(i) =~= s);
    } else {
        lemma_transfers_take_step(s, 0, i);
        lemma_transfer_abs_prefix(s, i + 1);
    }
}

impl Query {
    /// Builds the balance map: one entry per user, in the users' order,
    /// holding the user's net signed position over all records.
    pub fn get_debts(
        users: &Vec<User>,
        expenditures: &Vec<Expenditure>,
        splits: &Vec<Split>,
        transfers: &Vec<Transfer>,
    ) -> (r: Vec<(i32, Currency)>)
        requires
            exp_abs_total(expenditures@) + split_abs_total(splits@) + 2 * transfer_abs_total(
                transfers@,
            ) <= i64::MAX,
        ensures
            r@.len() == users@.len(),
            forall|k: int| 0 <= k < users@.len() ==> (#[trigger] r@[k]).0 == users@[k].id,
            forall|k: int|
                0 <= k < users@.len() ==> (#[trigger] r@[k]).1@ == balance_of_user(
                    expenditures@,
                    splits@,
                    transfers@,
                    users@[k].id as int,
                ),
    {
        let mut out: Vec<(i32, Currency)> = Vec::new();
        let mut i: usize = 0;
        while i < users.len()
            invariant
                i <= users@.len(),
                exp_abs_total(expenditures@) + split_abs_total(splits@) + 2 * transfer_abs_total(
                    transfers@,
                ) <= i64::MAX,
                out@.len() == i,
                forall|k: int| 0 <= k < i ==> (#[trigger] out@[k]).0 == users@[k].id,
                forall|k: int|
                    0 <= k < i ==> (#[trigger] out@[k]).1@ == balance_of_user(
                        expenditures@,
                        splits@,
                        transfers@,
                        users@[k].id as int,
                    ),
            decreases users@.len() - i,
        {
            let b = balance_for(expenditures, splits, transfers, users[i].id);
            out.push((users[i].id, b));
            i = i + 1;
        }
        out
    }
}

/// The signed amount a settlement plan moves toward one user: what the plan
/// sends them minus what it asks them to pay. On the status page this is the
/// viewer's own net position in the plan.
pub fn net_for_user(plan: &Vec<(i32, i32, Currency)>, user_id: i32) -> (r: Currency)
    requires
        2 * settle_abs_total(plan@) <= i64::MAX,
    ensures
        r@ == -transfer_effect(plan@, user_id as int),
{
    let ghost u: int = user_id as int;
    proof {
        lemma_settle_abs_prefix(plan@, 0);
    }
    let mut acc: i64 = 0;
    let mut i: usize = 0;
    while i < plan.len()
        invariant
            i <= plan@.len(),
            u == user_id as int,
            2 * settle_abs_total(plan@) <= i64::MAX,
            acc as int == -transfer_effect(plan@.take(i as int), u),
            abs_of(acc as int) <= 2 * settle_abs_total(plan@.take(i as int)),
            2 * settle_abs_total(plan@.take(i as int)) <= 2 * settle_abs_total(plan@),
        decreases plan@.len() - i,
    {
        proof {
            lemma_effect_push(plan@.take(i as int), plan@[i as int]);
            assert(plan@.take(i as int).push(plan@[i as int]) =~= plan@.take(i + 1));
            lemma_settle_abs_take_step(plan@, i as int);
            lemma_settle_abs_prefix(plan@, i + 1);
        }
        if plan[i].1 == user_id {
            acc = acc + plan[i].2.as_minor();
        }
        if plan[i].0 == user_id {
            acc = acc - plan[i].2.as_minor();
        }
        i = i + 1;
    }
    proof {
        assert(plan@.take(plan@.len() as int) =~= plan@);
    }
    Currency::from_minor(acc)
}

/// The sum of a settlement plan's amount magnitudes.
pub open spec fn settle_abs_total(s: Seq<(i32, i32, Currency)>) -> int
    decreases s.len(),
{
    if s.len() == 0 {
        0
    } else {
        abs_of(s.first().2@) + settle_abs_total(s.drop_first())
    }
}

proof fn lemma_settle_abs_take_step(s: Seq<(i32, i32, Currency)>, i: int)
    requires
        0 <= i < s.len(),
    ensures
        settle_abs_total(s.take(i + 1)) == settle_abs_total(s.take(i)) + abs_of(s[i].2@),
    decreases i,
{
    if i == 0 {
        assert(s.take(1).drop_first() =~= s.take(0));
    } else {
        assert(s.take(i + 1).drop_first() =~= s.drop_first().take(i));
        assert(s.take(i).drop_first() =~= s.drop_first().take(i - 1));
        lemma_settle_abs_take_step(s.drop_first(), i - 1);
    }
}

proof fn lemma_settle_abs_prefix(s: Seq<(i32, i32, Currency)>, i: int)
    requires
        0 <= i <= s.len(),
    ensures
        settle_abs_total(s.take(i)) <= settle_abs_total(s),
    decreases s.len() - i,
{
    if i == s.len() {
        assert(s.take(i) =~= s);
    } else {
        lemma_settle_abs_take_step(s, i);
        lemma_settle_abs_prefix(s, i + 1);
    }
}

} // verus!
