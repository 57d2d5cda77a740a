//! Display rows for the presentation layer: expenditures and transfers
//! annotated from the viewer's perspective — ownership and involvement
//! flags, the viewer's own share, and names masked when they are the
//! viewer's own.

use vstd::prelude::*;

use crate::date::Date;
use crate::money::Currency;
use crate::records::{Expenditure, Split, Transfer, User};

verus! {

/// An expenditure as the status and history pages show it.
pub struct ExpenditureDisplay {
    pub id: i32,
    pub amount: Currency,
    pub mine: bool,
    pub involved: bool,
    pub description: Option<String>,
    pub date: Option<Date>,
    pub spender_name: Option<String>,
    pub share_amount: Currency,
}

/// A transfer as the status and history pages show it.
pub struct TransferDisplay {
    pub id: i32,
    pub amount: Currency,
    pub involved: bool,
    pub description: Option<String>,
    pub date: Option<Date>,
    pub debtor_name: Option<String>,
    pub creditor_name: Option<String>,
}

/// The first user with the given id.
pub open spec fn find_user(users: Seq<User>, id: int) -> Option<User>
    decreases users.len(),
{
    if users.len() == 0 {
        Option::None
    } else if users.first().id == id {
        Option::Some(users.first())
    } else {
        find_user(users.drop_first(), id)
    }
}

/// The first split of the given expenditure charged to the given user.
pub open spec fn find_share(splits: Seq<Split>, eid: int, uid: int) -> Option<Currency>
    decreases splits.len(),
{
    if splits.len() == 0 {
        Option::None
    } else if splits.first().expenditure_id == eid && splits.first().user_id == uid {
        Option::Some(splits.first().share)
    } else {
        find_share(splits.drop_first(), eid, uid)
    }
}

/// The name shown for a user: nothing when they are the viewer (the page
/// says "me"), else their display name, if they set one.
pub open spec fn shown_name(users: Seq<User>, id: int, viewer: int) -> Option<String> {
    if id == viewer {
        Option::None
    } else {
        match find_user(users, id) {
            Option::Some(u) => u.name,
            Option::None => Option::None,
        }
    }
}

/// The first matching index determines the user found.
proof fn lemma_find_user_at(users: Seq<User>, id: int, j: int)
    requires
        0 <= j < users.len(),
        forall|k: int| 0 <= k < j ==> (#[trigger] users[k]).id != id,
        users[j].id == id,
    ensures
        find_user(users, id) == Option::Some(users[j]),
    decreases j,
{
    if j > 0 {
        assert forall|k: int| 0 <= k < j - 1 implies (#[trigger] users.drop_first()[k]).id != id by {
            assert(users.drop_first()[k] == users[k + 1]);
        }
        assert(users.drop_first()[j - 1] == users[j]);
        lemma_find_user_at(users.drop_first(), id, j - 1);
    }
}

/// An id on no user is not found.
proof fn lemma_find_user_none(users: Seq<User>, id: int)
    requires
        forall|k: int| 0 <= k < users.len() ==> (#[trigger] users[k]).id != id,
    ensures
        find_user(users, id) is None,
    decreases users.len(),
{
    if users.len() > 0 {
        assert forall|k: int| 0 <= k < users.drop_first().len() implies (
        #[trigger] users.drop_first()[k]).id != id by {
            assert(users.drop_first()[k] == users[k + 1]);
        }
        lemma_find_user_none(users.drop_first(), id);
    }
}

/// The first matching index determines the share found.
proof fn lemma_find_share_at(splits: Seq<Split>, eid: int, uid: int, j: int)
    requires
        0 <= j < splits.len(),
        forall|k: int|
            0 <= k < j ==> !((#[trigger] splits[k]).expenditure_id == eid && splits[k].user_id
                == uid),
        splits[j].expenditure_id == eid && splits[j].user_id == uid,
    ensures
        find_share(splits, eid, uid) == Option::Some(splits[j].share),
    decreases j,
{
    if j > 0 {
        assert forall|k: int|
            0 <= k < j - 1 implies !((#[trigger] splits.drop_first()[k]).expenditure_id == eid
            && splits.drop_first()[k].user_id == uid) by {
            assert(splits.drop_first()[k] == splits[k + 1]);
        }
        assert(splits.drop_first()[j - 1] == splits[j]);
        lemma_find_share_at(splits.drop_first(), eid, uid, j - 1);
    }
}

/// A pair on no split is not found.
proof fn lemma_find_share_none(splits: Seq<Split>, eid: int, uid: int)
    requires
        forall|k: int|
            0 <= k < splits.len() ==> !((#[trigger] splits[k]).expenditure_id == eid
                && splits[k].user_id == uid),
    ensures
        find_share(splits, eid, uid) is None,
    decreases splits.len(),
{
    if splits.len() > 0 {
        assert forall|k: int|
            0 <= k < splits.drop_first().len() implies !((
        #[trigger] splits.drop_first()[k]).expenditure_id == eid && splits.drop_first()[k].user_id
            == uid) by {
            assert(splits.drop_first()[k] == splits[k + 1]);
        }
        lemma_find_share_none(splits.drop_first(), eid, uid);
    }
}

/// The name shown for one user id, from the viewer's perspective.
fn name_for(users: &Vec<User>, id: i32, viewer: i32) -> (r: Option<String>)
    ensures
        r == shown_name(users@, id as int, viewer as int),
{
    if id == viewer {
        return None;
    }
    let mut i: usize = 0;
    while i < users.len()
        invariant
            id != viewer,
            i <= users@.len(),
            forall|k: int| 0 <= k < i ==> (#[trigger] users@[k]).id != id,
        decreases users@.len() - i,
    {
        if users[i].id == id {
            proof {
                lemma_find_user_at(users@, id as int, i as int);
            }
            let r = match &users[i].name {
                Option::Some(n) => Some(n.clone()),
                Option::None => None,
            };
            return r;
        }
        i = i + 1;
    }
    proof {
        lemma_find_user_none(users@, id as int);
    }
    None
}

/// The viewer's share of one expenditure, if they have one.
fn share_for(splits: &Vec<Split>, eid: i32, uid: i32) -> (r: Option<Currency>)
    ensures
        r == find_share(splits@, eid as int, uid as int),
{
    let mut i: usize = 0;
    while i < splits.len()
        invariant
            i <= splits@.len(),
            forall|k: int|
                0 <= k < i ==> !((#[trigger] splits@[k]).expenditure_id == eid as int
                    && splits@[k].user_id == uid as int),
        decreases splits@.len() - i,
    {
        if splits[i].expenditure_id == eid && splits[i].user_id == uid {
            proof {
                lemma_find_share_at(splits@, eid as int, uid as int, i as int);
            }
            return Some(splits[i].share);
        }
        i = i + 1;
    }
    proof {
        lemma_find_share_none(splits@, eid as int, uid as int);
    }
    None
}

/// Annotates expenditures from the viewer's perspective: whether each is the
/// viewer's own, whether the viewer is involved (as spender or through a
/// positive share), the viewer's share (zero when none), and the spender's
/// name, masked for the viewer themself.
pub fn annotate_expenditures(user_id: i32, exps: &Vec<Expenditure>, users: &Vec<User>, splits: &Vec<
    Split,
>) -> (r: Vec<ExpenditureDisplay>)
    ensures
        r@.len() == exps@.len(),
        forall|k: int|
            0 <= k < exps@.len() ==> {
                let e = exps@[k];
                let share = find_share(splits@, e.id as int, user_id as int);
                &&& (#[trigger] r@[k]).id == e.id
                &&& r@[k].amount == e.amount
                &&& r@[k].description == e.description
                &&& r@[k].date == e.date
                &&& r@[k].mine == (e.spender_id == user_id)
                &&& r@[k].spender_name == shown_name(users@, e.spender_id as int, user_id as int)
                &&& r@[k].share_amount@ == (match share {
                    Option::Some(c) => c@,
                    Option::None => 0,
                })
                &&& r@[k].involved == (e.spender_id == user_id || (share is Some
                    && share.unwrap()@ > 0))
            },
{
    let mut out: Vec<ExpenditureDisplay> = Vec::new();
    let mut i: usize = 0;
    while i < exps.len()
        invariant
            i <= exps@.len(),
            out@.len() == i,
            forall|k: int|
                0 <= k < i ==> {
                    let e = exps@[k];
                    let share = find_share(splits@, e.id as int, user_id as int);
                    &&& (#[trigger] out@[k]).id == e.id
                    &&& out@[k].amount == e.amount
                    &&& out@[k].description == e.description
                    &&& out@[k].date == e.date
                    &&& out@[k].mine == (e.spender_id == user_id)
                    &&& out@[k].spender_name == shown_name(
                        users@,
                        e.spender_id as int,
                        user_id as int,
                    )
                    &&& out@[k].share_amount@ == (match share {
                        Option::Some(c) => c@,
                        Option::None => 0,
                    })
                    &&& out@[k].involved == (e.spender_id == user_id || (share is Some
                        && share.unwrap()@ > 0))
                },
        decreases exps@.len() - i,
    {
        let e = &exps[i];
        let share = share_for(splits, e.id, user_id);
        let share_amount = match &share {
            Option::Some(c) => *c,
            Option::None => Currency::zero(),
        };
        let involved = e.spender_id == user_id || (match &share {
            Option::Some(c) => c.is_positive(),
            Option::None => false,
        });
        let row = ExpenditureDisplay {
            id: e.id,
            amount: e.amount,
            mine: e.spender_id == user_id,
            involved,
            description: match &e.description {
                Option::Some(d) => Some(d.clone()),
                Option::None => None,
            },
            date: e.date,
            spender_name: name_for(users, e.spender_id, user_id),
            share_amount,
        };
        out.push(row);
        i = i + 1;
    }
    out
}

/// Annotates transfers from the viewer's perspective: whether the viewer is
/// a party to each, and the two parties' names, masked for the viewer
/// themself.
pub fn annotate_transfers(user_id: i32, transfers: &Vec<Transfer>, users: &Vec<User>) -> (r: Vec<
    TransferDisplay,
>)
    ensures
        r@.len() == transfers@.len(),
        forall|k: int|
            0 <= k < transfers@.len() ==> {
                let t = transfers@[k];
                &&& (#[trigger] r@[k]).id == t.id
                &&& r@[k].amount == t.amount
                &&& r@[k].description == t.description
                &&& r@[k].date == t.date
                &&& r@[k].involved == (t.debtor_id == user_id || t.creditor_id == user_id)
                &&& r@[k].debtor_name == shown_name(users@, t.debtor_id as int, user_id as int)
                &&& r@[k].creditor_name == shown_name(users@, t.creditor_id as int, user_id as int)
            },
{
    let mut out: Vec<TransferDisplay> = Vec::new();
    let mut i: usize = 0;
    while i < transfers.len()
        invariant
            i <= transfers@.len(),
            out@.len() == i,
            forall|k: int|
                0 <= k < i ==> {
                    let t = transfers@[k];
                    &&& (#[trigger] out@[k]).id == t.id
                    &&& out@[k].amount == t.amount
                    &&& out@[k].description == t.description
                    &&& out@[k].date == t.date
                    &&& out@[k].involved == (t.debtor_id == user_id || t.creditor_id == user_id)
                    &&& out@[k].debtor_name == shown_name(users@, t.debtor_id as int, user_id as int)
                    &&& out@[k].creditor_name == shown_name(
                        users@,
                        t.creditor_id as int,
                        user_id as int,
                    )
                },
        decreases transfers@.len() - i,
    {
        let t = &transfers[i];
        let row = TransferDisplay {
            id: t.id,
            amount: t.amount,
            involved: t.debtor_id == user_id || t.creditor_id == user_id,
            description: match &t.description {
                Option::Some(d) => Some(d.clone()),
                Option::None => None,
            },
            date: t.date,
            debtor_name: name_for(users, t.debtor_id, user_id),
            creditor_name: name_for(users, t.creditor_id, user_id),
        };
        out.push(row);
        i = i + 1;
    }
    out
}

/// The split proposal for a new expenditure: one entry per resident, in
/// order, each weighted one hundred.
pub open spec fn resident_splits(users: Seq<User>) -> Seq<(i32, Currency)>
    decreases users.len(),
{
    if users.len() == 0 {
        Seq::empty()
    } else if users.first().resident {
        seq![(users.first().id, Currency { cents: 100i64 })] + resident_splits(users.drop_first())
    } else {
        resident_splits(users.drop_first())
    }
}

/// Appending a user appends their default split exactly when they are a
/// resident.
proof fn lemma_resident_splits_push(users: Seq<User>, u: User)
    ensures
        resident_splits(users.push(u)) == (if u.resident {
            resident_splits(users).push((u.id, Currency { cents: 100i64 }))
        } else {
            resident_splits(users)
        }),
    decreases users.len(),
{
    if users.len() == 0 {
        assert(users.push(u).drop_first() =~= users);
        if u.resident {
            assert(seq![(u.id, Currency { cents: 100i64 })] + resident_splits(users)
                =~= resident_splits(users).push((u.id, Currency { cents: 100i64 })));
        }
    } else {
        assert(users.push(u).drop_first() =~= users.drop_first().push(u));
        lemma_resident_splits_push(users.drop_first(), u);
        if users.first().resident {
            if u.resident {
                assert(seq![(users.first().id, Currency { cents: 100i64 })] + resident_splits(
                    users.drop_first(),
                ).push((u.id, Currency { cents: 100i64 })) =~= (seq![
                    (users.first().id, Currency { cents: 100i64 }),
                ] + resident_splits(users.drop_first())).push((u.id, Currency { cents: 100i64 })));
            }
        }
    }
}

/// The default split proposal for a new expenditure: every resident,
/// weighted equally at one hundred.
pub fn default_resident_splits(users: &Vec<User>) -> (r: Vec<(i32, Currency)>)
    ensures
        r@ == resident_splits(users@),
{
    let mut out: Vec<(i32, Currency)> = Vec::new();
    let mut i: usize = 0;
    while i < users.len()
        invariant
            i <= users@.len(),
            out@ == resident_splits(users@.take(i as int)),
        decreases users@.len() - i,
    {
        proof {
            lemma_resident_splits_push(users@.take(i as int), users@[i as int]);
            assert(users@.take(i as int).push(users@[i as int]) =~= users@.take(i + 1));
        }
        if users[i].resident {
            out.push((users[i].id, Currency::from_minor(100)));
        }
        i = i + 1;
    }
    proof {
        assert(users@.take(users@.len() as int) =~= users@);
    }
    out
}

} // verus!
