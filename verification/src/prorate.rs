//! Split proration: distributes a total amount across weighted participants
//! so that the shares are proportional to the weights and sum exactly to the
//! total. Truncating division can lose (or, for negative totals, gain) up to
//! one minor unit per participant; the missing units are handed out one each
//! to a randomly chosen set of participants.

use vstd::prelude::*;
use vstd::arithmetic::div_mod::lemma_fundamental_div_mod;

use crate::money::{
    Currency, abs_of, value_total, lemma_value_total_push, lemma_value_total_take_step,
    lemma_value_total_update, lemma_value_entry_le_total,
};

verus! {

/// The entries of a weight list whose weight is not zero, in order.
pub open spec fn nonzero_entries(s: Seq<(i32, Currency)>) -> Seq<(i32, Currency)>
    decreases s.len(),
{
    if s.len() == 0 {
        Seq::empty()
    } else if s.first().1@ != 0 {
        seq![s.first()] + nonzero_entries(s.drop_first())
    } else {
        nonzero_entries(s.drop_first())
    }
}

/// Appending an entry appends it to the nonzero entries unless it is zero.
proof fn lemma_nonzero_push(s: Seq<(i32, Currency)>, e: (i32, Currency))
    ensures
        nonzero_entries(s.push(e)) == (if e.1@ != 0 {
            nonzero_entries(s).push(e)
        } else {
            nonzero_entries(s)
        }),
    decreases s.len(),
{
    if s.len() == 0 {
        assert(s.push(e).drop_first() =~= s);
        if e.1@ != 0 {
            assert(seq![e] + nonzero_entries(s) =~= nonzero_entries(s).push(e));
        }
    } else {
        assert(s.push(e).drop_first() =~= s.drop_first().push(e));
        lemma_nonzero_push(s.drop_first(), e);
        if s.first().1@ != 0 {
            if e.1@ != 0 {
                assert(seq![s.first()] + nonzero_entries(s.drop_first()).push(e) =~= (seq![s.first()]
                    + nonzero_entries(s.drop_first())).push(e));
            }
        }
    }
}

/// The truncated (toward zero) proportional share of `t` for weight `w` out
/// of weight total `wt`.
pub open spec fn provisional_share(t: int, w: int, wt: int) -> int {
    if t >= 0 {
        (t * w) / wt
    } else {
        -(((-t) * w) / wt)
    }
}

/// The sum of the truncated shares over a weight list.
pub open spec fn provisional_total(t: int, s: Seq<(i32, Currency)>, wt: int) -> int
    decreases s.len(),
{
    if s.len() == 0 {
        0
    } else {
        provisional_share(t, s.first().1@, wt) + provisional_total(t, s.drop_first(), wt)
    }
}

/// Appending a weight adds its truncated share to the provisional total.
proof fn lemma_provisional_total_push(t: int, s: Seq<(i32, Currency)>, e: (i32, Currency), wt: int)
    ensures
        provisional_total(t, s.push(e), wt) == provisional_total(t, s, wt) + provisional_share(
            t,
            e.1@,
            wt,
        ),
    decreases s.len(),
{
    if s.len() == 0 {
        assert(s.push(e).drop_first() =~= s);
        assert(provisional_total(t, s.push(e), wt) == provisional_share(t, e.1@, wt)
            + provisional_total(t, s, wt));
    } else {
        assert(s.push(e).drop_first() =~= s.drop_first().push(e));
        lemma_provisional_total_push(t, s.drop_first(), e, wt);
        assert(provisional_total(t, s.push(e), wt) == provisional_share(t, s.first().1@, wt)
            + provisional_total(t, s.push(e).drop_first(), wt));
        assert(provisional_total(t, s, wt) == provisional_share(t, s.first().1@, wt)
            + provisional_total(t, s.drop_first(), wt));
    }
}

/// For a nonnegative total, the provisional shares are nonnegative and their
/// sum, scaled by the weight total, sits within one weight-total unit per
/// participant below the exact proportional mass `t * value_total(s)`.
proof fn lemma_provisional_total_bounds(t: int, s: Seq<(i32, Currency)>, wt: int)
    requires
        t >= 0,
        wt > 0,
        forall|k: int| 0 <= k < s.len() ==> (#[trigger] s[k]).1@ >= 0,
    ensures
        0 <= provisional_total(t, s, wt),
        wt * provisional_total(t, s, wt) <= t * value_total(s),
        wt * provisional_total(t, s, wt) >= t * value_total(s) - s.len() * wt,
    decreases s.len(),
{
    if s.len() == 0 {
        assert(t * value_total(s) == 0) by (nonlinear_arith)
            requires
                value_total(s) == 0,
        ;
        assert(wt * provisional_total(t, s, wt) == 0) by (nonlinear_arith)
            requires
                provisional_total(t, s, wt) == 0,
        ;
        assert(s.len() * wt == 0);
    } else {
        let w = s.first().1@;
        let q = (t * w) / wt;
        let r = (t * w) % wt;
        assert(t * w >= 0) by (nonlinear_arith)
            requires
                t >= 0,
                w >= 0,
        ;
        lemma_fundamental_div_mod(t * w, wt);
        assert(0 <= r < wt);
        assert(q >= 0) by (nonlinear_arith)
            requires
                t * w == wt * q + r,
                t * w >= 0,
                0 <= r < wt,
                wt > 0,
        ;
        assert forall|k: int| 0 <= k < s.drop_first().len() implies (#[trigger] s.drop_first()[k]).1@
            >= 0 by {
            assert(s.drop_first()[k] == s[k + 1]);
        }
        lemma_provisional_total_bounds(t, s.drop_first(), wt);
        let pt_rest = provisional_total(t, s.drop_first(), wt);
        let vt_rest = value_total(s.drop_first());
        let n_rest = s.drop_first().len() as int;
        assert(provisional_total(t, s, wt) == q + pt_rest);
        assert(value_total(s) == w + vt_rest);
        assert(wt * (q + pt_rest) == wt * q + wt * pt_rest) by (nonlinear_arith);
        assert(t * (w + vt_rest) == t * w + t * vt_rest) by (nonlinear_arith);
        assert((n_rest + 1) * wt == n_rest * wt + wt) by (nonlinear_arith);
        assert(wt * q <= t * w);
        assert(wt * q >= t * w - wt);
    }
}

/// One truncated share, scaled by the weight total, differs from the exact
/// proportional mass `t * w` by less than one weight-total unit, and carries
/// the total's sign.
proof fn lemma_provisional_share_close(t: int, w: int, wt: int)
    requires
        wt > 0,
        w >= 0,
    ensures
        abs_of(wt * provisional_share(t, w, wt) - t * w) < wt,
        t >= 0 ==> provisional_share(t, w, wt) >= 0,
        t <= 0 ==> provisional_share(t, w, wt) <= 0,
        wt * provisional_share(t, w, wt) - t * w == (if t >= 0 {
            -((abs_of(t) * w) % wt)
        } else {
            (abs_of(t) * w) % wt
        }),
{
    if t >= 0 {
        let q = (t * w) / wt;
        let r = (t * w) % wt;
        assert(t * w >= 0) by (nonlinear_arith)
            requires
                t >= 0,
                w >= 0,
        ;
        lemma_fundamental_div_mod(t * w, wt);
        assert(0 <= r < wt);
        assert(q >= 0) by (nonlinear_arith)
            requires
                t * w == wt * q + r,
                t * w >= 0,
                0 <= r < wt,
                wt > 0,
        ;
        assert(wt * q - t * w == -r);
    } else {
        let m = -t;
        let q = (m * w) / wt;
        let r = (m * w) % wt;
        assert(m * w >= 0) by (nonlinear_arith)
            requires
                m >= 0,
                w >= 0,
        ;
        lemma_fundamental_div_mod(m * w, wt);
        assert(0 <= r < wt);
        assert(q >= 0) by (nonlinear_arith)
            requires
                m * w == wt * q + r,
                m * w >= 0,
                0 <= r < wt,
                wt > 0,
        ;
        assert(provisional_share(t, w, wt) == -q);
        assert(wt * (-q) == -(wt * q)) by (nonlinear_arith);
        assert(t * w == -(m * w)) by (nonlinear_arith)
            requires
                m == -t,
        ;
        assert(wt * (-q) - t * w == r);
    }
}

/// A truncated share of a weight never exceeds the whole (nonnegative) total.
proof fn lemma_share_le_total(mag: int, w: int, wt: int)
    requires
        0 <= mag,
        0 <= w <= wt,
        0 < wt,
    ensures
        0 <= (mag * w) / wt <= mag,
{
    assert(mag * w >= 0) by (nonlinear_arith)
        requires
            mag >= 0,
            w >= 0,
    ;
    vstd::arithmetic::div_mod::lemma_div_pos_is_pos(mag * w, wt);
    vstd::arithmetic::mul::lemma_mul_inequality(w, wt, mag);
    assert(mag * w == w * mag) by (nonlinear_arith);
    assert(wt * mag == mag * wt) by (nonlinear_arith);
    vstd::arithmetic::div_mod::lemma_multiply_divide_le(mag * w, wt, mag);
}

/// Sums a list of positive weights into a wide machine integer.
fn weight_sum(parts: &Vec<(i32, Currency)>) -> (r: u128)
    requires
        forall|k: int| 0 <= k < parts@.len() ==> (#[trigger] parts@[k]).1@ > 0,
    ensures
        r as int == value_total(parts@),
{
    let mut acc: u128 = 0;
    let mut i: usize = 0;
    while i < parts.len()
        invariant
            i <= parts@.len(),
            forall|k: int| 0 <= k < parts@.len() ==> (#[trigger] parts@[k]).1@ > 0,
            acc as int == value_total(parts@.take(i as int)),
            acc as int <= i as int * (i64::MAX as int),
        decreases parts@.len() - i,
    {
        proof {
            lemma_value_total_take_step(parts@, i as int);
        }
        acc = acc + (parts[i].1.as_minor() as u128);
        i = i + 1;
    }
    proof {
        assert(parts@.take(parts@.len() as int) =~= parts@);
    }
    acc
}

/// Computes the truncated proportional shares of `total` over positive
/// weights, and the rounding difference `total - sum(shares)`. The
/// difference has the total's sign and its magnitude is at most the number
/// of participants.
fn provisional_shares(total: Currency, parts: &Vec<(i32, Currency)>) -> (r: (
    Vec<(i32, Currency)>,
    i64,
))
    requires
        total@ > i64::MIN,
        parts@.len() > 0,
        forall|k: int| 0 <= k < parts@.len() ==> (#[trigger] parts@[k]).1@ > 0,
    ensures
        r.0@.len() == parts@.len(),
        forall|k: int| 0 <= k < parts@.len() ==> (#[trigger] r.0@[k]).0 == parts@[k].0,
        forall|k: int|
            0 <= k < parts@.len() ==> (#[trigger] r.0@[k]).1@ == provisional_share(
                total@,
                parts@[k].1@,
                value_total(parts@),
            ),
        forall|k: int| 0 <= k < parts@.len() ==> abs_of((#[trigger] r.0@[k]).1@) <= abs_of(total@),
        forall|k: int|
            0 <= k < parts@.len() ==> (total@ >= 0 ==> (#[trigger] r.0@[k]).1@ >= 0) && (total@ <= 0
                ==> r.0@[k].1@ <= 0),
        value_total(r.0@) == total@ - r.1 as int,
        total@ >= 0 ==> 0 <= r.1 as int,
        total@ < 0 ==> r.1 as int <= 0,
        abs_of(r.1 as int) <= parts@.len() as int,
        abs_of(r.1 as int) <= abs_of(total@),
{
    let ghost t: int = total@;
    let ghost wt: int = value_total(parts@);
    let wt_wide: u128 = weight_sum(parts);
    let t64: i64 = total.as_minor();
    let neg: bool = t64 < 0;
    let mag: u64 = if neg {
        (-t64) as u64
    } else {
        t64 as u64
    };
    proof {
        lemma_value_entry_le_total(parts@);
        assert(parts@[0].1@ > 0);
        assert(wt > 0);
    }
    let mut shares: Vec<(i32, Currency)> = Vec::new();
    let mut sum_mag: u64 = 0;
    let mut i: usize = 0;
    while i < parts.len()
        invariant
            i <= parts@.len(),
            forall|k: int| 0 <= k < parts@.len() ==> (#[trigger] parts@[k]).1@ > 0,
            forall|k: int| 0 <= k < parts@.len() ==> (#[trigger] parts@[k]).1@ <= wt,
            t == total@,
            t > i64::MIN,
            wt == value_total(parts@),
            wt > 0,
            wt_wide as int == wt,
            neg == (t < 0),
            mag as int == abs_of(t),
            mag as int <= i64::MAX as int,
            shares@.len() == i,
            forall|k: int| 0 <= k < i ==> (#[trigger] shares@[k]).0 == parts@[k].0,
            forall|k: int|
                0 <= k < i ==> (#[trigger] shares@[k]).1@ == provisional_share(
                    t,
                    parts@[k].1@,
                    wt,
                ),
            sum_mag as int == provisional_total(mag as int, parts@.take(i as int), wt),
            sum_mag <= mag,
            value_total(shares@) == (if neg {
                -(sum_mag as int)
            } else {
                sum_mag as int
            }),
        decreases parts@.len() - i,
    {
        let w64: i64 = parts[i].1.as_minor();
        let w: u64 = w64 as u64;
        proof {
            assert((mag as int) * (w as int) <= u128::MAX as int) by (nonlinear_arith)
                requires
                    0 <= mag as int <= 0xffff_ffff_ffff_ffff,
                    0 <= w as int <= 0xffff_ffff_ffff_ffff,
            ;
        }
        let p: u128 = (mag as u128) * (w as u128);
        let q_wide: u128 = p / wt_wide;
        proof {
            lemma_share_le_total(mag as int, w as int, wt);
        }
        let q: u64 = q_wide as u64;
        let q64: i64 = q as i64;
        let share: i64 = if neg {
            -q64
        } else {
            q64
        };
        proof {
            assert(share as int == provisional_share(t, parts@[i as int].1@, wt));
            lemma_value_total_push(shares@, (parts@[i as int].0, Currency { cents: share }));
            lemma_provisional_total_push(
                mag as int,
                parts@.take(i as int),
                parts@[i as int],
                wt,
            );
            assert(parts@.take(i as int).push(parts@[i as int]) =~= parts@.take(i + 1));
            assert forall|k: int| 0 <= k < parts@.take(i + 1).len() implies (#[trigger] parts@.take(
                i + 1,
            )[k]).1@ >= 0 by {
                assert(parts@.take(i + 1)[k] == parts@[k]);
            }
            lemma_provisional_total_bounds(mag as int, parts@.take(i + 1), wt);
            assert(value_total(parts@.take(i + 1)) <= wt) by {
                lemma_value_total_take_step(parts@, i as int);
                lemma_value_total_rest_nonneg(parts@, i + 1);
            }
            assert(wt * provisional_total(mag as int, parts@.take(i + 1), wt) <= (mag as int)
                * wt) by {
                vstd::arithmetic::mul::lemma_mul_inequality(
                    value_total(parts@.take(i + 1)),
                    wt,
                    mag as int,
                );
                assert((mag as int) * value_total(parts@.take(i + 1)) == value_total(
                    parts@.take(i + 1),
                ) * (mag as int)) by (nonlinear_arith);
                assert((mag as int) * wt == wt * (mag as int)) by (nonlinear_arith);
            }
            assert(provisional_total(mag as int, parts@.take(i + 1), wt) <= mag as int) by (
            nonlinear_arith)
                requires
                    wt > 0,
                    wt * provisional_total(mag as int, parts@.take(i + 1), wt) <= (mag as int) * wt,
            ;
        }
        shares.push((parts[i].0, Currency::from_minor(share)));
        sum_mag = sum_mag + q;
        i = i + 1;
    }
    proof {
        assert(parts@.take(parts@.len() as int) =~= parts@);
        assert forall|k: int| 0 <= k < parts@.len() implies (#[trigger] parts@[k]).1@ >= 0 by {}
        lemma_provisional_total_bounds(mag as int, parts@, wt);
        assert(wt * provisional_total(mag as int, parts@, wt) >= (mag as int) * wt - parts@.len()
            * wt);
        assert(provisional_total(mag as int, parts@, wt) >= mag as int - parts@.len() as int) by (
        nonlinear_arith)
            requires
                wt > 0,
                wt * provisional_total(mag as int, parts@, wt) >= (mag as int) * wt - parts@.len()
                    * wt,
        ;
    }
    proof {
        assert forall|k: int| 0 <= k < parts@.len() implies abs_of((#[trigger] shares@[k]).1@)
            <= abs_of(t) by {
            lemma_share_le_total(mag as int, parts@[k].1@, wt);
            if t >= 0 {
                assert(shares@[k].1@ == (t * parts@[k].1@) / wt);
            } else {
                assert(shares@[k].1@ == -(((-t) * parts@[k].1@) / wt));
            }
        }
        assert forall|k: int|
            0 <= k < parts@.len() implies (t >= 0 ==> (#[trigger] shares@[k]).1@ >= 0) && (t <= 0
            ==> shares@[k].1@ <= 0) by {
            lemma_share_le_total(mag as int, parts@[k].1@, wt);
            if t >= 0 {
                assert(shares@[k].1@ == (t * parts@[k].1@) / wt);
            } else {
                assert(shares@[k].1@ == -(((-t) * parts@[k].1@) / wt));
            }
        }
    }
    let ssum: i64 = if neg {
        -(sum_mag as i64)
    } else {
        sum_mag as i64
    };
    let diff: i64 = t64 - ssum;
    (shares, diff)
}

/// A suffix-extended prefix of nonnegative values keeps the total at least
/// as large as the prefix total.
proof fn lemma_value_total_rest_nonneg(s: Seq<(i32, Currency)>, i: int)
    requires
        0 <= i <= s.len(),
        forall|k: int| 0 <= k < s.len() ==> (#[trigger] s[k]).1@ >= 0,
    ensures
        value_total(s.take(i)) <= value_total(s),
    decreases s.len() - i,
{
    if i == s.len() {
        assert(s.take(i) =~= s);
    } else {
        lemma_value_total_take_step(s, i);
        lemma_value_total_rest_nonneg(s, i + 1);
    }
}

/// Dropping zero entries does not change the total.
proof fn lemma_nonzero_value_total(s: Seq<(i32, Currency)>)
    ensures
        value_total(nonzero_entries(s)) == value_total(s),
    decreases s.len(),
{
    if s.len() > 0 {
        lemma_nonzero_value_total(s.drop_first());
        if s.first().1@ != 0 {
            assert((seq![s.first()] + nonzero_entries(s.drop_first())).drop_first()
                =~= nonzero_entries(s.drop_first()));
            assert(value_total(nonzero_entries(s)) == s.first().1@ + value_total(
                nonzero_entries(s.drop_first()),
            ));
        }
        assert(value_total(s) == s.first().1@ + value_total(s.drop_first()));
    }
}

/// In a list of nonnegative weights, the surviving nonzero entries are
/// strictly positive.
proof fn lemma_nonzero_entries_positive(s: Seq<(i32, Currency)>)
    requires
        forall|k: int| 0 <= k < s.len() ==> (#[trigger] s[k]).1@ >= 0,
    ensures
        forall|k: int|
            0 <= k < nonzero_entries(s).len() ==> (#[trigger] nonzero_entries(s)[k]).1@ > 0,
    decreases s.len(),
{
    if s.len() > 0 {
        assert forall|k: int| 0 <= k < s.drop_first().len() implies (#[trigger] s.drop_first()[k]).1@
            >= 0 by {
            assert(s.drop_first()[k] == s[k + 1]);
        }
        lemma_nonzero_entries_positive(s.drop_first());
        if s.first().1@ != 0 {
            assert forall|k: int|
                0 <= k < nonzero_entries(s).len() implies (#[trigger] nonzero_entries(s)[k]).1@
                > 0 by {
                if k == 0 {
                    assert(nonzero_entries(s)[0] == s.first());
                    assert(s[0].1@ >= 0);
                } else {
                    assert(nonzero_entries(s)[k] == nonzero_entries(s.drop_first())[k - 1]);
                }
            }
        } else {
            assert(nonzero_entries(s) == nonzero_entries(s.drop_first()));
        }
    }
}

/// Whether `k` is one of the chosen winner indices.
pub open spec fn is_winner(winners: Seq<usize>, k: int) -> bool {
    exists|j: int| 0 <= j < winners.len() && winners[j] as int == k
}

/// The one-minor-unit adjustment a winner receives.
pub open spec fn unit(gain: bool) -> int {
    if gain {
        1
    } else {
        -1
    }
}

/// Adds one minor unit (or subtracts one, when `gain` is false) to each
/// winner's share, leaving every other share untouched. This deterministic
/// step follows the random choice of winners and is exact for any list of
/// distinct winner indices, so its behavior is fully pinned down whatever
/// the randomness returned.
pub fn distribute_remainder(shares: Vec<(i32, Currency)>, winners: &Vec<usize>, gain: bool) -> (r:
    Vec<(i32, Currency)>)
    requires
        forall|j: int| 0 <= j < winners@.len() ==> ((#[trigger] winners@[j]) as int) < shares@.len(),
        forall|j1: int, j2: int| 0 <= j1 < j2 < winners@.len() ==> winners@[j1] != winners@[j2],
        forall|j: int|
            0 <= j < winners@.len() ==> (if gain {
                shares@[(#[trigger] winners@[j]) as int].1@ < i64::MAX
            } else {
                shares@[winners@[j] as int].1@ > i64::MIN
            }),
    ensures
        r@.len() == shares@.len(),
        forall|k: int| 0 <= k < shares@.len() ==> (#[trigger] r@[k]).0 == shares@[k].0,
        forall|k: int|
            0 <= k < shares@.len() && !is_winner(winners@, k) ==> (#[trigger] r@[k]).1@
                == shares@[k].1@,
        forall|j: int|
            0 <= j < winners@.len() ==> r@[(#[trigger] winners@[j]) as int].1@ == shares@[winners@[j]
                as int].1@ + unit(gain),
        value_total(r@) == value_total(shares@) + winners@.len() * unit(gain),
{
    let ghost orig = shares@;
    let mut out = shares;
    let mut j: usize = 0;
    while j < winners.len()
        invariant
            j <= winners@.len(),
            out@.len() == orig.len(),
            forall|jj: int| 0 <= jj < winners@.len() ==> ((#[trigger] winners@[jj]) as int)
                < orig.len(),
            forall|j1: int, j2: int| 0 <= j1 < j2 < winners@.len() ==> winners@[j1] != winners@[j2],
            forall|jj: int|
                0 <= jj < winners@.len() ==> (if gain {
                    orig[(#[trigger] winners@[jj]) as int].1@ < i64::MAX
                } else {
                    orig[winners@[jj] as int].1@ > i64::MIN
                }),
            forall|k: int| 0 <= k < orig.len() ==> (#[trigger] out@[k]).0 == orig[k].0,
            forall|k: int|
                0 <= k < orig.len() && !is_winner(winners@.take(j as int), k) ==> (
                #[trigger] out@[k]).1@ == orig[k].1@,
            forall|jj: int|
                0 <= jj < j ==> out@[(#[trigger] winners@[jj]) as int].1@ == orig[winners@[jj]
                    as int].1@ + unit(gain),
            value_total(out@) == value_total(orig) + j as int * unit(gain),
        decreases winners@.len() - j,
    {
        let idx: usize = winners[j];
        proof {
            assert(!is_winner(winners@.take(j as int), idx as int)) by {
                if is_winner(winners@.take(j as int), idx as int) {
                    let jj = choose|jj: int|
                        0 <= jj < j && ((#[trigger] winners@.take(j as int)[jj]) as int == idx as int);
                    assert(winners@[jj] == winners@[j as int]);
                }
            }
        }
        let e = out[idx];
        let one = Currency::from_minor(1);
        let adjusted = if gain {
            e.1.add(&one)
        } else {
            e.1.sub(&one)
        };
        let ghost before = out@;
        proof {
            lemma_value_total_update(before, idx as int, (e.0, adjusted));
        }
        out.set(idx, (e.0, adjusted));
        j = j + 1;
        proof {
            assert(winners@.take(j as int) =~= winners@.take(j - 1).push(winners@[j - 1]));
            assert forall|k: int|
                0 <= k < orig.len() && !is_winner(winners@.take(j as int), k) implies (
            #[trigger] out@[k]).1@ == orig[k].1@ by {
                assert(!is_winner(winners@.take(j - 1), k)) by {
                    if is_winner(winners@.take(j - 1), k) {
                        let jj = choose|jj: int|
                            0 <= jj < j - 1 && ((#[trigger] winners@.take(j - 1)[jj]) as int == k);
                        assert(winners@.take(j as int)[jj] as int == k);
                    }
                }
                assert(k != idx as int) by {
                    if k == idx as int {
                        assert(winners@.take(j as int)[j - 1] as int == k);
                    }
                }
            }
            assert forall|jj: int|
                0 <= jj < j implies out@[(#[trigger] winners@[jj]) as int].1@ == orig[winners@[jj]
                    as int].1@ + unit(gain) by {
                if jj < j - 1 {
                    assert(winners@[jj] != winners@[j - 1]);
                }
            }
        }
    }
    proof {
        assert(winners@.take(winners@.len() as int) =~= winners@);
        assert forall|k: int|
            0 <= k < orig.len() && !is_winner(winners@, k) implies (#[trigger] out@[k]).1@
            == orig[k].1@ by {
            assert(!is_winner(winners@.take(winners@.len() as int), k));
        }
    }
    out
}

/// Relies on `rand::seq::index::sample`: returns exactly `amount` distinct
/// indices drawn uniformly at random from `0..length` (in random order);
/// it panics when `amount > length`, which the precondition rules out.
#[verifier::external_body]
fn pick_winner_indices(length: usize, amount: usize) -> (r: Vec<usize>)
    requires
        amount <= length,
    ensures
        r@.len() == amount as int,
        forall|j: int| 0 <= j < r@.len() ==> ((#[trigger] r@[j]) as int) < length as int,
        forall|j1: int, j2: int| 0 <= j1 < j2 < r@.len() ==> r@[j1] != r@[j2],
{
    rand::seq::index::sample(&mut rand::thread_rng(), length, amount).into_vec()
}

/// Keeps the entries whose weight is not zero, in order.
fn filter_nonzero(weights: &Vec<(i32, Currency)>) -> (r: Vec<(i32, Currency)>)
    ensures
        r@ == nonzero_entries(weights@),
{
    let mut out: Vec<(i32, Currency)> = Vec::new();
    let mut i: usize = 0;
    while i < weights.len()
        invariant
            i <= weights@.len(),
            out@ == nonzero_entries(weights@.take(i as int)),
        decreases weights@.len() - i,
    {
        proof {
            lemma_nonzero_push(weights@.take(i as int), weights@[i as int]);
            assert(weights@.take(i as int).push(weights@[i as int]) =~= weights@.take(i + 1));
        }
        let e = weights[i];
        if !e.1.is_zero() {
            out.push(e);
        }
        i = i + 1;
    }
    proof {
        assert(weights@.take(weights@.len() as int) =~= weights@);
    }
    out
}

/// The input-validation failures for a weighted split request.
#[derive(Clone, Copy, Debug, PartialEq, Eq, Structural)]
pub enum SplitsError {
    /// The weights sum to zero, so there is nothing to normalize against.
    ZeroWeightTotal,
    /// A weight is negative.
    NegativeWeight,
    /// The amount cannot be negated within the minor-unit range.
    AmountOutOfRange,
}

/// Validates a weighted split request before it reaches the proration
/// engine: a weight map whose values sum to zero is an input error.
pub fn nonzero_splits(splits: &Vec<(i32, Currency)>) -> (r: Result<(), SplitsError>)
    ensures
        match r {
            Ok(u) => value_total(splits@) != 0,
            Err(SplitsError::ZeroWeightTotal) => value_total(splits@) == 0,
            Err(_) => false,
        },
{
    let mut acc: i128 = 0;
    let mut i: usize = 0;
    while i < splits.len()
        invariant
            i <= splits@.len(),
            acc as int == value_total(splits@.take(i as int)),
            abs_of(acc as int) <= i as int * 0x8000_0000_0000_0000,
        decreases splits@.len() - i,
    {
        proof {
            lemma_value_total_take_step(splits@, i as int);
        }
        acc = acc + (splits[i].1.as_minor() as i128);
        i = i + 1;
    }
    proof {
        assert(splits@.take(splits@.len() as int) =~= splits@);
    }
    if acc == 0 {
        Err(SplitsError::ZeroWeightTotal)
    } else {
        Ok(())
    }
}

/// Prorates `total` across the given weighted participants. Zero-weight
/// entries are dropped; each remaining participant receives the truncated
/// proportional share of `total`; and the minor units lost to truncation are
/// handed out, one each, to a randomly chosen set of participants, so that
/// the shares sum exactly to `total`. Every share carries the total's sign,
/// and, scaled by the weight total, sits within one weight-total unit of the
/// exact proportional value — strictly within, whenever the exact value is
/// not itself a whole number of minor units.
pub fn prorate(total: Currency, weights: &Vec<(i32, Currency)>) -> (shares: Vec<(i32, Currency)>)
    requires
        total@ > i64::MIN,
        forall|k: int| 0 <= k < weights@.len() ==> (#[trigger] weights@[k]).1@ >= 0,
        value_total(weights@) != 0,
    ensures
        shares@.len() == nonzero_entries(weights@).len(),
        forall|k: int|
            0 <= k < shares@.len() ==> (#[trigger] shares@[k]).0 == nonzero_entries(weights@)[k].0,
        value_total(shares@) == total@,
        forall|k: int|
            0 <= k < shares@.len() ==> (total@ >= 0 ==> (#[trigger] shares@[k]).1@ >= 0) && (total@
                <= 0 ==> shares@[k].1@ <= 0),
        forall|k: int|
            0 <= k < shares@.len() ==> abs_of(
                value_total(weights@) * (#[trigger] shares@[k]).1@ - total@ * nonzero_entries(
                    weights@,
                )[k].1@,
            ) <= value_total(weights@),
        forall|k: int|
            0 <= k < shares@.len() && (abs_of(total@) * nonzero_entries(weights@)[k].1@)
                % value_total(weights@) != 0 ==> abs_of(
                value_total(weights@) * (#[trigger] shares@[k]).1@ - total@ * nonzero_entries(
                    weights@,
                )[k].1@,
            ) < value_total(weights@),
        forall|k: int|
            0 <= k < shares@.len() ==> (#[trigger] shares@[k]).1@ == provisional_share(
                total@,
                nonzero_entries(weights@)[k].1@,
                value_total(weights@),
            ) || shares@[k].1@ == provisional_share(
                total@,
                nonzero_entries(weights@)[k].1@,
                value_total(weights@),
            ) + (if total@ >= 0 {
                1int
            } else {
                -1int
            }),
{
    let ghost t: int = total@;
    let ghost wt: int = value_total(weights@);
    let parts = filter_nonzero(weights);
    proof {
        lemma_nonzero_value_total(weights@);
        lemma_nonzero_entries_positive(weights@);
        lemma_value_entry_le_total(parts@);
        assert(wt > 0);
        assert(parts@.len() > 0) by {
            if parts@.len() == 0 {
                assert(value_total(parts@) == 0);
            }
        }
    }
    let pair = provisional_shares(total, &parts);
    let prov = pair.0;
    let diff = pair.1;
    let gain = diff > 0;
    let count: usize = if diff < 0 {
        (-diff) as usize
    } else {
        diff as usize
    };
    let winners = pick_winner_indices(prov.len(), count);
    proof {
        if gain {
            lemma_value_entry_le_total(prov@);
        }
        assert forall|j: int| 0 <= j < winners@.len() implies (if gain {
            prov@[(#[trigger] winners@[j]) as int].1@ < i64::MAX
        } else {
            prov@[winners@[j] as int].1@ > i64::MIN
        }) by {
            let k = winners@[j] as int;
            if gain {
                assert(prov@[k].1@ <= value_total(prov@));
                assert(value_total(prov@) == t - diff as int);
            } else {
                assert(abs_of(prov@[k].1@) <= abs_of(t));
            }
        }
    }
    let ghost prov_view = prov@;
    let shares = distribute_remainder(prov, &winners, gain);
    proof {
        assert(winners@.len() * unit(gain) == diff as int) by {
            if gain {
                assert(winners@.len() * 1 == winners@.len());
            } else {
                assert(winners@.len() * -1 == -(winners@.len() as int));
            }
        }
        assert(value_total(shares@) == t);
        let nz = nonzero_entries(weights@);
        assert(parts@ == nz);
        assert forall|k: int|
            0 <= k < shares@.len() implies ((t >= 0 ==> (#[trigger] shares@[k]).1@ >= 0) && (t <= 0
            ==> shares@[k].1@ <= 0) && abs_of(wt * shares@[k].1@ - t * nz[k].1@) <= wt && ((abs_of(t)
            * nz[k].1@) % wt != 0 ==> abs_of(wt * shares@[k].1@ - t * nz[k].1@) < wt) && (
        shares@[k].1@ == provisional_share(t, nz[k].1@, wt) || shares@[k].1@ == provisional_share(
            t,
            nz[k].1@,
            wt,
        ) + (if t >= 0 {
            1int
        } else {
            -1int
        }))) by {
            let w = nz[k].1@;
            let base = provisional_share(t, w, wt);
            let r = (abs_of(t) * w) % wt;
            lemma_provisional_share_close(t, w, wt);
            assert(prov_view[k].1@ == base);
            if is_winner(winners@, k) {
                let j = choose|j: int|
                    0 <= j < winners@.len() && ((#[trigger] winners@[j]) as int == k);
                assert(shares@[winners@[j] as int].1@ == prov_view[winners@[j] as int].1@ + unit(
                    gain,
                ));
                assert(shares@[k].1@ == base + unit(gain));
                assert(wt * (base + unit(gain)) == wt * base + wt * unit(gain)) by (nonlinear_arith);
                if gain {
                    assert(t >= 0);
                    assert(unit(gain) == 1);
                    assert(wt * base - t * w == -r);
                    assert(wt * shares@[k].1@ - t * w == wt - r);
                } else {
                    assert(diff < 0);
                    assert(t < 0);
                    assert(unit(gain) == -1);
                    assert(wt * base - t * w == r);
                    assert(wt * shares@[k].1@ - t * w == r - wt);
                }
            } else {
                assert(shares@[k].1@ == base);
            }
        }
    }
    shares
}

/// The mutation surface of the ledger engine.
pub struct Mutation;

impl Mutation {
    /// Splits an expenditure's amount across the weighted participants:
    /// validates the request, then prorates. The shares of a successful
    /// split sum exactly to the amount; each failure names the input error.
    pub fn set_splits(amount: Currency, splits: &Vec<(i32, Currency)>) -> (r: Result<
        Vec<(i32, Currency)>,
        SplitsError,
    >)
        ensures
            match r {
                Ok(shares) => {
                    &&& value_total(splits@) != 0
                    &&& value_total(shares@) == amount@
                    &&& shares@.len() == nonzero_entries(splits@).len()
                    &&& forall|k: int|
                        0 <= k < shares@.len() ==> (#[trigger] shares@[k]).0 == nonzero_entries(
                            splits@,
                        )[k].0
                    &&& forall|k: int|
                        0 <= k < shares@.len() ==> (amount@ >= 0 ==> (#[trigger] shares@[k]).1@
                            >= 0) && (amount@ <= 0 ==> shares@[k].1@ <= 0)
                    &&& forall|k: int|
                        0 <= k < shares@.len() ==> abs_of(
                            value_total(splits@) * (#[trigger] shares@[k]).1@ - amount@
                                * nonzero_entries(splits@)[k].1@,
                        ) <= value_total(splits@)
                    &&& forall|k: int|
                        0 <= k < shares@.len() ==> (#[trigger] shares@[k]).1@ == provisional_share(
                            amount@,
                            nonzero_entries(splits@)[k].1@,
                            value_total(splits@),
                        ) || shares@[k].1@ == provisional_share(
                            amount@,
                            nonzero_entries(splits@)[k].1@,
                            value_total(splits@),
                        ) + (if amount@ >= 0 {
                            1int
                        } else {
                            -1int
                        })
                },
                Err(SplitsError::ZeroWeightTotal) => value_total(splits@) == 0,
                Err(SplitsError::NegativeWeight) => {
                    &&& value_total(splits@) != 0
                    &&& exists|k: int| 0 <= k < splits@.len() && (#[trigger] splits@[k]).1@ < 0
                },
                Err(SplitsError::AmountOutOfRange) => {
                    &&& value_total(splits@) != 0
                    &&& (forall|k: int| 0 <= k < splits@.len() ==> (#[trigger] splits@[k]).1@ >= 0)
                    &&& amount@ == i64::MIN
                },
            },
    {
        if let Err(e) = nonzero_splits(splits) {
            return Err(e);
        }
        let mut i: usize = 0;
        while i < splits.len()
            invariant
                i <= splits@.len(),
                value_total(splits@) != 0,
                forall|k: int| 0 <= k < i ==> (#[trigger] splits@[k]).1@ >= 0,
            decreases splits@.len() - i,
        {
            if splits[i].1.is_negative() {
                proof {
                    assert(splits@[i as int].1@ < 0);
                }
                return Err(SplitsError::NegativeWeight);
            }
            i = i + 1;
        }
        if amount.as_minor() == i64::MIN {
            return Err(SplitsError::AmountOutOfRange);
        }
        Ok(prorate(amount, splits))
    }
}

} // verus!
