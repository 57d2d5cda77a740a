//! Debt settlement (netting): turns a map of per-user signed balances into an
//! ordered list of point-to-point transfers that zero every balance.
//!
//! A balance entry `(user, value)` is positive when the user is owed money and
//! negative when the user owes money. The engine greedily pairs the
//! largest-magnitude debtor with the largest-magnitude creditor until one side
//! runs out; a leftover side means the input did not sum to zero and is
//! reported as a residue rather than silently dropped.

use vstd::prelude::*;

use crate::money::{Currency, value_total};

verus! {

broadcast use vstd::seq_lib::group_to_multiset_ensures;

/// The net position of user `u` in a balance list: the sum of the values of
/// the entries keyed by `u`.
pub open spec fn bal_of(s: Seq<(i32, Currency)>, u: int) -> int
    decreases s.len(),
{
    if s.len() == 0 {
        0
    } else {
        (if s.first().0 == u {
            s.first().1@
        } else {
            0
        }) + bal_of(s.drop_first(), u)
    }
}

/// The signed adjustment a transfer list makes to user `u`'s balance: a
/// transfer `(from, to, amount)` raises `from`'s balance by `amount` (the
/// debt is paid off) and lowers `to`'s by `amount` (the credit is repaid).
pub open spec fn transfer_effect(ts: Seq<(i32, i32, Currency)>, u: int) -> int
    decreases ts.len(),
{
    if ts.len() == 0 {
        0
    } else {
        (if ts.first().0 == u {
            ts.first().2@
        } else {
            0
        }) - (if ts.first().1 == u {
            ts.first().2@
        } else {
            0
        }) + transfer_effect(ts.drop_first(), u)
    }
}

/// Whether some entry is keyed by `id` with a negative value.
pub open spec fn has_negative_entry(s: Seq<(i32, Currency)>, id: i32) -> bool {
    exists|k: int| 0 <= k < s.len() && (#[trigger] s[k]).0 == id && s[k].1@ < 0
}

/// Whether some entry is keyed by `id` with a positive value.
pub open spec fn has_positive_entry(s: Seq<(i32, Currency)>, id: i32) -> bool {
    exists|k: int| 0 <= k < s.len() && (#[trigger] s[k]).0 == id && s[k].1@ > 0
}

/// The number of entries with a nonzero value.
pub open spec fn nonzero_count(s: Seq<(i32, Currency)>) -> int
    decreases s.len(),
{
    if s.len() == 0 {
        0
    } else {
        (if s.first().1@ != 0 {
            1int
        } else {
            0int
        }) + nonzero_count(s.drop_first())
    }
}

/// The number of entries keyed by `id`.
pub open spec fn id_count(s: Seq<(i32, Currency)>, id: i32) -> int
    decreases s.len(),
{
    if s.len() == 0 {
        0
    } else {
        (if s.first().0 == id {
            1int
        } else {
            0int
        }) + id_count(s.drop_first(), id)
    }
}

/// No two entries share a key.
pub open spec fn ids_distinct(s: Seq<(i32, Currency)>) -> bool {
    forall|i: int, j: int| 0 <= i < j < s.len() ==> (#[trigger] s[i]).0 != (#[trigger] s[j]).0
}

/// Appending an entry adds its value to the keyed sum and to the total.
proof fn lemma_bal_push(s: Seq<(i32, Currency)>, e: (i32, Currency))
    ensures
        forall|u: int| #[trigger]
            bal_of(s.push(e), u) == bal_of(s, u) + (if e.0 == u {
                e.1@
            } else {
                0
            }),
        value_total(s.push(e)) == value_total(s) + e.1@,
        nonzero_count(s.push(e)) == nonzero_count(s) + (if e.1@ != 0 {
            1int
        } else {
            0int
        }),
        forall|id: i32| #[trigger]
            id_count(s.push(e), id) == id_count(s, id) + (if e.0 == id {
                1int
            } else {
                0int
            }),
    decreases s.len(),
{
    if s.len() == 0 {
        assert(s.push(e).drop_first() =~= s);
        assert forall|u: int|
            bal_of(s.push(e), u) == bal_of(s, u) + (if e.0 == u {
                e.1@
            } else {
                0
            }) by {
            assert(bal_of(s.push(e).drop_first(), u) == 0);
        }
        assert(nonzero_count(s.push(e)) == (if e.1@ != 0 {
            1int
        } else {
            0int
        }) + nonzero_count(s));
        assert forall|id: i32|
            id_count(s.push(e), id) == id_count(s, id) + (if e.0 == id {
                1int
            } else {
                0int
            }) by {
            assert(id_count(s.push(e).drop_first(), id) == 0);
        }
    } else {
        assert(s.push(e).drop_first() =~= s.drop_first().push(e));
        lemma_bal_push(s.drop_first(), e);
        assert forall|u: int|
            bal_of(s.push(e), u) == bal_of(s, u) + (if e.0 == u {
                e.1@
            } else {
                0
            }) by {
            assert(bal_of(s.drop_first().push(e), u) == bal_of(s.drop_first(), u) + (if e.0 == u {
                e.1@
            } else {
                0
            }));
        }
        assert(nonzero_count(s.push(e)) == (if s.first().1@ != 0 {
            1int
        } else {
            0int
        }) + nonzero_count(s.push(e).drop_first()));
        assert(nonzero_count(s) == (if s.first().1@ != 0 {
            1int
        } else {
            0int
        }) + nonzero_count(s.drop_first()));
        assert forall|id: i32|
            id_count(s.push(e), id) == id_count(s, id) + (if e.0 == id {
                1int
            } else {
                0int
            }) by {
            assert(id_count(s.drop_first().push(e), id) == id_count(s.drop_first(), id) + (if e.0
                == id {
                1int
            } else {
                0int
            }));
            assert(id_count(s.push(e), id) == (if s.first().0 == id {
                1int
            } else {
                0int
            }) + id_count(s.push(e).drop_first(), id));
            assert(id_count(s, id) == (if s.first().0 == id {
                1int
            } else {
                0int
            }) + id_count(s.drop_first(), id));
        }
    }
}

/// Dropping the last entry subtracts its value from the keyed sum and total.
proof fn lemma_bal_drop_last(s: Seq<(i32, Currency)>)
    requires
        s.len() > 0,
    ensures
        forall|u: int| #[trigger]
            bal_of(s.drop_last(), u) == bal_of(s, u) - (if s.last().0 == u {
                s.last().1@
            } else {
                0
            }),
        value_total(s.drop_last()) == value_total(s) - s.last().1@,
        forall|id: i32| #[trigger]
            id_count(s.drop_last(), id) == id_count(s, id) - (if s.last().0 == id {
                1int
            } else {
                0int
            }),
{
    lemma_bal_push(s.drop_last(), s.last());
    assert(s.drop_last().push(s.last()) =~= s);
}

/// Removing the entry at index `j` subtracts its value.
proof fn lemma_bal_remove(s: Seq<(i32, Currency)>, j: int)
    requires
        0 <= j < s.len(),
    ensures
        forall|u: int| #[trigger]
            bal_of(s.remove(j), u) == bal_of(s, u) - (if s[j].0 == u {
                s[j].1@
            } else {
                0
            }),
        value_total(s.remove(j)) == value_total(s) - s[j].1@,
        nonzero_count(s.remove(j)) == nonzero_count(s) - (if s[j].1@ != 0 {
            1int
        } else {
            0int
        }),
        forall|id: i32| #[trigger]
            id_count(s.remove(j), id) == id_count(s, id) - (if s[j].0 == id {
                1int
            } else {
                0int
            }),
    decreases j,
{
    if j == 0 {
        assert(s.remove(0) =~= s.drop_first());
        assert forall|u: int|
            bal_of(s.remove(j), u) == bal_of(s, u) - (if s[j].0 == u {
                s[j].1@
            } else {
                0
            }) by {
            assert(bal_of(s, u) == (if s.first().0 == u {
                s.first().1@
            } else {
                0
            }) + bal_of(s.drop_first(), u));
        }
        assert(value_total(s) == s.first().1@ + value_total(s.drop_first()));
        assert(nonzero_count(s) == (if s.first().1@ != 0 {
            1int
        } else {
            0int
        }) + nonzero_count(s.drop_first()));
        assert forall|id: i32|
            id_count(s.remove(j), id) == id_count(s, id) - (if s[j].0 == id {
                1int
            } else {
                0int
            }) by {
            assert(id_count(s, id) == (if s.first().0 == id {
                1int
            } else {
                0int
            }) + id_count(s.drop_first(), id));
        }
    } else {
        assert(s.remove(j).drop_first() =~= s.drop_first().remove(j - 1));
        lemma_bal_remove(s.drop_first(), j - 1);
        assert forall|u: int|
            bal_of(s.remove(j), u) == bal_of(s, u) - (if s[j].0 == u {
                s[j].1@
            } else {
                0
            }) by {
            assert(s.drop_first()[j - 1] == s[j]);
            assert(bal_of(s.drop_first().remove(j - 1), u) == bal_of(s.drop_first(), u) - (if s[j].0
                == u {
                s[j].1@
            } else {
                0
            }));
            assert(bal_of(s.remove(j), u) == (if s.first().0 == u {
                s.first().1@
            } else {
                0
            }) + bal_of(s.remove(j).drop_first(), u));
            assert(bal_of(s, u) == (if s.first().0 == u {
                s.first().1@
            } else {
                0
            }) + bal_of(s.drop_first(), u));
        }
        assert(value_total(s.remove(j)) == s.first().1@ + value_total(s.remove(j).drop_first()));
        assert(value_total(s) == s.first().1@ + value_total(s.drop_first()));
        assert(nonzero_count(s.remove(j)) == (if s.first().1@ != 0 {
            1int
        } else {
            0int
        }) + nonzero_count(s.remove(j).drop_first()));
        assert(nonzero_count(s) == (if s.first().1@ != 0 {
            1int
        } else {
            0int
        }) + nonzero_count(s.drop_first()));
        assert(s.drop_first()[j - 1] == s[j]);
        assert forall|id: i32|
            id_count(s.remove(j), id) == id_count(s, id) - (if s[j].0 == id {
                1int
            } else {
                0int
            }) by {
            assert(id_count(s.drop_first().remove(j - 1), id) == id_count(s.drop_first(), id) - (
            if s[j].0 == id {
                1int
            } else {
                0int
            }));
            assert(id_count(s.remove(j), id) == (if s.first().0 == id {
                1int
            } else {
                0int
            }) + id_count(s.remove(j).drop_first(), id));
            assert(id_count(s, id) == (if s.first().0 == id {
                1int
            } else {
                0int
            }) + id_count(s.drop_first(), id));
        }
    }
}

/// Balance sums only depend on which entries a list holds, not their order.
proof fn lemma_bal_permutation(s1: Seq<(i32, Currency)>, s2: Seq<(i32, Currency)>)
    requires
        s1.to_multiset() == s2.to_multiset(),
    ensures
        forall|u: int| #[trigger] bal_of(s1, u) == bal_of(s2, u),
        value_total(s1) == value_total(s2),
        nonzero_count(s1) == nonzero_count(s2),
        forall|id: i32| #[trigger] id_count(s1, id) == id_count(s2, id),
    decreases s1.len(),
{
    if s1.len() == 0 {
        assert(s2.to_multiset().len() == 0);
        assert(s2.len() == 0);
    } else {
        let x = s1.first();
        assert(s1.to_multiset().count(x) > 0) by {
            assert(s1.contains(x));
        }
        assert(s2.contains(x));
        let j = choose|j: int| 0 <= j < s2.len() && s2[j] == x;
        assert(s1.drop_first() =~= s1.remove(0));
        assert(s1.remove(0).to_multiset() == s1.to_multiset().remove(x));
        assert(s2.remove(j).to_multiset() == s2.to_multiset().remove(x));
        lemma_bal_permutation(s1.drop_first(), s2.remove(j));
        lemma_bal_remove(s2, j);
        assert forall|u: int| #[trigger] bal_of(s1, u) == bal_of(s2, u) by {
            assert(bal_of(s1.drop_first(), u) == bal_of(s2.remove(j), u));
        }
        assert(nonzero_count(s1) == (if s1.first().1@ != 0 {
            1int
        } else {
            0int
        }) + nonzero_count(s1.drop_first()));
        assert forall|id: i32| #[trigger] id_count(s1, id) == id_count(s2, id) by {
            assert(id_count(s1.drop_first(), id) == id_count(s2.remove(j), id));
            assert(id_count(s1, id) == (if s1.first().0 == id {
                1int
            } else {
                0int
            }) + id_count(s1.drop_first(), id));
        }
    }
}

/// Recording one more transfer adjusts the two parties' effects by its amount.
pub(crate) proof fn lemma_effect_push(ts: Seq<(i32, i32, Currency)>, t: (i32, i32, Currency))
    ensures
        forall|u: int| #[trigger]
            transfer_effect(ts.push(t), u) == transfer_effect(ts, u) + (if t.0 == u {
                t.2@
            } else {
                0
            }) - (if t.1 == u {
                t.2@
            } else {
                0
            }),
    decreases ts.len(),
{
    if ts.len() == 0 {
        assert(ts.push(t).drop_first() =~= ts);
        assert forall|u: int|
            transfer_effect(ts.push(t), u) == transfer_effect(ts, u) + (if t.0 == u {
                t.2@
            } else {
                0
            }) - (if t.1 == u {
                t.2@
            } else {
                0
            }) by {
            assert(transfer_effect(ts.push(t).drop_first(), u) == 0);
        }
    } else {
        assert(ts.push(t).drop_first() =~= ts.drop_first().push(t));
        lemma_effect_push(ts.drop_first(), t);
        assert forall|u: int|
            transfer_effect(ts.push(t), u) == transfer_effect(ts, u) + (if t.0 == u {
                t.2@
            } else {
                0
            }) - (if t.1 == u {
                t.2@
            } else {
                0
            }) by {
            assert(transfer_effect(ts.drop_first().push(t), u) == transfer_effect(ts.drop_first(), u)
                + (if t.0 == u {
                t.2@
            } else {
                0
            }) - (if t.1 == u {
                t.2@
            } else {
                0
            }));
        }
    }
}

/// Extending the prefix of a list by one entry extends its sums by that entry.
proof fn lemma_bal_take_step(s: Seq<(i32, Currency)>, i: int)
    requires
        0 <= i < s.len(),
    ensures
        forall|u: int| #[trigger]
            bal_of(s.take(i + 1), u) == bal_of(s.take(i), u) + (if s[i].0 == u {
                s[i].1@
            } else {
                0
            }),
        value_total(s.take(i + 1)) == value_total(s.take(i)) + s[i].1@,
        nonzero_count(s.take(i + 1)) == nonzero_count(s.take(i)) + (if s[i].1@ != 0 {
            1int
        } else {
            0int
        }),
        forall|id: i32| #[trigger]
            id_count(s.take(i + 1), id) == id_count(s.take(i), id) + (if s[i].0 == id {
                1int
            } else {
                0int
            }),
{
    lemma_bal_push(s.take(i), s[i]);
    assert(s.take(i).push(s[i]) =~= s.take(i + 1));
}

/// A nonempty list of strictly negative values has a strictly negative total.
proof fn lemma_total_all_negative(s: Seq<(i32, Currency)>)
    requires
        s.len() > 0,
        forall|i: int| 0 <= i < s.len() ==> (#[trigger] s[i]).1@ < 0,
    ensures
        value_total(s) < 0,
    decreases s.len(),
{
    assert(s[0].1@ < 0);
    if s.len() > 1 {
        assert forall|i: int| 0 <= i < s.drop_first().len() implies (#[trigger] s.drop_first()[i]).1@
            < 0 by {
            assert(s.drop_first()[i] == s[i + 1]);
        }
        lemma_total_all_negative(s.drop_first());
    } else {
        assert(value_total(s.drop_first()) == 0);
    }
}

/// A nonempty list of strictly positive values has a strictly positive total.
proof fn lemma_total_all_positive(s: Seq<(i32, Currency)>)
    requires
        s.len() > 0,
        forall|i: int| 0 <= i < s.len() ==> (#[trigger] s[i]).1@ > 0,
    ensures
        value_total(s) > 0,
    decreases s.len(),
{
    assert(s[0].1@ > 0);
    if s.len() > 1 {
        assert forall|i: int| 0 <= i < s.drop_first().len() implies (#[trigger] s.drop_first()[i]).1@
            > 0 by {
            assert(s.drop_first()[i] == s[i + 1]);
        }
        lemma_total_all_positive(s.drop_first());
    } else {
        assert(value_total(s.drop_first()) == 0);
    }
}

/// Keys are counted nonnegatively.
proof fn lemma_id_count_nonneg(s: Seq<(i32, Currency)>, id: i32)
    ensures
        id_count(s, id) >= 0,
    decreases s.len(),
{
    if s.len() > 0 {
        lemma_id_count_nonneg(s.drop_first(), id);
    }
}

/// A key on no entry is counted zero times.
proof fn lemma_id_count_zero(s: Seq<(i32, Currency)>, id: i32)
    requires
        forall|k: int| 0 <= k < s.len() ==> (#[trigger] s[k]).0 != id,
    ensures
        id_count(s, id) == 0,
    decreases s.len(),
{
    if s.len() > 0 {
        assert forall|k: int| 0 <= k < s.drop_first().len() implies (#[trigger] s.drop_first()[k]).0
            != id by {
            assert(s.drop_first()[k] == s[k + 1]);
        }
        assert(s[0].0 != id);
        lemma_id_count_zero(s.drop_first(), id);
    }
}

/// A key on the entry at `j` is counted at least once.
proof fn lemma_id_count_at_least(s: Seq<(i32, Currency)>, id: i32, j: int)
    requires
        0 <= j < s.len(),
        s[j].0 == id,
    ensures
        id_count(s, id) >= 1,
    decreases j,
{
    lemma_id_count_nonneg(s.drop_first(), id);
    if s.first().0 != id {
        assert(s.drop_first()[j - 1] == s[j]);
        lemma_id_count_at_least(s.drop_first(), id, j - 1);
    }
}

/// Two entries with one key are counted at least twice.
proof fn lemma_id_count_two(s: Seq<(i32, Currency)>, id: i32, i: int, j: int)
    requires
        0 <= i < j < s.len(),
        s[i].0 == id,
        s[j].0 == id,
    ensures
        id_count(s, id) >= 2,
    decreases i,
{
    if i == 0 {
        assert(s.drop_first()[j - 1] == s[j]);
        lemma_id_count_at_least(s.drop_first(), id, j - 1);
    } else {
        assert(s.drop_first()[i - 1] == s[i]);
        assert(s.drop_first()[j - 1] == s[j]);
        lemma_id_count_two(s.drop_first(), id, i - 1, j - 1);
    }
}

/// With distinct keys, every key is counted at most once.
proof fn lemma_distinct_id_counts(s: Seq<(i32, Currency)>)
    requires
        ids_distinct(s),
    ensures
        forall|id: i32| #[trigger] id_count(s, id) <= 1,
    decreases s.len(),
{
    if s.len() > 0 {
        assert forall|a: int, b: int|
            0 <= a < b < s.drop_first().len() implies (#[trigger] s.drop_first()[a]).0 != (
        #[trigger] s.drop_first()[b]).0 by {
            assert(s.drop_first()[a] == s[a + 1] && s.drop_first()[b] == s[b + 1]);
        }
        lemma_distinct_id_counts(s.drop_first());
        assert forall|id: i32| #[trigger] id_count(s, id) <= 1 by {
            if s.first().0 == id {
                assert forall|k: int|
                    0 <= k < s.drop_first().len() implies (#[trigger] s.drop_first()[k]).0 != id by {
                    assert(s.drop_first()[k] == s[k + 1]);
                    assert(s[0].0 != s[k + 1].0);
                }
                lemma_id_count_zero(s.drop_first(), id);
            } else {
                assert(id_count(s.drop_first(), id) <= 1);
            }
        }
    }
}

/// Keys counted at most once are distinct.
proof fn lemma_counts_distinct(s: Seq<(i32, Currency)>)
    requires
        forall|id: i32| #[trigger] id_count(s, id) <= 1,
    ensures
        ids_distinct(s),
{
    assert forall|a: int, b: int|
        0 <= a < b < s.len() implies (#[trigger] s[a]).0 != (#[trigger] s[b]).0 by {
        if s[a].0 == s[b].0 {
            lemma_id_count_two(s, s[a].0, a, b);
            assert(id_count(s, s[a].0) <= 1);
        }
    }
}

/// Entries in ascending order of value.
pub open spec fn sorted_by_value(s: Seq<(i32, Currency)>) -> bool {
    forall|i: int, j: int| 0 <= i < j < s.len() ==> s[i].1@ <= s[j].1@
}

/// Stable insertion sort of balance entries, ascending by value. Entries of
/// equal value keep their input order, so the result is deterministic for a
/// fixed input.
fn sort_by_value(v: &Vec<(i32, Currency)>) -> (r: Vec<(i32, Currency)>)
    ensures
        r@.to_multiset() == v@.to_multiset(),
        sorted_by_value(r@),
{
    let mut out: Vec<(i32, Currency)> = Vec::new();
    let mut i: usize = 0;
    while i < v.len()
        invariant
            i <= v@.len(),
            out@.to_multiset() == v@.take(i as int).to_multiset(),
            sorted_by_value(out@),
        decreases v@.len() - i,
    {
        let x = v[i];
        let mut j: usize = 0;
        while j < out.len() && !x.1.lt(&out[j].1)
            invariant
                j <= out@.len(),
                forall|k: int| 0 <= k < j ==> (#[trigger] out@[k]).1@ <= x.1@,
            decreases out@.len() - j,
        {
            j = j + 1;
        }
        let ghost prev = out@;
        out.insert(j, x);
        proof {
            assert(v@.take(i + 1) =~= v@.take(i as int).push(v@[i as int]));
            assert(out@.to_multiset() == v@.take(i + 1).to_multiset());
            assert forall|a: int, b: int| 0 <= a < b < out@.len() implies out@[a].1@
                <= out@[b].1@ by {
                assert(out@ == prev.insert(j as int, x));
                if a < j && b < j {
                    assert(out@[a] == prev[a] && out@[b] == prev[b]);
                } else if a < j && b == j {
                    assert(out@[a] == prev[a]);
                } else if a < j && b > j {
                    assert(out@[a] == prev[a] && out@[b] == prev[b - 1]);
                    if j < prev.len() {
                        assert(prev[a].1@ <= prev[b - 1].1@);
                    }
                } else if a == j && b > j {
                    assert(out@[b] == prev[b - 1]);
                    assert(x.1@ < prev[j as int].1@);
                    assert(prev[j as int].1@ <= prev[b - 1].1@);
                } else {
                    assert(out@[a] == prev[a - 1] && out@[b] == prev[b - 1]);
                }
            }
        }
        i = i + 1;
    }
    proof {
        assert(v@.take(v@.len() as int) =~= v@);
    }
    out
}

/// The settlement engine's failure value: the balances left over when one
/// side of the netting runs out, meaning the input did not sum to zero.
/// `CollectiveDebt` carries leftover debtors (the household as a whole owes
/// an outside party); `CollectiveCredit` carries leftover creditors.
#[derive(Debug, PartialEq, Eq)]
pub enum SettleError {
    CollectiveDebt(Vec<(i32, Currency)>),
    CollectiveCredit(Vec<(i32, Currency)>),
}

/// The ledger computation engine's query surface.
pub struct Query;

impl Query {
    /// Computes a transfer plan that settles the given balances.
    ///
    /// Succeeds exactly when the balances sum to zero; the resulting
    /// transfers, applied as signed adjustments, drive every user's balance
    /// to zero. Every transfer moves a positive amount from a user the input
    /// lists with a negative balance to one it lists with a positive
    /// balance — never from a user to themself, when the input's keys are
    /// distinct — and the greedy pairing needs strictly fewer transfers than
    /// there are nonzero balances. On a nonzero sum it fails with the
    /// residual entries: each is keyed by an input user of the same sign,
    /// their keys are distinct whenever the input's are, and their signed
    /// sum equals the input's total. An input of all-zero balances yields an
    /// empty plan.
    pub fn settle(debts: Vec<(i32, Currency)>) -> (r: Result<
        Vec<(i32, i32, Currency)>,
        SettleError,
    >)
        ensures
            match r {
                Ok(ts) => {
                    &&& value_total(debts@) == 0
                    &&& forall|u: int| #[trigger] bal_of(debts@, u) + transfer_effect(ts@, u) == 0
                    &&& forall|i: int| 0 <= i < ts@.len() ==> (#[trigger] ts@[i]).2@ > 0
                    &&& forall|i: int|
                        0 <= i < ts@.len() ==> has_negative_entry(debts@, (#[trigger] ts@[i]).0)
                            && has_positive_entry(debts@, ts@[i].1)
                    &&& (forall|i: int| 0 <= i < debts@.len() ==> (#[trigger] debts@[i]).1@ == 0)
                        ==> ts@.len() == 0
                    &&& nonzero_count(debts@) == 0 ==> ts@.len() == 0
                    &&& nonzero_count(debts@) > 0 ==> ts@.len() + 1 <= nonzero_count(debts@)
                    &&& ids_distinct(debts@) ==> forall|i: int|
                        0 <= i < ts@.len() ==> (#[trigger] ts@[i]).0 != ts@[i].1
                },
                Err(SettleError::CollectiveDebt(res)) => {
                    &&& value_total(debts@) < 0
                    &&& value_total(res@) == value_total(debts@)
                    &&& res@.len() > 0
                    &&& forall|i: int| 0 <= i < res@.len() ==> (#[trigger] res@[i]).1@ < 0
                    &&& forall|i: int|
                        0 <= i < res@.len() ==> has_negative_entry(debts@, (#[trigger] res@[i]).0)
                    &&& ids_distinct(debts@) ==> ids_distinct(res@)
                },
                Err(SettleError::CollectiveCredit(res)) => {
                    &&& value_total(debts@) > 0
                    &&& value_total(res@) == value_total(debts@)
                    &&& res@.len() > 0
                    &&& forall|i: int| 0 <= i < res@.len() ==> (#[trigger] res@[i]).1@ > 0
                    &&& forall|i: int|
                        0 <= i < res@.len() ==> has_positive_entry(debts@, (#[trigger] res@[i]).0)
                    &&& ids_distinct(debts@) ==> ids_distinct(res@)
                },
            },
    {
        // Partition into debtors (negative) and creditors (positive),
        // discarding settled (zero) entries.
        let mut owes: Vec<(i32, Currency)> = Vec::new();
        let mut owed: Vec<(i32, Currency)> = Vec::new();
        let mut i: usize = 0;
        while i < debts.len()
            invariant
                i <= debts@.len(),
                forall|u: int| #[trigger]
                    bal_of(debts@.take(i as int), u) == bal_of(owes@, u) + bal_of(owed@, u),
                value_total(debts@.take(i as int)) == value_total(owes@) + value_total(owed@),
                forall|k: int| 0 <= k < owes@.len() ==> (#[trigger] owes@[k]).1@ < 0,
                forall|k: int| 0 <= k < owed@.len() ==> (#[trigger] owed@[k]).1@ > 0,
                forall|k: int|
                    0 <= k < owes@.len() ==> has_negative_entry(debts@, (#[trigger] owes@[k]).0),
                forall|k: int|
                    0 <= k < owed@.len() ==> has_positive_entry(debts@, (#[trigger] owed@[k]).0),
                owes@.len() + owed@.len() == nonzero_count(debts@.take(i as int)),
                forall|id: i32| #![trigger id_count(debts@.take(i as int), id)]
                    id_count(owes@, id) + id_count(owed@, id) <= id_count(
                        debts@.take(i as int),
                        id,
                    ),
                (forall|k: int| 0 <= k < i ==> (#[trigger] debts@[k]).1@ == 0) ==> owes@.len()
                    + owed@.len() == 0,
            decreases debts@.len() - i,
        {
            let e = debts[i];
            proof {
                lemma_bal_take_step(debts@, i as int);
                assert(debts@[i as int] == e);
            }
            if e.1.is_negative() {
                proof {
                    lemma_bal_push(owes@, e);
                    assert(has_negative_entry(debts@, e.0));
                }
                owes.push(e);
            } else if e.1.is_positive() {
                proof {
                    lemma_bal_push(owed@, e);
                    assert(has_positive_entry(debts@, e.0));
                }
                owed.push(e);
            }
            i = i + 1;
        }
        proof {
            assert(debts@.take(debts@.len() as int) =~= debts@);
        }

        // Greedy netting: repeatedly pair the largest-magnitude debtor with
        // the largest-magnitude creditor.
        let mut transfers: Vec<(i32, i32, Currency)> = Vec::new();
        while owes.len() > 0 && owed.len() > 0
            invariant
                forall|u: int| #[trigger]
                    bal_of(debts@, u) + transfer_effect(transfers@, u) == bal_of(owes@, u)
                        + bal_of(owed@, u),
                value_total(debts@) == value_total(owes@) + value_total(owed@),
                forall|k: int| 0 <= k < owes@.len() ==> (#[trigger] owes@[k]).1@ < 0,
                forall|k: int| 0 <= k < owed@.len() ==> (#[trigger] owed@[k]).1@ > 0,
                forall|k: int|
                    0 <= k < owes@.len() ==> has_negative_entry(debts@, (#[trigger] owes@[k]).0),
                forall|k: int|
                    0 <= k < owed@.len() ==> has_positive_entry(debts@, (#[trigger] owed@[k]).0),
                forall|k: int| 0 <= k < transfers@.len() ==> (#[trigger] transfers@[k]).2@ > 0,
                forall|k: int|
                    0 <= k < transfers@.len() ==> has_negative_entry(
                        debts@,
                        (#[trigger] transfers@[k]).0,
                    ) && has_positive_entry(debts@, transfers@[k].1),
                forall|id: i32| #![trigger id_count(debts@, id)]
                    id_count(owes@, id) + id_count(owed@, id) <= id_count(debts@, id),
                transfers@.len() + owes@.len() + owed@.len() <= nonzero_count(debts@),
                owes@.len() + owed@.len() == 0 ==> transfers@.len() == 0 || transfers@.len() + 1
                    <= nonzero_count(debts@),
                (forall|k: int| 0 <= k < debts@.len() ==> (#[trigger] debts@[k]).1@ == 0)
                    ==> transfers@.len() + owes@.len() + owed@.len() == 0,
            decreases owes@.len() + owed@.len(),
        {
            // Sort ascending by signed value: the most extreme debtor comes
            // first, the most extreme creditor last.
            let ghost owes_pre = owes@;
            let ghost owed_pre = owed@;
            let sorted_owes = sort_by_value(&owes);
            let sorted_owed = sort_by_value(&owed);
            owes = sorted_owes;
            owed = sorted_owed;
            proof {
                lemma_bal_permutation(owes_pre, owes@);
                lemma_bal_permutation(owed_pre, owed@);
                assert(owes@.len() == owes_pre.len() && owed@.len() == owed_pre.len()) by {
                    assert(owes@.to_multiset().len() == owes_pre.to_multiset().len());
                    assert(owed@.to_multiset().len() == owed_pre.to_multiset().len());
                }
                assert forall|k: int|
                    0 <= k < owes@.len() implies (#[trigger] owes@[k]).1@ < 0 && has_negative_entry(
                    debts@,
                    owes@[k].0,
                ) by {
                    let x = owes@[k];
                    assert(owes@.contains(x));
                    assert(owes@.to_multiset().count(x) > 0);
                    assert(owes_pre.contains(x));
                    let idx = choose|idx: int| 0 <= idx < owes_pre.len() && owes_pre[idx] == x;
                    assert(owes_pre[idx].1@ < 0);
                    assert(has_negative_entry(debts@, owes_pre[idx].0));
                }
                assert forall|k: int|
                    0 <= k < owed@.len() implies (#[trigger] owed@[k]).1@ > 0 && has_positive_entry(
                    debts@,
                    owed@[k].0,
                ) by {
                    let x = owed@[k];
                    assert(owed@.contains(x));
                    assert(owed@.to_multiset().count(x) > 0);
                    assert(owed_pre.contains(x));
                    let idx = choose|idx: int| 0 <= idx < owed_pre.len() && owed_pre[idx] == x;
                    assert(owed_pre[idx].1@ > 0);
                    assert(has_positive_entry(debts@, owed_pre[idx].0));
                }
                assert forall|id: i32| #![trigger id_count(debts@, id)]
                    id_count(owes@, id) + id_count(owed@, id) <= id_count(debts@, id) by {
                    assert(id_count(owes@, id) == id_count(owes_pre, id));
                    assert(id_count(owed@, id) == id_count(owed_pre, id));
                }
            }

            let ghost owes_sorted = owes@;
            let ghost owed_sorted = owed@;
            let debtor = owes.remove(0);
            let creditor = owed.pop().unwrap();
            proof {
                assert(owes@ =~= owes_sorted.drop_first());
                assert(owed@ =~= owed_sorted.drop_last());
                lemma_bal_drop_last(owed_sorted);
                assert(debtor == owes_sorted[0] && creditor == owed_sorted.last());
                assert(has_negative_entry(debts@, debtor.0));
                assert(has_positive_entry(debts@, creditor.0));
                assert forall|k: int|
                    0 <= k < owes@.len() implies has_negative_entry(
                    debts@,
                    (#[trigger] owes@[k]).0,
                ) by {
                    assert(owes@[k] == owes_sorted[k + 1]);
                }
                assert forall|k: int|
                    0 <= k < owed@.len() implies has_positive_entry(
                    debts@,
                    (#[trigger] owed@[k]).0,
                ) by {
                    assert(owed@[k] == owed_sorted[k]);
                }
                assert forall|id: i32| #![trigger id_count(debts@, id)]
                    id_count(owes@, id) + id_count(owed@, id) <= id_count(debts@, id) - (if debtor.0
                        == id {
                        1int
                    } else {
                        0int
                    }) - (if creditor.0 == id {
                        1int
                    } else {
                        0int
                    }) by {
                    assert(id_count(owes_sorted, id) == (if owes_sorted.first().0 == id {
                        1int
                    } else {
                        0int
                    }) + id_count(owes_sorted.drop_first(), id));
                    assert(id_count(owes_sorted, id) + id_count(owed_sorted, id) <= id_count(
                        debts@,
                        id,
                    ));
                }
            }

            let sum = debtor.1.add(&creditor.1);
            let amount: Currency;
            if sum.is_zero() {
                amount = creditor.1;
            } else if sum.is_positive() {
                let ghost owed_mid = owed@;
                proof {
                    lemma_bal_push(owed@, (creditor.0, sum));
                }
                owed.push((creditor.0, sum));
                proof {
                    assert forall|k: int|
                        0 <= k < owed@.len() implies has_positive_entry(
                        debts@,
                        (#[trigger] owed@[k]).0,
                    ) by {
                        if k < owed@.len() - 1 {
                            assert(owed@[k] == owed_mid[k]);
                        } else {
                            assert(owed@[k].0 == creditor.0);
                        }
                    }
                }
                amount = creditor.1.sub(&sum);
            } else {
                let ghost owes_mid = owes@;
                proof {
                    lemma_bal_push(owes@, (debtor.0, sum));
                }
                owes.push((debtor.0, sum));
                proof {
                    assert forall|k: int|
                        0 <= k < owes@.len() implies has_negative_entry(
                        debts@,
                        (#[trigger] owes@[k]).0,
                    ) by {
                        if k < owes@.len() - 1 {
                            assert(owes@[k] == owes_mid[k]);
                        } else {
                            assert(owes@[k].0 == debtor.0);
                        }
                    }
                }
                amount = creditor.1;
            }
            let ghost ts_mid = transfers@;
            proof {
                lemma_effect_push(transfers@, (debtor.0, creditor.0, amount));
            }
            transfers.push((debtor.0, creditor.0, amount));
            proof {
                assert forall|k: int|
                    0 <= k < transfers@.len() implies has_negative_entry(
                    debts@,
                    (#[trigger] transfers@[k]).0,
                ) && has_positive_entry(debts@, transfers@[k].1) by {
                    if k < transfers@.len() - 1 {
                        assert(transfers@[k] == ts_mid[k]);
                    } else {
                        assert(transfers@[k] == (debtor.0, creditor.0, amount));
                    }
                }
                assert forall|id: i32| #![trigger id_count(debts@, id)]
                    id_count(owes@, id) + id_count(owed@, id) <= id_count(debts@, id) by {}
            }
        }

        if owes.len() > 0 {
            proof {
                lemma_total_all_negative(owes@);
                if ids_distinct(debts@) {
                    lemma_distinct_id_counts(debts@);
                    assert forall|id: i32| #[trigger] id_count(owes@, id) <= 1 by {
                        lemma_id_count_nonneg(owed@, id);
                        assert(id_count(debts@, id) <= 1);
                    }
                    lemma_counts_distinct(owes@);
                }
            }
            Err(SettleError::CollectiveDebt(owes))
        } else if owed.len() > 0 {
            proof {
                lemma_total_all_positive(owed@);
                if ids_distinct(debts@) {
                    lemma_distinct_id_counts(debts@);
                    assert forall|id: i32| #[trigger] id_count(owed@, id) <= 1 by {
                        lemma_id_count_nonneg(owes@, id);
                        assert(id_count(debts@, id) <= 1);
                    }
                    lemma_counts_distinct(owed@);
                }
            }
            Err(SettleError::CollectiveCredit(owed))
        } else {
            proof {
                if ids_distinct(debts@) {
                    assert forall|i: int|
                        0 <= i < transfers@.len() implies (#[trigger] transfers@[i]).0
                        != transfers@[i].1 by {
                        if transfers@[i].0 == transfers@[i].1 {
                            let t = transfers@[i];
                            assert(has_negative_entry(debts@, t.0));
                            assert(has_positive_entry(debts@, t.1));
                            let k1 = choose|k: int|
                                0 <= k < debts@.len() && (#[trigger] debts@[k]).0 == t.0
                                    && debts@[k].1@ < 0;
                            let k2 = choose|k: int|
                                0 <= k < debts@.len() && (#[trigger] debts@[k]).0 == t.1
                                    && debts@[k].1@ > 0;
                            if k1 < k2 {
                                assert(debts@[k1].0 != debts@[k2].0);
                            } else {
                                assert(debts@[k2].0 != debts@[k1].0);
                            }
                        }
                    }
                }
            }
            Ok(transfers)
        }
    }
}

} // verus!
