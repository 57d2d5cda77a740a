//! Fixed-point money: an exact count of minor currency units (cents).
//!
//! All arithmetic is exact; no operation introduces fractional minor units.
//! Positive and negative values are both meaningful (a signed ledger position).

use vstd::prelude::*;

verus! {

/// An exact monetary value, counted in minor units (cents) of a single
/// fixed currency. The mathematical view of a `Currency` is the integer
/// number of minor units it holds.
#[derive(Clone, Copy, Debug, PartialEq, Eq, Hash, Structural)]
pub struct Currency {
    pub cents: i64,
}

impl View for Currency {
    type V = int;

    open spec fn view(&self) -> int {
        self.cents as int
    }
}

/// The sum, in minor units, of a sequence of monetary values.
pub open spec fn sum_view(s: Seq<Currency>) -> int
    decreases s.len(),
{
    if s.len() == 0 {
        0
    } else {
        s.first()@ + sum_view(s.drop_first())
    }
}

/// The sum of the magnitudes of a sequence of monetary values; a bound on
/// every partial sum, used to rule out overflow when summing.
pub open spec fn sum_abs(s: Seq<Currency>) -> int
    decreases s.len(),
{
    if s.len() == 0 {
        0
    } else {
        abs_of(s.first()@) + sum_abs(s.drop_first())
    }
}

/// Integer division truncated toward zero: the magnitudes divide and the
/// signs combine.
pub open spec fn trunc_div(a: int, b: int) -> int {
    if (a < 0) == (b < 0) {
        abs_of(a) / abs_of(b)
    } else {
        -(abs_of(a) / abs_of(b))
    }
}

/// The magnitude of an integer.
pub open spec fn abs_of(v: int) -> int {
    if v < 0 {
        -v
    } else {
        v
    }
}

/// The signed sum of the values in a keyed list of monetary entries, the
/// common shape of balance maps, weight maps and share lists.
pub open spec fn value_total(s: Seq<(i32, Currency)>) -> int
    decreases s.len(),
{
    if s.len() == 0 {
        0
    } else {
        s.first().1@ + value_total(s.drop_first())
    }
}

/// Appending an entry adds its value to the total.
pub proof fn lemma_value_total_push(s: Seq<(i32, Currency)>, e: (i32, Currency))
    ensures
        value_total(s.push(e)) == value_total(s) + e.1@,
    decreases s.len(),
{
    if s.len() == 0 {
        assert(s.push(e).drop_first() =~= s);
        assert(value_total(s.push(e)) == s.push(e).first().1@ + value_total(s.push(e).drop_first()));
    } else {
        assert(s.push(e).drop_first() =~= s.drop_first().push(e));
        lemma_value_total_push(s.drop_first(), e);
        assert(value_total(s.push(e)) == s.push(e).first().1@ + value_total(s.push(e).drop_first()));
        assert(value_total(s) == s.first().1@ + value_total(s.drop_first()));
    }
}

/// Extending a prefix by one entry extends its total by that entry's value.
pub proof fn lemma_value_total_take_step(s: Seq<(i32, Currency)>, i: int)
    requires
        0 <= i < s.len(),
    ensures
        value_total(s.take(i + 1)) == value_total(s.take(i)) + s[i].1@,
{
    lemma_value_total_push(s.take(i), s[i]);
    assert(s.take(i).push(s[i]) =~= s.take(i + 1));
}

/// Replacing the entry at index `i` swaps its value in the total.
pub proof fn lemma_value_total_update(s: Seq<(i32, Currency)>, i: int, e: (i32, Currency))
    requires
        0 <= i < s.len(),
    ensures
        value_total(s.update(i, e)) == value_total(s) - s[i].1@ + e.1@,
    decreases i,
{
    if i == 0 {
        assert(s.update(0, e).drop_first() =~= s.drop_first());
        assert(value_total(s.update(0, e)) == e.1@ + value_total(s.update(0, e).drop_first()));
        assert(value_total(s) == s.first().1@ + value_total(s.drop_first()));
    } else {
        assert(s.update(i, e).drop_first() =~= s.drop_first().update(i - 1, e));
        lemma_value_total_update(s.drop_first(), i - 1, e);
        assert(value_total(s.update(i, e)) == s.first().1@ + value_total(s.update(i, e).drop_first()));
        assert(value_total(s) == s.first().1@ + value_total(s.drop_first()));
    }
}

/// In a list of nonnegative values, every entry is at most the total, and
/// the total is nonnegative.
pub proof fn lemma_value_entry_le_total(s: Seq<(i32, Currency)>)
    requires
        forall|k: int| 0 <= k < s.len() ==> (#[trigger] s[k]).1@ >= 0,
    ensures
        value_total(s) >= 0,
        forall|k: int| 0 <= k < s.len() ==> (#[trigger] s[k]).1@ <= value_total(s),
    decreases s.len(),
{
    if s.len() > 0 {
        assert forall|k: int| 0 <= k < s.drop_first().len() implies (#[trigger] s.drop_first()[k]).1@
            >= 0 by {
            assert(s.drop_first()[k] == s[k + 1]);
        }
        lemma_value_entry_le_total(s.drop_first());
        assert(s[0].1@ >= 0);
        assert forall|k: int| 0 <= k < s.len() implies (#[trigger] s[k]).1@ <= value_total(s) by {
            if k > 0 {
                assert(s.drop_first()[k - 1] == s[k]);
                assert(s.drop_first()[k - 1].1@ <= value_total(s.drop_first()));
            }
        }
    }
}

impl Currency {
    /// The zero value: the identity of summation and the marker of a
    /// settled balance.
    pub fn zero() -> (r: Currency)
        ensures
            r@ == 0,
    {
        Currency { cents: 0 }
    }

    /// Constructs a value from a count of minor units.
    pub fn from_minor(cents: i64) -> (r: Currency)
        ensures
            r@ == cents as int,
    {
        Currency { cents }
    }

    /// The count of minor units this value holds.
    pub fn as_minor(&self) -> (r: i64)
        ensures
            r as int == self@,
    {
        self.cents
    }

    pub fn is_zero(&self) -> (r: bool)
        ensures
            r == (self@ == 0),
    {
        self.cents == 0
    }

    pub fn is_positive(&self) -> (r: bool)
        ensures
            r == (self@ > 0),
    {
        self.cents > 0
    }

    pub fn is_negative(&self) -> (r: bool)
        ensures
            r == (self@ < 0),
    {
        self.cents < 0
    }

    /// The magnitude of this value.
    pub fn abs(&self) -> (r: Currency)
        requires
            self@ > i64::MIN,
        ensures
            r@ == abs_of(self@),
    {
        if self.cents < 0 {
            Currency { cents: -self.cents }
        } else {
            *self
        }
    }

    /// Negation.
    pub fn neg(&self) -> (r: Currency)
        requires
            self@ > i64::MIN,
        ensures
            r@ == -self@,
    {
        Currency { cents: -self.cents }
    }

    /// Exact addition.
    pub fn add(&self, other: &Currency) -> (r: Currency)
        requires
            i64::MIN <= self@ + other@ <= i64::MAX,
        ensures
            r@ == self@ + other@,
    {
        Currency { cents: self.cents + other.cents }
    }

    /// Exact subtraction.
    pub fn sub(&self, other: &Currency) -> (r: Currency)
        requires
            i64::MIN <= self@ - other@ <= i64::MAX,
        ensures
            r@ == self@ - other@,
    {
        Currency { cents: self.cents - other.cents }
    }

    /// Scalar multiplication by an integer: exact, no fractional minor
    /// units arise.
    pub fn scale(&self, factor: i64) -> (r: Currency)
        requires
            i64::MIN <= self@ * factor <= i64::MAX,
        ensures
            r@ == self@ * factor,
    {
        Currency { cents: self.cents * factor }
    }

    /// Scalar division by an integer, truncating toward zero, the same
    /// rounding the proration engine uses for provisional shares.
    pub fn div_scalar(&self, divisor: i64) -> (r: Currency)
        requires
            divisor != 0,
            !(self@ == i64::MIN && divisor == -1),
        ensures
            r@ == trunc_div(self@, divisor as int),
    {
        let negative = (self.cents < 0) != (divisor < 0);
        let ma: u64 = if self.cents < 0 {
            (-(self.cents as i128)) as u64
        } else {
            self.cents as u64
        };
        let md: u64 = if divisor < 0 {
            (-(divisor as i128)) as u64
        } else {
            divisor as u64
        };
        let q: u64 = ma / md;
        proof {
            assert(ma as int == abs_of(self@));
            assert(md as int == abs_of(divisor as int));
            assert(md >= 1);
            vstd::arithmetic::div_mod::lemma_div_pos_is_pos(ma as int, md as int);
            vstd::arithmetic::div_mod::lemma_div_nonincreasing(ma as int, md as int);
            if !negative && q as int == 0x8000_0000_0000_0000 {
                vstd::arithmetic::div_mod::lemma_fundamental_div_mod(ma as int, md as int);
                assert(0 <= (ma as int) % (md as int));
                assert(md as int == 1) by (nonlinear_arith)
                    requires
                        ma as int == (md as int) * (q as int) + (ma as int) % (md as int),
                        0 <= (ma as int) % (md as int),
                        q as int == ma as int,
                        ma as int > 0,
                        md as int >= 1,
                ;
                assert(self@ == i64::MIN && divisor == -1);
            }
        }
        if negative {
            Currency { cents: (-(q as i128)) as i64 }
        } else {
            Currency { cents: q as i64 }
        }
    }

    /// Comparison by value.
    pub fn lt(&self, other: &Currency) -> (r: bool)
        ensures
            r == (self@ < other@),
    {
        self.cents < other.cents
    }

    /// Summation over a sequence, with zero as the identity.
    pub fn sum(values: &Vec<Currency>) -> (r: Currency)
        requires
            sum_abs(values@) <= i64::MAX,
        ensures
            r@ == sum_view(values@),
    {
        let mut acc: i64 = 0;
        let mut i: usize = 0;
        proof {
            lemma_sum_view_bounded(values@);
        }
        while i < values.len()
            invariant
                i <= values@.len(),
                sum_abs(values@) <= i64::MAX,
                acc as int == sum_view(values@.take(i as int)),
                abs_of(acc as int) <= sum_abs(values@.take(i as int)),
            decreases values@.len() - i,
        {
            proof {
                lemma_sum_take_step(values@, i as int);
                lemma_sum_abs_take_le(values@, i + 1);
            }
            acc = acc + values[i].cents;
            i = i + 1;
        }
        proof {
            assert(values@.take(values@.len() as int) =~= values@);
        }
        Currency { cents: acc }
    }
}

/// Taking one more element extends the partial sums by that element.
proof fn lemma_sum_take_step(s: Seq<Currency>, i: int)
    requires
        0 <= i < s.len(),
    ensures
        sum_view(s.take(i + 1)) == sum_view(s.take(i)) + s[i]@,
        sum_abs(s.take(i + 1)) == sum_abs(s.take(i)) + abs_of(s[i]@),
    decreases i,
{
    if i == 0 {
        assert(s.take(1).drop_first() =~= s.take(0));
    } else {
        assert(s.take(i + 1).drop_first() =~= s.drop_first().take(i));
        assert(s.take(i).drop_first() =~= s.drop_first().take(i - 1));
        assert(s.drop_first().take(i - 1 + 1) =~= s.drop_first().take(i));
        lemma_sum_take_step(s.drop_first(), i - 1);
    }
}

/// A prefix's magnitude sum never exceeds the whole sequence's.
proof fn lemma_sum_abs_take_le(s: Seq<Currency>, i: int)
    requires
        0 <= i <= s.len(),
    ensures
        sum_abs(s.take(i)) <= sum_abs(s),
    decreases s.len(),
{
    if s.len() == 0 {
        assert(s.take(i) =~= s);
    } else if i == 0 {
        lemma_sum_abs_nonneg(s);
        assert(sum_view(s.take(0)) == 0);
    } else {
        assert(s.take(i).drop_first() =~= s.drop_first().take(i - 1));
        lemma_sum_abs_take_le(s.drop_first(), i - 1);
    }
}

/// The magnitude sum is nonnegative.
proof fn lemma_sum_abs_nonneg(s: Seq<Currency>)
    ensures
        sum_abs(s) >= 0,
    decreases s.len(),
{
    if s.len() > 0 {
        lemma_sum_abs_nonneg(s.drop_first());
    }
}

/// Every sum is bounded in magnitude by the sum of magnitudes.
proof fn lemma_sum_view_bounded(s: Seq<Currency>)
    ensures
        abs_of(sum_view(s)) <= sum_abs(s),
    decreases s.len(),
{
    if s.len() > 0 {
        lemma_sum_view_bounded(s.drop_first());
    }
}

impl From<i32> for Currency {
    /// Constructs a value from a count of minor units, as the store
    /// represents amounts.
    fn from(source: i32) -> (r: Currency) {
        Currency { cents: source as i64 }
    }
}

impl vstd::std_specs::convert::FromSpecImpl<i32> for Currency {
    open spec fn obeys_from_spec() -> bool {
        true
    }

    open spec fn from_spec(source: i32) -> Currency {
        Currency { cents: source as i64 }
    }
}

} // verus!
