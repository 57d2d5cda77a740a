//! The decimal text form of monetary values: parsing a plain decimal string
//! into minor units with round-half-to-even at the currency's two-digit
//! exponent, and formatting a value as dollars with thousands grouping,
//! "$1,234.56".

use vstd::prelude::*;

use crate::money::{Currency, abs_of};

verus! {

/// Whether `c` is a decimal digit.
pub open spec fn is_digit(c: char) -> bool {
    '0' as int <= c as int <= '9' as int
}

/// The value of a decimal digit.
pub open spec fn digit_val(c: char) -> int {
    c as int - '0' as int
}

/// The character for a decimal digit value.
pub open spec fn digit_char(d: int) -> char {
    if d == 0 {
        '0'
    } else if d == 1 {
        '1'
    } else if d == 2 {
        '2'
    } else if d == 3 {
        '3'
    } else if d == 4 {
        '4'
    } else if d == 5 {
        '5'
    } else if d == 6 {
        '6'
    } else if d == 7 {
        '7'
    } else if d == 8 {
        '8'
    } else {
        '9'
    }
}

/// Whether every character of `s` is a decimal digit.
pub open spec fn all_digits(s: Seq<char>) -> bool {
    forall|i: int| 0 <= i < s.len() ==> is_digit(#[trigger] s[i])
}

/// The number a digit string denotes.
pub open spec fn digits_val(s: Seq<char>) -> int
    decreases s.len(),
{
    if s.len() == 0 {
        0
    } else {
        digits_val(s.drop_last()) * 10 + digit_val(s.last())
    }
}

/// The index of the first '.' in `s`, or `s.len()` if there is none.
pub open spec fn first_dot(s: Seq<char>) -> int
    decreases s.len(),
{
    if s.len() == 0 {
        0
    } else if s[0] == '.' {
        0
    } else {
        1 + first_dot(s.drop_first())
    }
}

/// The cents denoted by the first two fraction digits, the later ones
/// ignored.
pub open spec fn frac_cents(f: Seq<char>) -> int {
    if f.len() == 0 {
        0
    } else if f.len() == 1 {
        digit_val(f[0]) * 10
    } else {
        digit_val(f[0]) * 10 + digit_val(f[1])
    }
}

/// Whether the fraction digits beyond the second round the cents up, by
/// round half to even: up above a half cent, down below it, and to the even
/// cent on an exact half.
pub open spec fn rounds_up(f: Seq<char>, floor_cents: int) -> bool {
    if f.len() <= 2 {
        false
    } else if digit_val(f[2]) > 5 {
        true
    } else if digit_val(f[2]) < 5 {
        false
    } else if exists|i: int| 3 <= i < f.len() && digit_val(#[trigger] f[i]) > 0 {
        true
    } else {
        floor_cents % 2 == 1
    }
}

/// The minor-unit value a plain decimal string denotes: an optional leading
/// minus, one or more integer digits, and an optional '.' with any number of
/// fraction digits, rounded half-to-even to two places. `None` when the
/// string has any other shape.
pub open spec fn money_of_string(s: Seq<char>) -> Option<int> {
    let neg = s.len() > 0 && s[0] == '-';
    let body = if neg {
        s.drop_first()
    } else {
        s
    };
    let dot = first_dot(body);
    let ipart = body.take(dot);
    let frac = if dot < body.len() {
        body.skip(dot + 1)
    } else {
        Seq::<char>::empty()
    };
    if ipart.len() >= 1 && all_digits(ipart) && all_digits(frac) {
        let floor = digits_val(ipart) * 100 + frac_cents(frac);
        let mag = floor + (if rounds_up(frac, floor) {
            1int
        } else {
            0int
        });
        if neg {
            Option::Some(-mag)
        } else {
            Option::Some(mag)
        }
    } else {
        Option::None
    }
}

/// A digit string denotes a nonnegative number.
proof fn lemma_digits_val_nonneg(s: Seq<char>)
    requires
        all_digits(s),
    ensures
        digits_val(s) >= 0,
    decreases s.len(),
{
    if s.len() > 0 {
        assert forall|i: int| 0 <= i < s.drop_last().len() implies is_digit(
            #[trigger] s.drop_last()[i],
        ) by {
            assert(s.drop_last()[i] == s[i]);
        }
        lemma_digits_val_nonneg(s.drop_last());
    }
}

/// If no '.' occurs before position `j`, and `j` is the end or a '.', then
/// `j` is the first dot.
proof fn lemma_first_dot_at(s: Seq<char>, j: int)
    requires
        0 <= j <= s.len(),
        forall|k: int| 0 <= k < j ==> (#[trigger] s[k]) != '.',
        j == s.len() || s[j] == '.',
    ensures
        first_dot(s) == j,
    decreases j,
{
    if s.len() == 0 {
    } else if j == 0 {
    } else {
        assert(s[0] != '.');
        assert forall|k: int| 0 <= k < j - 1 implies (#[trigger] s.drop_first()[k]) != '.' by {
            assert(s.drop_first()[k] == s[k + 1]);
        }
        if j < s.len() {
            assert(s.drop_first()[j - 1] == s[j]);
        }
        lemma_first_dot_at(s.drop_first(), j - 1);
    }
}

/// The failure kinds of decimal parsing: a string that is not a plain
/// decimal, and a value outside the representable range of minor units.
#[derive(Clone, Copy, Debug, PartialEq, Eq, Structural)]
pub enum MoneyError {
    InvalidFormat,
    OutOfRange,
}

/// Any value at or above this cap, scaled to cents, overflows an `i64`.
const DIGIT_CAP: i128 = 1_000_000_000_000_000_000;

impl Currency {
    /// Parses a plain decimal string into an exact minor-unit value, using
    /// the currency's two-digit exponent and round half to even beyond it.
    #[verifier::rlimit(100)]
    pub fn try_from(s: &str) -> (r: Result<Currency, MoneyError>)
        ensures
            match r {
                Ok(c) => money_of_string(s@) == Option::Some(c@),
                Err(MoneyError::InvalidFormat) => money_of_string(s@) is None,
                Err(MoneyError::OutOfRange) => {
                    &&& money_of_string(s@) is Some
                    &&& !(i64::MIN <= money_of_string(s@).unwrap() <= i64::MAX)
                },
            },
    {
        let n = s.unicode_len();
        let neg = n > 0 && s.get_char(0) == '-';
        let start: usize = if neg {
            1
        } else {
            0
        };
        let ghost body: Seq<char> = if neg {
            s@.drop_first()
        } else {
            s@
        };
        proof {
            assert(body =~= s@.skip(start as int));
        }

        // Find the first '.' of the body.
        let mut dot: usize = start;
        while dot < n && s.get_char(dot) != '.'
            invariant
                start <= dot <= n,
                n == s@.len(),
                body == s@.skip(start as int),
                forall|k: int| start <= k < dot ==> (#[trigger] s@[k]) != '.',
            decreases n - dot,
        {
            dot = dot + 1;
        }
        proof {
            assert forall|k: int| 0 <= k < dot - start implies (#[trigger] body[k]) != '.' by {
                assert(body[k] == s@[k + start]);
            }
            if dot < n {
                assert(body[dot - start] == s@[dot as int]);
            }
            lemma_first_dot_at(body, dot - start as int);
        }
        let ghost ipart: Seq<char> = body.take(dot - start as int);
        let ghost frac: Seq<char> = if dot < n {
            body.skip(dot - start as int + 1)
        } else {
            Seq::<char>::empty()
        };

        // Validate the shape: at least one integer digit, digits throughout.
        if dot == start {
            return Err(MoneyError::InvalidFormat);
        }
        let mut i: usize = start;
        while i < dot
            invariant
                start <= i <= dot <= n,
                n == s@.len(),
                neg == (s@.len() > 0 && s@[0] == '-'),
                start == (if neg { 1int } else { 0int }),
                body == s@.skip(start as int),
                first_dot(body) == dot - start as int,
                ipart == body.take(dot - start as int),
                frac == (if dot < n {
                    body.skip(dot - start as int + 1)
                } else {
                    Seq::<char>::empty()
                }),
                forall|k: int| 0 <= k < i - start ==> is_digit(#[trigger] ipart[k]),
            decreases dot - i,
        {
            let c = s.get_char(i);
            let code = c as u32;
            proof {
                assert(ipart[i - start as int] == s@[i as int]);
            }
            if code < 48 || code > 57 {
                proof {
                    assert(c as int == code as int);
                    assert(!is_digit(ipart[i - start as int]));
                    assert(!all_digits(ipart));
                    assert(body =~= (if neg {
                        s@.drop_first()
                    } else {
                        s@
                    }));
                    assert(money_of_string(s@) is None);
                }
                return Err(MoneyError::InvalidFormat);
            }
            i = i + 1;
        }
        let frac_len: usize = if dot < n {
            n - dot - 1
        } else {
            0
        };
        let mut fi: usize = 0;
        while fi < frac_len
            invariant
                0 <= fi <= frac_len,
                n == s@.len(),
                neg == (s@.len() > 0 && s@[0] == '-'),
                start == (if neg { 1int } else { 0int }),
                start <= dot <= n,
                start < dot,
                dot < n ==> frac_len == n - dot - 1,
                dot == n ==> frac_len == 0,
                body == s@.skip(start as int),
                first_dot(body) == dot - start as int,
                ipart == body.take(dot - start as int),
                all_digits(ipart),
                frac == (if dot < n {
                    body.skip(dot - start as int + 1)
                } else {
                    Seq::<char>::empty()
                }),
                frac.len() == frac_len,
                forall|k: int| 0 <= k < fi ==> is_digit(#[trigger] frac[k]),
            decreases frac_len - fi,
        {
            let c = s.get_char(dot + 1 + fi);
            let code = c as u32;
            proof {
                assert(frac[fi as int] == s@[dot + 1 + fi]);
            }
            if code < 48 || code > 57 {
                proof {
                    assert(c as int == code as int);
                    assert(!is_digit(frac[fi as int]));
                    assert(!all_digits(frac));
                    assert(body =~= (if neg {
                        s@.drop_first()
                    } else {
                        s@
                    }));
                    assert(money_of_string(s@) is None);
                }
                return Err(MoneyError::InvalidFormat);
            }
            fi = fi + 1;
        }
        proof {
            assert(all_digits(ipart));
            assert(all_digits(frac));
            lemma_digits_val_nonneg(ipart);
        }

        // The integer digits, capped once they can no longer fit.
        let mut acc: i128 = 0;
        let mut i2: usize = start;
        while i2 < dot
            invariant
                start <= i2 <= dot <= n,
                n == s@.len(),
                body == s@.skip(start as int),
                ipart == body.take(dot - start as int),
                all_digits(ipart),
                0 <= acc <= 10 * DIGIT_CAP + 9,
                acc < DIGIT_CAP ==> acc as int == digits_val(ipart.take(i2 - start as int)),
                acc >= DIGIT_CAP ==> digits_val(ipart.take(i2 - start as int)) >= DIGIT_CAP as int,
            decreases dot - i2,
        {
            let c = s.get_char(i2);
            proof {
                assert(ipart[i2 - start as int] == s@[i2 as int]);
                assert(is_digit(ipart[i2 - start as int]));
                assert(48 <= c as u32 <= 57);
            }
            let d: i128 = (c as u32 - 48) as i128;
            proof {
                assert(ipart.take(i2 - start as int + 1).drop_last() =~= ipart.take(
                    i2 - start as int,
                ));
                lemma_digits_val_nonneg(ipart.take(i2 - start as int));
                lemma_digits_val_nonneg(ipart.take(i2 - start as int + 1));
            }
            if acc < DIGIT_CAP {
                acc = acc * 10 + d;
            }
            i2 = i2 + 1;
        }
        proof {
            assert(ipart.take(ipart.len() as int) =~= ipart);
        }

        // The fraction: the first two digits as cents, then the rounding
        // information carried by the rest.
        let mut f2: i128 = 0;
        if frac_len >= 1 {
            let c = s.get_char(dot + 1);
            proof {
                assert(frac[0] == s@[dot as int + 1]);
            }
            f2 = ((c as u32 - 48) as i128) * 10;
            if frac_len >= 2 {
                let c2 = s.get_char(dot + 2);
                proof {
                    assert(frac[1] == s@[dot as int + 2]);
                }
                f2 = f2 + (c2 as u32 - 48) as i128;
            }
        }
        proof {
            assert(f2 as int == frac_cents(frac));
            assert(0 <= f2 <= 99);
        }

        let mut rest_nonzero = false;
        let mut d3: u32 = 0;
        if frac_len >= 3 {
            let c3 = s.get_char(dot + 3);
            proof {
                assert(frac[2] == s@[dot as int + 3]);
            }
            d3 = c3 as u32 - 48;
            let mut k: usize = 3;
            while k < frac_len
                invariant
                    3 <= k <= frac_len,
                    n == s@.len(),
                    start <= dot <= n,
                    dot < n ==> frac_len == n - dot - 1,
                    dot == n ==> frac_len == 0,
                    frac_len >= 3,
                    body == s@.skip(start as int),
                    frac == body.skip(dot - start as int + 1),
                    frac.len() == frac_len,
                    all_digits(frac),
                    rest_nonzero == exists|j: int|
                        3 <= j < k && digit_val(#[trigger] frac[j]) > 0,
                decreases frac_len - k,
            {
                let ck = s.get_char(dot + 1 + k);
                proof {
                    assert(frac[k as int] == s@[dot + 1 + k]);
                }
                if ck as u32 != 48 {
                    rest_nonzero = true;
                }
                k = k + 1;
            }
        }

        // Assemble, with round half to even.
        if acc >= DIGIT_CAP {
            proof {
                let floor = digits_val(ipart) * 100 + frac_cents(frac);
                assert(floor >= DIGIT_CAP as int * 100);
            }
            return Err(MoneyError::OutOfRange);
        }
        let floor: i128 = acc * 100 + f2;
        let round_up_now: bool = if frac_len <= 2 {
            false
        } else if d3 > 5 {
            true
        } else if d3 < 5 {
            false
        } else if rest_nonzero {
            true
        } else {
            floor % 2 == 1
        };
        proof {
            assert(floor as int == digits_val(ipart) * 100 + frac_cents(frac));
            if frac_len > 2 {
                assert(d3 as int == digit_val(frac[2]));
            }
            assert(round_up_now == rounds_up(frac, floor as int));
        }
        let mag: i128 = floor + (if round_up_now {
            1
        } else {
            0
        });
        let value: i128 = if neg {
            -mag
        } else {
            mag
        };
        if value < i64::MIN as i128 || value > i64::MAX as i128 {
            Err(MoneyError::OutOfRange)
        } else {
            Ok(Currency::from_minor(value as i64))
        }
    }
}

/// The decimal digit string of a nonnegative number, most significant digit
/// first.
pub open spec fn dec_digits(n: int) -> Seq<char>
    decreases n,
{
    if n < 10 {
        seq![digit_char(n)]
    } else {
        dec_digits(n / 10).push(digit_char(n % 10))
    }
}

/// A digit string with a ',' before each group of three digits from the
/// right.
pub open spec fn grouped(s: Seq<char>) -> Seq<char>
    decreases s.len(),
{
    if s.len() <= 3 {
        s
    } else {
        grouped(s.take(s.len() - 3)) + seq![','] + s.skip(s.len() - 3)
    }
}

/// Exactly two digits, for the cents of an amount.
pub open spec fn two_digits(m: int) -> Seq<char> {
    seq![digit_char(m / 10), digit_char(m % 10)]
}

/// The dollars display form of a magnitude of minor units.
pub open spec fn usd_mag(m: int) -> Seq<char> {
    seq!['$'] + grouped(dec_digits(m / 100)) + seq!['.'] + two_digits(m % 100)
}

/// The dollars display form of a signed count of minor units:
/// "$1,234.56", with a leading minus for a negative value.
pub open spec fn usd_of(cents: int) -> Seq<char> {
    if cents < 0 {
        seq!['-'] + usd_mag(-cents)
    } else {
        usd_mag(cents)
    }
}

/// The character for one digit value.
fn digit_char_of(d: u64) -> (c: char)
    requires
        d < 10,
    ensures
        c == digit_char(d as int),
{
    match d {
        0 => '0',
        1 => '1',
        2 => '2',
        3 => '3',
        4 => '4',
        5 => '5',
        6 => '6',
        7 => '7',
        8 => '8',
        _ => '9',
    }
}

/// Appends the decimal digits of `n`, most significant first.
fn push_decimal_digits(n: u64, out: &mut Vec<char>)
    ensures
        final(out)@ == old(out)@ + dec_digits(n as int),
    decreases n,
{
    if n < 10 {
        out.push(digit_char_of(n));
        proof {
            assert(out@ =~= old(out)@ + dec_digits(n as int));
        }
    } else {
        push_decimal_digits(n / 10, out);
        out.push(digit_char_of(n % 10));
        proof {
            assert(out@ =~= old(out)@ + dec_digits(n as int));
        }
    }
}

/// Appends the first `upto` digit characters, a ',' before each group of
/// three from the right.
fn push_grouped(digits: &Vec<char>, upto: usize, out: &mut Vec<char>)
    requires
        upto <= digits@.len(),
    ensures
        final(out)@ == old(out)@ + grouped(digits@.take(upto as int)),
    decreases upto,
{
    if upto <= 3 {
        let ghost base = out@;
        let mut i: usize = 0;
        while i < upto
            invariant
                i <= upto <= digits@.len(),
                out@ == base + digits@.take(i as int).take(i as int),
                out@ == base + digits@.take(i as int),
            decreases upto - i,
        {
            out.push(digits[i]);
            proof {
                assert(out@ =~= base + digits@.take(i + 1));
            }
            i = i + 1;
        }
        proof {
            assert(grouped(digits@.take(upto as int)) == digits@.take(upto as int));
        }
    } else {
        push_grouped(digits, upto - 3, out);
        let ghost mid = out@;
        out.push(',');
        let ghost base = out@;
        let mut i: usize = upto - 3;
        while i < upto
            invariant
                3 < upto,
                upto - 3 <= i <= upto <= digits@.len(),
                base == mid.push(','),
                out@ == base + digits@.subrange(upto - 3, i as int),
            decreases upto - i,
        {
            out.push(digits[i]);
            proof {
                assert(out@ =~= base + digits@.subrange(upto - 3, i + 1));
            }
            i = i + 1;
        }
        proof {
            let whole = digits@.take(upto as int);
            assert(whole.len() == upto);
            assert(whole.take(upto - 3) =~= digits@.take(upto - 3));
            assert(whole.skip(upto - 3) =~= digits@.subrange(upto - 3, upto as int));
            assert(grouped(whole) == grouped(digits@.take(upto - 3)) + seq![','] + whole.skip(
                upto - 3,
            ));
            assert(out@ =~= old(out)@ + grouped(whole));
        }
    }
}

/// Relies on `String`'s `FromIterator<char>` (through `collect`): the
/// resulting string holds exactly the given characters.
#[verifier::external_body]
pub(crate) fn chars_to_string(cs: &Vec<char>) -> (r: String)
    ensures
        r@ == cs@,
{
    cs.iter().collect()
}

impl Currency {
    /// The canonical dollars display form, "$1,234.56", with a leading
    /// minus for a negative value.
    pub fn display(&self) -> (r: String)
        requires
            self@ > i64::MIN,
        ensures
            r@ == usd_of(self@),
    {
        let neg = self.is_negative();
        let mag: u64 = if neg {
            (-self.as_minor()) as u64
        } else {
            self.as_minor() as u64
        };
        let dollars: u64 = mag / 100;
        let cc: u64 = mag % 100;
        let mut digits: Vec<char> = Vec::new();
        push_decimal_digits(dollars, &mut digits);
        let mut out: Vec<char> = Vec::new();
        if neg {
            out.push('-');
        }
        out.push('$');
        push_grouped(&digits, digits.len(), &mut out);
        out.push('.');
        out.push(digit_char_of(cc / 10));
        out.push(digit_char_of(cc % 10));
        proof {
            assert(digits@.take(digits@.len() as int) =~= digits@);
            assert(digits@ =~= Seq::<char>::empty() + dec_digits(dollars as int));
            assert(dollars as int == abs_of(self@) / 100);
            assert(cc as int == abs_of(self@) % 100);
            assert(out@ =~= usd_of(self@));
        }
        chars_to_string(&out)
    }
}

} // verus!
