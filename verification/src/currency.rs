//! Money, counted in cents.

use vstd::prelude::*;
use vstd::std_specs::ops::{AddSpec, AddSpecImpl, SubSpec, SubSpecImpl};
use std::ops::{Add, Sub};
use crate::text::string_from_chars;

verus! {

/// An amount of money in cents (hundredths of the account's currency unit).
#[derive(Debug, Clone, Copy, PartialEq, Eq, Structural, PartialOrd, Ord)]
pub struct Currency(pub i64);

impl Add for Currency {
    type Output = Currency;

    fn add(self, rhs: Currency) -> (r: Currency) {
        Currency(self.0 + rhs.0)
    }
}

impl AddSpecImpl for Currency {
    open spec fn obeys_add_spec() -> bool {
        true
    }

    open spec fn add_req(self, rhs: Currency) -> bool {
        i64::MIN <= self.0 + rhs.0 <= i64::MAX
    }

    open spec fn add_spec(self, rhs: Currency) -> Currency {
        Currency((self.0 + rhs.0) as i64)
    }
}

impl Sub for Currency {
    type Output = Currency;

    fn sub(self, rhs: Currency) -> (r: Currency) {
        Currency(self.0 - rhs.0)
    }
}

impl SubSpecImpl for Currency {
    open spec fn obeys_sub_spec() -> bool {
        true
    }

    open spec fn sub_req(self, rhs: Currency) -> bool {
        i64::MIN <= self.0 - rhs.0 <= i64::MAX
    }

    open spec fn sub_spec(self, rhs: Currency) -> Currency {
        Currency((self.0 - rhs.0) as i64)
    }
}

/// The character of a decimal digit.
pub open spec fn digit_char(d: nat) -> char
    recommends
        d < 10,
{
    ((d + 48) as u8) as char
}

/// The decimal notation of a natural number, most significant digit first.
pub open spec fn decimal(n: nat) -> Seq<char>
    decreases n,
{
    if n < 10 {
        seq![digit_char(n)]
    } else {
        decimal(n / 10).push(digit_char(n % 10))
    }
}

/// The decimal notation of an integer, with a leading `-` when it is negative.
pub open spec fn signed_decimal(i: int) -> Seq<char> {
    if i < 0 {
        seq!['-'] + decimal((-i) as nat)
    } else {
        decimal(i as nat)
    }
}

/// Integer division that rounds toward zero, as Rust's `/` on integers does.
pub open spec fn div_toward_zero(a: int, b: int) -> int
    recommends
        b > 0,
{
    if a >= 0 {
        a / b
    } else {
        -((-a) / b)
    }
}

/// The remainder that goes with `div_toward_zero`, as Rust's `%` on integers gives it.
pub open spec fn rem_toward_zero(a: int, b: int) -> int
    recommends
        b > 0,
{
    a - b * div_toward_zero(a, b)
}

/// `{:02}` of a small integer: zero-padded to two characters when non-negative.
pub open spec fn two_digits(i: int) -> Seq<char> {
    if 0 <= i < 10 {
        seq!['0'] + decimal(i as nat)
    } else {
        signed_decimal(i)
    }
}

/// How an amount is displayed: `$`, the whole units, `.`, then the cents in two digits.
pub open spec fn display(c: Currency) -> Seq<char> {
    seq!['$'] + signed_decimal(div_toward_zero(c.0 as int, 100)) + seq!['.']
        + two_digits(rem_toward_zero(c.0 as int, 100))
}

/// The decimal digits of `n`.
fn decimal_digits(n: u64) -> (v: Vec<char>)
    ensures
        v@ == decimal(n as nat),
    decreases n,
{
    if n < 10 {
        let mut v: Vec<char> = Vec::new();
        v.push(((n as u8) + 48u8) as char);
        v
    } else {
        let mut v = decimal_digits(n / 10);
        v.push((((n % 10) as u8) + 48u8) as char);
        v
    }
}

/// The decimal notation of a signed number whose magnitude is `mag`.
fn signed_digits(negative: bool, mag: u64) -> (v: Vec<char>)
    requires
        negative ==> mag > 0,
    ensures
        v@ == signed_decimal(if negative { -(mag as int) } else { mag as int }),
{
    let digits = decimal_digits(mag);
    if negative {
        let mut v: Vec<char> = Vec::new();
        v.push('-');
        let mut i: usize = 0;
        while i < digits.len()
            invariant
                i <= digits.len(),
                v@ == seq!['-'] + digits@.take(i as int),
            decreases digits.len() - i,
        {
            v.push(digits[i]);
            proof {
                assert(digits@.take(i as int + 1) == digits@.take(i as int).push(digits@[i as int]));
            }
            i = i + 1;
        }
        proof {
            assert(digits@.take(digits.len() as int) == digits@);
        }
        v
    } else {
        digits
    }
}

fn append_chars(v: &mut Vec<char>, w: Vec<char>)
    ensures
        final(v)@ == old(v)@ + w@,
{
    let ghost start = v@;
    let mut i: usize = 0;
    while i < w.len()
        invariant
            i <= w.len(),
            v@ == start + w@.take(i as int),
        decreases w.len() - i,
    {
        v.push(w[i]);
        proof {
            assert(w@.take(i as int + 1) == w@.take(i as int).push(w@[i as int]));
        }
        i = i + 1;
    }
    proof {
        assert(w@.take(w.len() as int) == w@);
    }
}

impl Currency {
    /// How the amount is shown to people, such as `$1.50`; the cents keep the sign
    /// of the amount (`-150` cents shows as `$-1.-50`).
    pub fn to_string(&self) -> (s: String)
        ensures
            s@ == display(*self),
    {
        let c = self.0 as i128;
        let negative = c < 0;
        let mag: u128 = if negative { (0 - c) as u128 } else { c as u128 };
        let units: u64 = (mag / 100) as u64;
        let cents: u64 = (mag % 100) as u64;
        proof {
            let ci = self.0 as int;
            assert(div_toward_zero(ci, 100) == if negative { -(units as int) } else { units as int });
            assert(rem_toward_zero(ci, 100) == if negative { -(cents as int) } else { cents as int });
        }
        let mut v: Vec<char> = Vec::new();
        v.push('$');
        append_chars(&mut v, signed_digits(negative && units > 0, units));
        v.push('.');
        let small = (!negative || cents == 0) && cents < 10;
        if small {
            v.push('0');
            append_chars(&mut v, decimal_digits(cents));
        } else {
            append_chars(&mut v, signed_digits(negative && cents > 0, cents));
        }
        proof {
            let ci = self.0 as int;
            let q = div_toward_zero(ci, 100);
            let r = rem_toward_zero(ci, 100);
            assert(signed_decimal(q) == signed_decimal(if negative && units > 0 { -(units as int) } else { units as int }));
            if small {
                assert(two_digits(r) == seq!['0'] + decimal(cents as nat));
            } else {
                assert(two_digits(r) == signed_decimal(if negative && cents > 0 { -(cents as int) } else { cents as int }));
            }
            assert(v@ == display(*self));
        }
        string_from_chars(v)
    }
}

/// `a / b` rounded to the nearest integer, halves away from zero.
pub open spec fn div_round(a: int, b: int) -> int
    recommends
        b > 0,
{
    if a >= 0 {
        (2 * a + b) / (2 * b)
    } else {
        -((-2 * a + b) / (2 * b))
    }
}

impl Currency {
    /// The amount multiplied by odds given in thousandths, to the nearest cent
    /// (halves away from zero): what a bet of this stake returns at those odds.
    pub fn times_odds(self, odds: u32) -> (r: Currency)
        requires
            -(i64::MAX as int) <= self.0 * odds <= i64::MAX,
        ensures
            r.0 == div_round(self.0 * odds, 1000),
    {
        let p: i128 = (self.0 as i128) * (odds as i128);
        let q: i128 = if p >= 0 { (2 * p + 1000) / 2000 } else { 0 - (0 - 2 * p + 1000) / 2000 };
        proof {
            assert(-(i64::MAX as int) <= q <= i64::MAX);
        }
        Currency(q as i64)
    }
}

/// Subtracting an amount that was added gives back the amount added to, and so does
/// adding back an amount that was subtracted.
pub proof fn sub_undoes_add(a: Currency, b: Currency)
    ensures
        <Currency as AddSpec>::add_req(a, b) ==> {
            let c = <Currency as AddSpec>::add_spec(a, b);
            <Currency as SubSpec>::sub_req(c, b) && <Currency as SubSpec>::sub_spec(c, b) == a
        },
        <Currency as SubSpec>::sub_req(a, b) ==> {
            let c = <Currency as SubSpec>::sub_spec(a, b);
            <Currency as AddSpec>::add_req(c, b) && <Currency as AddSpec>::add_spec(c, b) == a
        },
{
}

} // verus!
