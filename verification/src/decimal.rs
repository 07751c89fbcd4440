//! Exact decimal numbers for numeric thresholds and rolled values.
//!
//! A `Decimal` stores a fixed number of fraction digits as an integer count of
//! the smallest unit, so `3.1` and `3.10` are the same value and no binary
//! rounding ever moves a boundary.
use vstd::prelude::*;

use crate::text::{
    all_digits, decimal, digit_char, digits_value, first_index, is_ascii_digit_spec,
    lemma_digits_value_monotone, lemma_first_index, position, push_decimal, slice_vec,
};

verus! {

/// Number of fraction digits a `Decimal` keeps.
pub const FRACTION_DIGITS: usize = 9;

/// Units per whole number: `10^FRACTION_DIGITS`.
pub const UNITS_PER_ONE: i64 = 1_000_000_000;

/// A signed decimal with `FRACTION_DIGITS` exact fraction digits.
#[derive(Clone, Copy, Debug, Default, PartialEq, Eq, Structural, PartialOrd, Ord, Hash)]
pub struct Decimal {
    /// The value counted in units of `10^-FRACTION_DIGITS`.
    pub units: i64,
}

impl View for Decimal {
    type V = int;

    /// The value counted in units of `10^-FRACTION_DIGITS`.
    open spec fn view(&self) -> int {
        self.units as int
    }
}

/// Why a text is not a decimal number.
#[derive(Clone, Copy, Debug, PartialEq, Eq, Structural)]
pub enum DecimalParseError {
    /// The text is empty.
    Empty,
    /// A character other than one sign, digits and one point, or no digit at all.
    InvalidDigit,
    /// More fraction digits than a `Decimal` keeps.
    TooManyFractionDigits,
    /// The magnitude does not fit.
    OutOfRange,
}

pub open spec fn sign_len(s: Seq<char>) -> int {
    if s.len() > 0 && (s[0] == '+' || s[0] == '-') {
        1
    } else {
        0
    }
}

pub open spec fn is_negative_text(s: Seq<char>) -> bool {
    s.len() > 0 && s[0] == '-'
}

pub open spec fn unsigned_part(s: Seq<char>) -> Seq<char> {
    s.skip(sign_len(s))
}

pub open spec fn point_at(b: Seq<char>) -> int {
    match first_index(b, '.') {
        Some(i) => i,
        None => b.len() as int,
    }
}

pub open spec fn whole_digits(b: Seq<char>) -> Seq<char> {
    b.take(point_at(b))
}

pub open spec fn fraction_digits(b: Seq<char>) -> Seq<char> {
    if point_at(b) < b.len() {
        b.skip(point_at(b) + 1)
    } else {
        Seq::empty()
    }
}

pub open spec fn zeros(n: nat) -> Seq<char> {
    Seq::new(n, |i: int| '0')
}

/// The digits of the value counted in units: whole digits, fraction digits,
/// and the zeros that pad the fraction to `FRACTION_DIGITS`.
pub open spec fn unit_digits(b: Seq<char>) -> Seq<char> {
    whole_digits(b) + fraction_digits(b) + zeros(
        (FRACTION_DIGITS - fraction_digits(b).len()) as nat,
    )
}

/// What `Decimal::parse` makes of a text: an optional sign, digits with at
/// most one decimal point, at least one digit, at most `FRACTION_DIGITS`
/// fraction digits, and a magnitude that fits.
pub open spec fn parse_decimal(s: Seq<char>) -> Result<int, DecimalParseError> {
    let b = unsigned_part(s);
    if s.len() == 0 {
        Err(DecimalParseError::Empty)
    } else if whole_digits(b).len() + fraction_digits(b).len() == 0 || !all_digits(
        whole_digits(b),
    ) || !all_digits(fraction_digits(b)) {
        Err(DecimalParseError::InvalidDigit)
    } else if fraction_digits(b).len() > FRACTION_DIGITS {
        Err(DecimalParseError::TooManyFractionDigits)
    } else if digits_value(unit_digits(b)) > i64::MAX {
        Err(DecimalParseError::OutOfRange)
    } else if is_negative_text(s) {
        Ok(-digits_value(unit_digits(b)))
    } else {
        Ok(digits_value(unit_digits(b)) as int)
    }
}

fn all_ascii_digits(d: &[char]) -> (b: bool)
    ensures
        b == all_digits(d@),
{
    let n = d.len();
    let mut i: usize = 0;
    while i < n
        invariant
            n == d@.len(),
            i <= n,
            forall|k: int| 0 <= k < i ==> is_ascii_digit_spec(#[trigger] d@[k]),
        decreases n - i,
    {
        if !('0' <= d[i] && d[i] <= '9') {
            return false;
        }
        i = i + 1;
    }
    true
}

/// Value of a run of digits, or `None` once it passes `i64::MAX`.
fn digits_magnitude(d: &[char]) -> (r: Option<u64>)
    requires
        all_digits(d@),
    ensures
        match r {
            Some(v) => v == digits_value(d@) && v <= i64::MAX,
            None => digits_value(d@) > i64::MAX,
        },
{
    let n = d.len();
    let mut value: u128 = 0;
    let mut i: usize = 0;
    while i < n
        invariant
            n == d@.len(),
            i <= n,
            all_digits(d@),
            value == digits_value(d@.take(i as int)),
            value <= i64::MAX,
        decreases n - i,
    {
        assert(d@.take(i + 1).drop_last() =~= d@.take(i as int));
        assert(is_ascii_digit_spec(d@[i as int]));
        let digit = (d[i] as u32 - '0' as u32) as u128;
        let next = value * 10 + digit;
        if next > 9223372036854775807u128 {
            proof {
                lemma_digits_value_monotone(d@, i + 1);
            }
            return None;
        }
        value = next;
        i = i + 1;
    }
    assert(d@.take(n as int) =~= d@);
    Some(value as u64)
}

impl Decimal {
    /// The value counted in units of `10^-FRACTION_DIGITS`.
    pub fn units(&self) -> (u: i64)
        ensures
            u == self@,
    {
        self.units
    }

    /// The decimal that holds `units` units of `10^-FRACTION_DIGITS`.
    pub fn from_units(units: i64) -> (d: Decimal)
        ensures
            d@ == units,
    {
        Decimal { units }
    }

    /// `self <= other`.
    pub fn is_at_most(&self, other: &Decimal) -> (b: bool)
        ensures
            b == (self@ <= other@),
    {
        self.units <= other.units
    }

    /// `self == other` as numbers.
    pub fn same_value(&self, other: &Decimal) -> (b: bool)
        ensures
            b == (self@ == other@),
    {
        self.units == other.units
    }

    /// Parses a decimal written as characters.
    pub fn parse_chars(s: &[char]) -> (r: Result<Decimal, DecimalParseError>)
        ensures
            match r {
                Ok(d) => parse_decimal(s@) == Ok::<int, DecimalParseError>(d@),
                Err(e) => parse_decimal(s@) == Err::<int, DecimalParseError>(e),
            },
    {
        let n = s.len();
        if n == 0 {
            return Err(DecimalParseError::Empty);
        }
        let negative = s[0] == '-';
        let start: usize = if s[0] == '+' || s[0] == '-' {
            1
        } else {
            0
        };
        let body = slice_vec(s, start, n);
        assert(body@ =~= unsigned_part(s@));
        let bn = body.len();
        let point = position(body.as_slice(), '.');
        proof {
            lemma_first_index(body@, '.');
        }
        let p: usize = match point {
            Some(i) => i,
            None => bn,
        };
        assert(p as int == point_at(body@));
        let whole = slice_vec(body.as_slice(), 0, p);
        let fraction = if p < bn {
            slice_vec(body.as_slice(), p + 1, bn)
        } else {
            Vec::new()
        };
        assert(whole@ =~= whole_digits(body@));
        assert(fraction@ =~= fraction_digits(body@));
        if whole.len() + fraction.len() == 0 {
            return Err(DecimalParseError::InvalidDigit);
        }
        if !all_ascii_digits(whole.as_slice()) || !all_ascii_digits(fraction.as_slice()) {
            return Err(DecimalParseError::InvalidDigit);
        }
        if fraction.len() > FRACTION_DIGITS {
            return Err(DecimalParseError::TooManyFractionDigits);
        }
        let mut digits = whole;
        let mut k: usize = 0;
        while k < fraction.len()
            invariant
                k <= fraction@.len(),
                digits@ == whole_digits(body@) + fraction@.take(k as int),
            decreases fraction@.len() - k,
        {
            digits.push(fraction[k]);
            assert(fraction@.take(k + 1) =~= fraction@.take(k as int).push(fraction@[k as int]));
            k = k + 1;
        }
        assert(fraction@.take(fraction@.len() as int) =~= fraction@);
        let pad = FRACTION_DIGITS - fraction.len();
        let mut z: usize = 0;
        while z < pad
            invariant
                z <= pad,
                digits@ == whole_digits(body@) + fraction_digits(body@) + zeros(z as nat),
            decreases pad - z,
        {
            digits.push('0');
            assert(zeros((z + 1) as nat) =~= zeros(z as nat).push('0'));
            z = z + 1;
        }
        assert(digits@ =~= unit_digits(body@));
        assert(all_digits(digits@)) by {
            assert forall|i: int| 0 <= i < digits@.len() implies is_ascii_digit_spec(
                #[trigger] digits@[i],
            ) by {
                let w = whole_digits(body@).len() as int;
                let f = fraction_digits(body@).len() as int;
                if i < w {
                    assert(digits@[i] == whole_digits(body@)[i]);
                } else if i < w + f {
                    assert(digits@[i] == fraction_digits(body@)[i - w]);
                } else {
                    assert(digits@[i] == '0');
                }
            }
        }
        match digits_magnitude(digits.as_slice()) {
            None => Err(DecimalParseError::OutOfRange),
            Some(m) => {
                let units: i64 = m as i64;
                if negative {
                    Ok(Decimal { units: -units })
                } else {
                    Ok(Decimal { units })
                }
            },
        }
    }

    /// Parses a decimal written as text: an optional sign, digits with at most
    /// one decimal point, and at most `FRACTION_DIGITS` fraction digits.
    pub fn parse(s: &str) -> (r: Result<Decimal, DecimalParseError>)
        ensures
            match r {
                Ok(d) => parse_decimal(s@) == Ok::<int, DecimalParseError>(d@),
                Err(e) => parse_decimal(s@) == Err::<int, DecimalParseError>(e),
            },
    {
        let chars = crate::text::chars_of(s);
        Decimal::parse_chars(chars.as_slice())
    }
}

impl From<i32> for Decimal {
    fn from(v: i32) -> (d: Decimal) {
        assert(-2147483648 * 1000000000 <= v * 1000000000 <= 2147483647 * 1000000000)
            by (nonlinear_arith)
            requires
                -2147483648 <= v <= 2147483647,
        ;
        Decimal { units: (v as i64) * UNITS_PER_ONE }
    }
}

impl vstd::std_specs::convert::FromSpecImpl<i32> for Decimal {
    open spec fn obeys_from_spec() -> bool {
        true
    }

    open spec fn from_spec(v: i32) -> Decimal {
        Decimal { units: (v * 1_000_000_000) as i64 }
    }
}

impl core::str::FromStr for Decimal {
    type Err = DecimalParseError;

    fn from_str(s: &str) -> (r: Result<Decimal, DecimalParseError>)
        ensures
            match r {
                Ok(d) => parse_decimal(s@) == Ok::<int, DecimalParseError>(d@),
                Err(e) => parse_decimal(s@) == Err::<int, DecimalParseError>(e),
            },
    {
        Decimal::parse(s)
    }
}

/// The place value of fraction digit `k` (0 is the tenths).
pub open spec fn place(k: int) -> int {
    if k == 0 {
        100_000_000
    } else if k == 1 {
        10_000_000
    } else if k == 2 {
        1_000_000
    } else if k == 3 {
        100_000
    } else if k == 4 {
        10_000
    } else if k == 5 {
        1_000
    } else if k == 6 {
        100
    } else if k == 7 {
        10
    } else {
        1
    }
}

/// The `FRACTION_DIGITS` digits of a fraction held in units.
pub open spec fn fraction_text(frac: nat) -> Seq<char> {
    Seq::new(9, |k: int| digit_char(((frac as int / place(k)) % 10) as nat))
}

pub open spec fn without_trailing_zeros(s: Seq<char>) -> Seq<char>
    decreases s.len(),
{
    if s.len() > 0 && s.last() == '0' {
        without_trailing_zeros(s.drop_last())
    } else {
        s
    }
}

pub open spec fn magnitude(u: int) -> nat {
    if u < 0 {
        (-u) as nat
    } else {
        u as nat
    }
}

/// A decimal written out: its sign, whole part, and the fraction digits it
/// needs (none for a whole number).
pub open spec fn decimal_text(u: int) -> Seq<char> {
    let m = magnitude(u);
    let whole = m / 1_000_000_000;
    let frac = m % 1_000_000_000;
    (if u < 0 {
        seq!['-']
    } else {
        Seq::empty()
    }) + decimal(whole) + if frac == 0 {
        Seq::empty()
    } else {
        seq!['.'] + without_trailing_zeros(fraction_text(frac))
    }
}

fn place_exec(k: usize) -> (p: u64)
    requires
        k < 9,
    ensures
        p == place(k as int),
        p > 0,
{
    if k == 0 {
        100_000_000
    } else if k == 1 {
        10_000_000
    } else if k == 2 {
        1_000_000
    } else if k == 3 {
        100_000
    } else if k == 4 {
        10_000
    } else if k == 5 {
        1_000
    } else if k == 6 {
        100
    } else if k == 7 {
        10
    } else {
        1
    }
}

fn digit_of(d: u64) -> (c: char)
    requires
        d < 10,
    ensures
        c == digit_char(d as nat),
{
    let mut v: Vec<char> = Vec::new();
    push_decimal(&mut v, d);
    assert(decimal(d as nat) =~= seq![digit_char(d as nat)]);
    v[0]
}

impl Decimal {
    /// The decimal written out, without trailing fraction zeros: `3.10` reads
    /// `3.1`, `-0.010` reads `-0.01`, `7.0` reads `7`.
    pub fn to_string(&self) -> (s: String)
        ensures
            s@ == decimal_text(self@),
    {
        let u = self.units;
        let m: u64 = if u < 0 {
            (-(u as i128)) as u64
        } else {
            u as u64
        };
        assert(m == magnitude(u as int));
        let whole = m / 1_000_000_000;
        let frac = m % 1_000_000_000;
        let mut out: Vec<char> = Vec::new();
        if u < 0 {
            out.push('-');
        }
        push_decimal(&mut out, whole);
        if frac > 0 {
            out.push('.');
            let mut digits: Vec<char> = Vec::new();
            let mut k: usize = 0;
            while k < 9
                invariant
                    k <= 9,
                    frac < 1_000_000_000,
                    digits@ == fraction_text(frac as nat).take(k as int),
                decreases 9 - k,
            {
                let p = place_exec(k);
                let d = (frac / p) % 10;
                digits.push(digit_of(d));
                assert(fraction_text(frac as nat).take(k + 1) =~= fraction_text(frac as nat).take(
                    k as int,
                ).push(digit_char(d as nat)));
                k = k + 1;
            }
            assert(fraction_text(frac as nat).take(9) =~= fraction_text(frac as nat));
            let mut end = digits.len();
            while end > 0 && digits[end - 1] == '0'
                invariant
                    end <= digits@.len(),
                    without_trailing_zeros(digits@) == without_trailing_zeros(digits@.take(end as int)),
                decreases end,
            {
                assert(digits@.take(end as int).drop_last() =~= digits@.take(end - 1));
                end = end - 1;
            }
            let kept = slice_vec(digits.as_slice(), 0, end);
            assert(kept@ =~= digits@.take(end as int));
            crate::text::push_all(&mut out, kept.as_slice());
        }
        assert(out@ =~= decimal_text(self@));
        crate::text::string_of(out.as_slice())
    }
}

} // verus!
