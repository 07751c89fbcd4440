//! Turning what a user typed into a numeric constraint. Editor validation is
//! deliberately separate from rule execution: an active comparison never
//! silently becomes unrestricted.
use vstd::prelude::*;

use crate::decimal::{parse_decimal, Decimal};
use crate::rules::{NumericConstraint, NumericConstraintMode};
use crate::text::{chars_of, trim, trim_chars};

verus! {

/// The number a user typed, white space around it ignored.
pub open spec fn typed_number(text: Seq<char>) -> Option<int> {
    match parse_decimal(trim(text)) {
        Ok(v) => Some(v),
        Err(_) => None,
    }
}

/// Why typed bounds are refused.
pub open spec fn invalid_number() -> Seq<char> {
    "invalid_number"@
}

pub open spec fn reversed_range() -> Seq<char> {
    "reversed_range"@
}

pub open spec fn opt_units(v: Option<Decimal>) -> Option<int> {
    match v {
        Some(d) => Some(d@),
        None => None,
    }
}

/// What `parse_constraint` makes of a mode and the two typed bounds: the
/// bounds the mode reads must be numbers, and a range must not be reversed.
/// `Exactly` reads its value from the first field.
pub open spec fn constraint_outcome(
    mode: NumericConstraintMode,
    minimum: Seq<char>,
    maximum: Seq<char>,
) -> Result<(Option<int>, Option<int>, Option<int>), Seq<char>> {
    match mode {
        NumericConstraintMode::Ignore => Ok((None, None, None)),
        NumericConstraintMode::AtLeast => match typed_number(minimum) {
            Some(v) => Ok((Some(v), None, None)),
            None => Err(invalid_number()),
        },
        NumericConstraintMode::AtMost => match typed_number(maximum) {
            Some(v) => Ok((None, Some(v), None)),
            None => Err(invalid_number()),
        },
        NumericConstraintMode::Exactly => match typed_number(minimum) {
            Some(v) => Ok((None, None, Some(v))),
            None => Err(invalid_number()),
        },
        NumericConstraintMode::RangeInclusive => match (typed_number(minimum), typed_number(maximum)) {
            (Some(low), Some(high)) => if low > high {
                Err(reversed_range())
            } else {
                Ok((Some(low), Some(high), None))
            },
            _ => Err(invalid_number()),
        },
    }
}

/// Each mode reads only the fields it names: `AtLeast` and `Exactly` the
/// first, `AtMost` the second, a range both, `Ignore` neither. Whenever the
/// text a mode reads holds a decimal (white space around it ignored), that
/// decimal is the bound, whatever the other field holds; when it does not,
/// the bounds are refused as not a number. A range is refused as reversed
/// exactly when both ends are numbers and the low end exceeds the high one.
pub proof fn constraint_reads_only_the_fields_its_mode_names(
    minimum: Seq<char>,
    maximum: Seq<char>,
    other: Seq<char>,
)
    ensures
        constraint_outcome(NumericConstraintMode::Ignore, minimum, maximum) == Ok::<
            (Option<int>, Option<int>, Option<int>),
            Seq<char>,
        >((None, None, None)),
        constraint_outcome(NumericConstraintMode::AtLeast, minimum, maximum) == constraint_outcome(
            NumericConstraintMode::AtLeast,
            minimum,
            other,
        ),
        constraint_outcome(NumericConstraintMode::Exactly, minimum, maximum) == constraint_outcome(
            NumericConstraintMode::Exactly,
            minimum,
            other,
        ),
        constraint_outcome(NumericConstraintMode::AtMost, minimum, maximum) == constraint_outcome(
            NumericConstraintMode::AtMost,
            other,
            maximum,
        ),
        parse_decimal(trim(minimum)) matches Ok(d) ==> constraint_outcome(NumericConstraintMode::AtLeast, minimum, maximum)
            == Ok::<(Option<int>, Option<int>, Option<int>), Seq<char>>((Some(d), None, None))
            && constraint_outcome(NumericConstraintMode::Exactly, minimum, maximum) == Ok::<
            (Option<int>, Option<int>, Option<int>),
            Seq<char>,
        >((None, None, Some(d))),
        parse_decimal(trim(maximum)) matches Ok(d) ==> constraint_outcome(NumericConstraintMode::AtMost, minimum, maximum)
            == Ok::<(Option<int>, Option<int>, Option<int>), Seq<char>>((None, Some(d), None)),
        parse_decimal(trim(minimum)) is Err ==> constraint_outcome(NumericConstraintMode::AtLeast, minimum, maximum)
            == Err::<(Option<int>, Option<int>, Option<int>), Seq<char>>("invalid_number"@)
            && constraint_outcome(NumericConstraintMode::Exactly, minimum, maximum) == Err::<
            (Option<int>, Option<int>, Option<int>),
            Seq<char>,
        >("invalid_number"@),
        parse_decimal(trim(maximum)) is Err ==> constraint_outcome(NumericConstraintMode::AtMost, minimum, maximum)
            == Err::<(Option<int>, Option<int>, Option<int>), Seq<char>>("invalid_number"@),
        parse_decimal(trim(minimum)) is Ok && parse_decimal(trim(maximum)) is Ok ==> ({
            let low = parse_decimal(trim(minimum))->Ok_0;
            let high = parse_decimal(trim(maximum))->Ok_0;
            constraint_outcome(NumericConstraintMode::RangeInclusive, minimum, maximum) == if low <= high {
                Ok::<(Option<int>, Option<int>, Option<int>), Seq<char>>((Some(low), Some(high), None))
            } else {
                Err::<(Option<int>, Option<int>, Option<int>), Seq<char>>("reversed_range"@)
            }
        }),
        (parse_decimal(trim(minimum)) is Err || parse_decimal(trim(maximum)) is Err) ==> constraint_outcome(
            NumericConstraintMode::RangeInclusive,
            minimum,
            maximum,
        ) == Err::<(Option<int>, Option<int>, Option<int>), Seq<char>>("invalid_number"@),
{
}

fn number(text: &str) -> (r: Option<Decimal>)
    ensures
        opt_units(r) == typed_number(text@),
{
    let chars = chars_of(text);
    let t = trim_chars(chars.as_slice());
    match Decimal::parse_chars(t.as_slice()) {
        Ok(d) => Some(d),
        Err(_) => None,
    }
}

/// Builds the constraint a mode and two typed bounds describe.
pub fn parse_constraint(mode: NumericConstraintMode, minimum: &str, maximum: &str) -> (r: Result<
    NumericConstraint,
    &'static str,
>)
    ensures
        match r {
            Ok(c) => c.mode == mode && constraint_outcome(mode, minimum@, maximum@) == Ok::<
                (Option<int>, Option<int>, Option<int>),
                Seq<char>,
            >((opt_units(c.minimum), opt_units(c.maximum), opt_units(c.expected))),
            Err(e) => constraint_outcome(mode, minimum@, maximum@) == Err::<
                (Option<int>, Option<int>, Option<int>),
                Seq<char>,
            >(e@),
        },
{
    match mode {
        NumericConstraintMode::Ignore => Ok(NumericConstraint::ignored()),
        NumericConstraintMode::AtLeast => match number(minimum) {
            Some(v) => Ok(NumericConstraint { mode, minimum: Some(v), maximum: None, expected: None }),
            None => Err("invalid_number"),
        },
        NumericConstraintMode::AtMost => match number(maximum) {
            Some(v) => Ok(NumericConstraint { mode, minimum: None, maximum: Some(v), expected: None }),
            None => Err("invalid_number"),
        },
        NumericConstraintMode::Exactly => match number(minimum) {
            Some(v) => Ok(NumericConstraint { mode, minimum: None, maximum: None, expected: Some(v) }),
            None => Err("invalid_number"),
        },
        NumericConstraintMode::RangeInclusive => {
            let low = match number(minimum) {
                Some(v) => v,
                None => {
                    return Err("invalid_number");
                },
            };
            let high = match number(maximum) {
                Some(v) => v,
                None => {
                    return Err("invalid_number");
                },
            };
            if !low.is_at_most(&high) {
                return Err("reversed_range");
            }
            Ok(NumericConstraint { mode, minimum: Some(low), maximum: Some(high), expected: None })
        },
    }
}

} // verus!
