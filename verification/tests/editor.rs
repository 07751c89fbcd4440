use poe_alarm::editor::parse_constraint;
use poe_alarm::rules::{NumericConstraint, NumericConstraintMode as M};

#[test]
fn active_comparisons_never_silently_become_unrestricted() {
    for bad in ["", "7O", "NaN", "inf", "1e100", "--3"] {
        assert!(parse_constraint(M::AtLeast, bad, "").is_err(), "{bad}");
        assert!(parse_constraint(M::Exactly, bad, "").is_err(), "{bad}");
        assert!(parse_constraint(M::AtMost, "", bad).is_err(), "{bad}");
    }
    assert!(parse_constraint(M::RangeInclusive, "200", "100").is_err());
    assert!(parse_constraint(M::RangeInclusive, "100", "").is_err());
    assert_eq!(
        parse_constraint(M::Ignore, "7O", "bad").unwrap(),
        NumericConstraint::default()
    );
}

#[test]
fn decimals_and_cross_zero_bounds_remain_exact() {
    let range = parse_constraint(M::RangeInclusive, " -0.01 ", "0.02").unwrap();
    assert_eq!(range.minimum.unwrap().to_string(), "-0.01");
    assert_eq!(range.maximum.unwrap().to_string(), "0.02");
}

#[test]
fn editor_reports_which_input_is_wrong() {
    assert_eq!(parse_constraint(M::AtLeast, "abc", ""), Err("invalid_number"));
    assert_eq!(parse_constraint(M::RangeInclusive, "5", "4"), Err("reversed_range"));
    let equal = parse_constraint(M::RangeInclusive, "5", "5.0").unwrap();
    assert_eq!(equal.mode, M::RangeInclusive);
    let exact = parse_constraint(M::Exactly, " 12.5 ", "ignored").unwrap();
    assert_eq!(exact.expected.unwrap().to_string(), "12.5");
    assert_eq!(exact.minimum, None);
    let at_most = parse_constraint(M::AtMost, "ignored", "-3").unwrap();
    assert_eq!(at_most.maximum.unwrap().to_string(), "-3");
}
