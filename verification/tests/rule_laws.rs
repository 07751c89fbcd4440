use poe_alarm::decimal::Decimal;
use poe_alarm::rules::{
    AcceptableResultGroup, AffixCondition, AssistedModifierObservation, CompiledRuleSet,
    NumericConstraint, PhysicalLineIdentity, ResultGroupMode, RuleSetDefinition,
};

fn group_of(mode: ResultGroupMode, required: usize, conditions: Vec<AffixCondition>) -> CompiledRuleSet {
    CompiledRuleSet::compile(RuleSetDefinition {
        groups: vec![AcceptableResultGroup {
            name: "result".into(),
            mode,
            required_count: required,
            conditions,
        }],
        ..Default::default()
    })
    .unwrap()
}

#[test]
fn lines_of_one_band_satisfy_one_condition() {
    let rules = group_of(
        ResultGroupMode::AtLeast,
        2,
        vec![
            AffixCondition::new("physical", "#% increased Physical Damage", vec![]),
            AffixCondition::new("accuracy", "+# to Accuracy Rating", vec![]),
        ],
    );
    let lines: Vec<String> = vec![
        "79% increased Physical Damage".into(),
        "+186 to Accuracy Rating".into(),
    ];
    assert!(rules.evaluate(&lines).is_match);
    let hybrid = [
        PhysicalLineIdentity { line_index: 0, physical_band_id: "hybrid".into() },
        PhysicalLineIdentity { line_index: 1, physical_band_id: " hybrid ".into() },
    ];
    let result = rules.evaluate_with_identity(&lines, &[], &hybrid);
    assert!(!result.is_match);
    assert_eq!(result.groups[0].matched_count, 1);
    let separate = [
        PhysicalLineIdentity { line_index: 0, physical_band_id: "first".into() },
        PhysicalLineIdentity { line_index: 1, physical_band_id: "second".into() },
    ];
    assert!(rules.evaluate_with_identity(&lines, &[], &separate).is_match);
    let blank = [
        PhysicalLineIdentity { line_index: 0, physical_band_id: "  ".into() },
        PhysicalLineIdentity { line_index: 1, physical_band_id: "".into() },
    ];
    assert!(rules.evaluate_with_identity(&lines, &[], &blank).is_match);
}

#[test]
fn an_assisted_reading_and_the_lines_of_its_band_satisfy_one_condition() {
    let rules = group_of(
        ResultGroupMode::AtLeast,
        2,
        vec![
            AffixCondition::new("read", "#% increased Physical Damage", vec![]),
            AffixCondition::new("assisted", "#% increased Physical Damage", vec![]),
        ],
    );
    let lines: Vec<String> = vec!["78% increased Physical Damage".into()];
    let assisted = [AssistedModifierObservation::new(
        "band",
        "78% increased Physical Damage",
        "#% increased Physical Damage",
    )];
    assert!(rules.evaluate_with_identity(&lines, &assisted, &[]).is_match);
    let same_band = [PhysicalLineIdentity { line_index: 0, physical_band_id: "band".into() }];
    assert!(!rules.evaluate_with_identity(&lines, &assisted, &same_band).is_match);
}

#[test]
fn every_condition_that_can_hold_on_its_own_modifier_does() {
    let rules = group_of(
        ResultGroupMode::All,
        1,
        vec![
            AffixCondition::new("any life", "+# to maximum Life", vec![]),
            AffixCondition::new(
                "high life",
                "+# to maximum Life",
                vec![NumericConstraint::at_least(Decimal::from(50))],
            ),
        ],
    );
    let result = rules.evaluate(&["+60 to maximum Life".into(), "+10 to maximum Life".into()]);
    assert!(result.is_match);
    assert_eq!(result.groups[0].matched_count, 2);
    let high = &result.groups[0].conditions[1];
    assert_eq!(high.observation.as_ref().unwrap().start_line_index, 0);
    let low = &result.groups[0].conditions[0];
    assert_eq!(low.observation.as_ref().unwrap().start_line_index, 1);
    assert!(!rules.evaluate(&["+60 to maximum Life".into()]).is_match);
}

#[test]
fn a_wrapped_reading_links_its_lines_into_one_modifier() {
    let rules = group_of(
        ResultGroupMode::AtLeast,
        2,
        vec![
            AffixCondition::new("first", "Adds # to # Cold Damage", vec![]),
            AffixCondition::new("second", "to Attacks", vec![]),
            AffixCondition::new("joined", "Adds # to # Cold Damage to Attacks", vec![]),
        ],
    );
    let lines: Vec<String> = vec!["Adds 10 to 17 Cold Damage".into(), "to Attacks".into()];
    let result = rules.evaluate(&lines);
    assert!(!result.is_match);
    assert_eq!(result.groups[0].matched_count, 1);
}

#[test]
fn observations_report_the_lines_they_read() {
    let rules = group_of(
        ResultGroupMode::Any,
        1,
        vec![AffixCondition::new("speed", "#% increased Attack Speed", vec![])],
    );
    let result = rules.evaluate(&["  12% increased Attack Speed ".into()]);
    let observation = result.groups[0].conditions[0].observation.as_ref().unwrap();
    assert_eq!(observation.original_text, "12% increased Attack Speed");
    assert_eq!(observation.numeric_values, vec![Some(Decimal::from(12))]);
}

#[test]
fn observation_bands_are_trimmed_and_sorted() {
    let rules = group_of(
        ResultGroupMode::Any,
        1,
        vec![AffixCondition::new(
            "hybrid",
            "#% increased Physical Damage +# to Accuracy Rating",
            vec![],
        )],
    );
    let lines: Vec<String> = vec![
        "79% increased Physical Damage".into(),
        "+186 to Accuracy Rating".into(),
    ];
    let identities = [
        PhysicalLineIdentity { line_index: 0, physical_band_id: " zeta ".into() },
        PhysicalLineIdentity { line_index: 1, physical_band_id: "alpha".into() },
    ];
    let result = rules.evaluate_with_identity(&lines, &[], &identities);
    assert!(result.is_match);
    let observation = result.groups[0].conditions[0].observation.as_ref().unwrap();
    assert_eq!(observation.physical_line_count, 2);
    assert_eq!(observation.physical_band_ids, vec!["alpha".to_string(), "zeta".to_string()]);
    assert_eq!(observation.physical_band_id.as_deref(), Some("alpha"));
}

#[test]
fn an_assisted_reading_counts_as_a_modifier_of_its_own() {
    let rules = |minimum: i32| {
        group_of(
            ResultGroupMode::All,
            1,
            vec![
                AffixCondition::new(
                    "life",
                    "+# to maximum Life",
                    vec![NumericConstraint::at_least(Decimal::from(50))],
                ),
                AffixCondition::new(
                    "mana",
                    "+# to maximum Mana",
                    vec![NumericConstraint::at_least(Decimal::from(minimum))],
                ),
            ],
        )
    };
    let lines: Vec<String> = vec!["+60 to maximum Life".into()];
    let assisted = [AssistedModifierObservation::new(
        "mana-band",
        "+45 to maximum Mana",
        "+# to maximum Mana",
    )];
    assert!(rules(40).evaluate_with_identity(&lines, &assisted, &[]).is_match);
    assert!(!rules(50).evaluate_with_identity(&lines, &assisted, &[]).is_match);
    let unusable = [AssistedModifierObservation::new("  ", "+45 to maximum Mana", "+# to maximum Mana")];
    assert!(!rules(40).evaluate_with_identity(&lines, &unusable, &[]).is_match);
    let other_kind = [AssistedModifierObservation::new(
        "mana-band",
        "45% to maximum Mana",
        "+# to maximum Mana",
    )];
    let result = rules(40).evaluate_with_identity(&lines, &other_kind, &[]);
    assert!(!result.is_match);
    let mana = &result.groups[0].conditions[1];
    assert!(!mana.is_matched);
}

#[test]
fn an_unsatisfied_condition_shows_its_nearest_miss() {
    let rules = group_of(
        ResultGroupMode::All,
        1,
        vec![AffixCondition::new(
            "flat",
            "Adds # to # Physical Damage",
            vec![
                NumericConstraint::at_least(Decimal::from(5)),
                NumericConstraint::at_least(Decimal::from(20)),
            ],
        )],
    );
    for lines in [
        vec!["Adds 6 to 10 Physical Damage".to_string(), "Adds 1 to 2 Physical Damage".to_string()],
        vec!["Adds 1 to 2 Physical Damage".to_string(), "Adds 6 to 10 Physical Damage".to_string()],
    ] {
        let result = rules.evaluate(&lines);
        assert!(!result.is_match);
        let condition = &result.groups[0].conditions[0];
        assert!(!condition.is_matched);
        let shown = condition.observation.as_ref().expect("a near miss is shown");
        assert_eq!(shown.original_text, "Adds 6 to 10 Physical Damage");
        assert_eq!(condition.numeric_slots.iter().filter(|slot| slot.is_satisfied).count(), 1);
    }
}
