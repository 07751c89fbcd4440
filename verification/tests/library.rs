use poe_alarm::decimal::Decimal;
use poe_alarm::library::{
    constraint_description, has_pristine_placeholder, library_entry_matches, library_growth_fits, make_condition_name_unique, make_group_name_unique,
    merge_library_entries, saved_rule_growth_fits, update_entry_details, validate_library_entries, GameProfile, LibraryEntry,
};
use poe_alarm::rules::{AcceptableResultGroup, AffixCondition, NumericConstraint, ResultGroupMode};
use poe_alarm::sections::parse;

fn entry() -> LibraryEntry {
    LibraryEntry {
        name: "Life".into(),
        category: "General".into(),
        game: GameProfile::Poe2,
        language: "en".into(),
        group: AcceptableResultGroup {
            conditions: vec![AffixCondition::new(
                "Life",
                "+# to maximum Life",
                vec![NumericConstraint::at_least(Decimal::from(70))],
            )],
            ..Default::default()
        },
        is_plan: false,
    }
}

#[test]
fn library_copy_is_independent_and_preserves_numeric_requirements() {
    let saved = entry();
    let mut copy = saved.group.clone();
    copy.conditions[0].numeric_constraints[0] = NumericConstraint::at_least(Decimal::from(99));
    make_condition_name_unique(&mut copy.conditions[0], &saved.group.conditions);
    assert_eq!(
        saved.group.conditions[0].numeric_constraints[0].minimum,
        Some(Decimal::from(70))
    );
    assert_eq!(copy.conditions[0].name, "Life (2)");
    assert_eq!(
        copy.conditions[0].numeric_constraints[0].minimum,
        Some(Decimal::from(99))
    );
}

#[test]
fn import_rejects_invalid_rules_and_languages_before_mutating_library() {
    let mut candidate = entry();
    assert!(validate_library_entries(&[candidate.clone()]).is_ok());
    candidate.language = "fr".into();
    assert!(validate_library_entries(&[candidate.clone()]).is_err());
    candidate.language = "en".into();
    candidate.group.conditions[0].numeric_constraints[0].minimum = None;
    assert!(validate_library_entries(&[candidate.clone()]).is_err());
    candidate = entry();
    candidate.group.conditions[0].template.clear();
    assert!(validate_library_entries(&[candidate]).is_err());
}

#[test]
fn grouped_item_import_keeps_hybrid_lines_together() {
    let item = parse("Item Class: Bows\nRarity: Rare\nTest Bow\n--------\nItem Level: 83\n--------\n{ Prefix Modifier \"Test\" (Tier: 1) }\n79% increased Physical Damage\n+186 to Accuracy Rating\n--------").unwrap();
    assert!(item.grouping_is_authoritative);
    assert_eq!(item.groups.len(), 1);
    assert_eq!(item.groups[0].lines.len(), 2);
}

#[test]
fn only_one_untouched_default_row_can_be_replaced_during_import() {
    let mut group = AcceptableResultGroup {
        conditions: vec![AffixCondition::default()],
        ..Default::default()
    };
    assert!(has_pristine_placeholder(&group));
    group.conditions[0].name = "A named draft".into();
    assert!(!has_pristine_placeholder(&group));
    group.conditions[0] = AffixCondition {
        enabled: false,
        ..Default::default()
    };
    assert!(!has_pristine_placeholder(&group));
    group.conditions[0] = AffixCondition {
        numeric_constraints: vec![NumericConstraint::at_least(Decimal::from(70))],
        ..Default::default()
    };
    assert!(!has_pristine_placeholder(&group));
    group.conditions = vec![AffixCondition::default(); 2];
    assert!(!has_pristine_placeholder(&group));
}

#[test]
fn stored_rule_limits_include_all_plans_and_preserve_placeholder_replacement_space() {
    assert!(saved_rule_growth_fits(127, 1023, 1, 1, 0));
    assert!(!saved_rule_growth_fits(128, 1023, 1, 1, 0));
    assert!(!saved_rule_growth_fits(127, 1024, 0, 1, 0));
    assert!(saved_rule_growth_fits(128, 1024, 0, 1, 1));
    assert!(!saved_rule_growth_fits(128, 1024, 0, 2, 1));
}

#[test]
fn import_deduplicates_before_capacity_check_and_rejects_atomically() {
    let mut existing: Vec<_> = (0..4096)
        .map(|index| {
            let mut item = entry();
            item.name = format!("Entry {index}");
            item
        })
        .collect();
    let duplicate = existing[0].clone();
    assert_eq!(merge_library_entries(&mut existing, vec![duplicate]), Ok(0));
    let previous = existing.clone();
    assert!(merge_library_entries(&mut existing, vec![entry()]).is_err());
    assert_eq!(existing, previous);
    let mut small = vec![entry()];
    let mut new_entry = entry();
    new_entry.name = "Other".into();
    assert_eq!(
        merge_library_entries(&mut small, vec![new_entry.clone(), new_entry]),
        Ok(1)
    );
    assert_eq!(small.len(), 2);
}

#[test]
fn library_total_affix_budget_prevents_unimportable_exports() {
    let mut full_plan = entry();
    full_plan.is_plan = true;
    full_plan.group.conditions = vec![full_plan.group.conditions[0].clone(); 1024];
    let mut existing = vec![full_plan; 8];
    assert!(!library_growth_fits(&existing, &[entry().group]));
    let snapshot = existing.clone();
    assert!(merge_library_entries(&mut existing, vec![entry()]).is_err());
    assert_eq!(existing, snapshot);
}

#[test]
fn a_taken_suffix_moves_on_to_the_next_free_one() {
    let mut group = entry().group;
    group.name = "Plan".into();
    let mut others = vec![entry().group, entry().group];
    others[0].name = "plan".into();
    others[1].name = "PLAN (2)".into();
    make_group_name_unique(&mut group, &others);
    assert_eq!(group.name, "Plan (3)");
    let mut empty = entry().group;
    make_group_name_unique(&mut empty, &others);
    assert_eq!(empty.name, "");
    let mut free = entry().group;
    free.name = "Spare".into();
    make_group_name_unique(&mut free, &others);
    assert_eq!(free.name, "Spare");
}

#[test]
fn library_problems_are_reported_in_order() {
    let mut long = entry();
    long.category = "x".repeat(257);
    assert_eq!(validate_library_entries(&[long]), Err("Library names are too long".to_string()));
    let mut single = entry();
    single.group.conditions.push(single.group.conditions[0].clone());
    assert_eq!(
        validate_library_entries(&[single]),
        Err("Invalid language or modifier count: Life".to_string())
    );
    let mut plan = entry();
    plan.is_plan = true;
    plan.group.mode = ResultGroupMode::AtLeast;
    plan.group.required_count = 2;
    assert_eq!(
        validate_library_entries(&[plan]),
        Err("Invalid required condition count: Life".to_string())
    );
    let many = vec![entry(); 4097];
    assert_eq!(
        validate_library_entries(&many),
        Err("Library contains more than 4096 entries".to_string())
    );
}

#[test]
fn constraints_are_listed_by_mode_and_value() {
    assert_eq!(constraint_description(&NumericConstraint::at_least(Decimal::from(70))), "≥70");
    assert_eq!(constraint_description(&NumericConstraint::at_most(Decimal::from(5))), "≤5");
    assert_eq!(constraint_description(&NumericConstraint::exactly(Decimal::from(3))), "=3");
    assert_eq!(
        constraint_description(&NumericConstraint::range(Decimal::parse("1.5").unwrap(), Decimal::from(3))),
        "1.5…3"
    );
    assert_eq!(constraint_description(&NumericConstraint::ignored()), "—");
    let mut missing = NumericConstraint::at_least(Decimal::from(1));
    missing.minimum = None;
    assert_eq!(constraint_description(&missing), "≥?");
}

#[test]
fn search_needs_every_word_in_name_category_or_templates() {
    let e = entry();
    assert!(library_entry_matches(&e, ""));
    assert!(library_entry_matches(&e, "   "));
    assert!(library_entry_matches(&e, "LIFE"));
    assert!(library_entry_matches(&e, "general  maximum"));
    assert!(library_entry_matches(&e, "to max"));
    assert!(!library_entry_matches(&e, "life mana"));
    assert!(!library_entry_matches(&e, "Fire"));
    // The parts are joined by a space, so a word never spans two of them.
    assert!(!library_entry_matches(&e, "lifegeneral"));
    assert!(library_entry_matches(&e, "life general"));
}

#[test]
fn search_looks_through_every_template_of_a_plan() {
    let mut e = entry();
    e.group.conditions.push(AffixCondition::new("Mana", "+# to maximum Mana", vec![]));
    e.is_plan = true;
    assert!(library_entry_matches(&e, "mana\tlife"));
    assert!(library_entry_matches(&e, "Life +#"));
    assert!(!library_entry_matches(&e, "energy"));
}

#[test]
fn saving_entry_details_trims_and_keeps_a_name_left_empty() {
    let mut e = entry();
    assert!(update_entry_details(&mut e, "  Big life ", " Defence "));
    assert_eq!(e.name, "Big life");
    assert_eq!(e.category, "Defence");
    assert!(update_entry_details(&mut e, "   ", ""));
    assert_eq!(e.name, "Big life");
    assert_eq!(e.category, "");
}

#[test]
fn saving_entry_details_refuses_overlong_text_and_changes_nothing() {
    let mut e = entry();
    let long_name = "n".repeat(1025);
    assert!(!update_entry_details(&mut e, &long_name, "x"));
    assert_eq!(e.name, "Life");
    assert_eq!(e.category, "General");
    let long_category = "\u{4e2d}".repeat(86);
    assert!(!update_entry_details(&mut e, "x", &long_category));
    assert_eq!(e.name, "Life");
    assert!(update_entry_details(&mut e, &"n".repeat(1024), &"\u{4e2d}".repeat(85)));
    assert_eq!(e.name.len(), 1024);
    assert_eq!(e.category.len(), 255);
}

#[test]
fn search_lowers_whole_words_as_strings_do() {
    let mut e = entry();
    e.name = "ΟΔΟΣ".into();
    // A capital sigma that ends a word lowers to the final form.
    assert!(library_entry_matches(&e, "οδος"));
    assert!(library_entry_matches(&e, "ΟΔΟΣ"));
}
