use poe_alarm::clipboard::{describes_game, HeldModifiers};
use poe_alarm::item_text::{looks_like_item, parse, ItemTextError};
use poe_alarm::lab::{describes_same_roll, evaluate_payload, profile_from_settings, ProfileError};
use poe_alarm::decimal::Decimal;
use poe_alarm::rules::{
    AcceptableResultGroup, AffixCondition, CompiledRuleSet, NumericConstraint, ResultGroupMode,
    RuleSetDefinition, CURRENT_SCHEMA_VERSION,
};
use poe_alarm::stats::{bucket_label, LatencySamples};

#[test]
fn recognizes_both_clients_by_title() {
    assert!(describes_game("Path of Exile", "POEWindowClass"));
    assert!(describes_game("Path of Exile 2", "POEWindowClass"));
}

#[test]
fn recognizes_client_by_exact_title_when_class_is_unknown() {
    assert!(describes_game("Path of Exile 2", "SomeFutureClass"));
}

#[test]
fn recognizes_client_by_class_when_title_is_localized() {
    assert!(describes_game("流亡黯道", "POEWindowClass"));
}

#[test]
fn rejects_unrelated_windows() {
    assert!(!describes_game("Notepad", "Notepad"));
    assert!(!describes_game("", ""));
    assert!(!describes_game(
        "Path of Exile - Wikipedia - Chrome",
        "Chrome_WidgetWin_1"
    ));
}

#[test]
fn modifier_display_lists_held_keys() {
    let none = HeldModifiers::default();
    assert_eq!(none.to_string(), "none");
    assert!(!none.any());
    let both = HeldModifiers {
        control: true,
        shift: true,
        alt: false,
    };
    assert_eq!(both.to_string(), "Ctrl+Shift");
    assert!(both.any());
}

#[test]
fn every_held_key_is_named_in_order() {
    let all = HeldModifiers {
        control: true,
        shift: true,
        alt: true,
    };
    assert_eq!(all.to_string(), "Ctrl+Shift+Alt");
    let alt = HeldModifiers {
        control: false,
        shift: false,
        alt: true,
    };
    assert_eq!(alt.to_string(), "Alt");
    assert!(alt.any());
}

const ENGLISH_MAGIC_RING: &str = "Item Class: Rings\r\nRarity: Magic\r\nSerpent's Coral Ring of the Lizard\r\n--------\r\nRequirements:\r\nLevel: 20\r\n--------\r\nItem Level: 62\r\n--------\r\n+25 to maximum Life\r\n+11% to Chaos Resistance\r\n";

const SIMPLIFIED_PADDED: &str = "物品类别: 戒指\r\n稀 有 度: 魔法\r\n蛇形 珊瑚戒指 之 蜥蜴\r\n--------\r\n需求:\r\n等级: 20\r\n--------\r\n物品等级: 62\r\n--------\r\n+25 最大生命\r\n+11% 混沌抗性\r\n--------\r\n出售此物品可得...\r\n";

#[test]
fn parses_english_magic_item() {
    let parsed = parse(ENGLISH_MAGIC_RING).expect("dump parses");
    assert_eq!(
        parsed.affix_lines,
        vec![
            "+25 to maximum Life".to_string(),
            "+11% to Chaos Resistance".to_string(),
        ]
    );
    assert_eq!(parsed.rarity.as_deref(), Some("Magic"));
    assert_eq!(parsed.item_level.as_deref(), Some("62"));
    assert!(!parsed.corrupted);
}

#[test]
fn handles_padded_simplified_keys_and_drops_vendor_block() {
    let parsed = parse(SIMPLIFIED_PADDED).expect("dump parses");
    assert_eq!(
        parsed.affix_lines,
        vec!["+25 最大生命".to_string(), "+11% 混沌抗性".to_string()]
    );
    assert_eq!(parsed.rarity.as_deref(), Some("魔法"));
    assert_eq!(parsed.item_level.as_deref(), Some("62"));
}

#[test]
fn drops_advanced_mod_annotations() {
    let payload = "Rarity: Rare\r\nDoom Whorl\r\n--------\r\nItem Level: 84\r\n--------\r\n{ Prefix Modifier (Tier: 2) }\r\n+42 to maximum Life\r\n(implicit)\r\n+8% to Fire Resistance\r\n";
    let parsed = parse(payload).expect("dump parses");
    assert_eq!(
        parsed.affix_lines,
        vec![
            "+42 to maximum Life".to_string(),
            "+8% to Fire Resistance".to_string(),
        ]
    );
}

#[test]
fn records_corruption_without_emitting_it_as_an_affix() {
    let payload = "Rarity: Rare\r\nDoom Whorl\r\n--------\r\nItem Level: 84\r\n--------\r\n+42 to maximum Life\r\n--------\r\nCorrupted\r\n";
    let parsed = parse(payload).expect("dump parses");
    assert_eq!(parsed.affix_lines, vec!["+42 to maximum Life".to_string()]);
    assert!(parsed.corrupted);
}

#[test]
fn rejects_non_item_payloads() {
    assert_eq!(parse("just some text"), Err(ItemTextError::NotAnItem));
    assert!(!looks_like_item("just some text"));
    assert!(looks_like_item(ENGLISH_MAGIC_RING));
}

#[test]
fn rejects_currency_without_affixes() {
    let payload = "Item Class: Stackable Currency\r\nRarity: Currency\r\nOrb of Alteration\r\n--------\r\nStack Size: 40/20\r\n";
    assert_eq!(parse(payload), Err(ItemTextError::NoAffixSection));
}

fn life_rule() -> CompiledRuleSet {
    CompiledRuleSet::compile(RuleSetDefinition {
        schema_version: CURRENT_SCHEMA_VERSION,
        name: "lab".to_string(),
        groups: vec![AcceptableResultGroup {
            name: "life".to_string(),
            mode: ResultGroupMode::All,
            required_count: 1,
            conditions: vec![AffixCondition::new(
                "life",
                "+# to maximum Life",
                vec![NumericConstraint::at_least(Decimal::from(40))],
            )],
        }],
    })
    .expect("rule compiles")
}

const ROLLED_HIGH: &str = "Item Class: Rings\r\nRarity: Magic\r\nCoral Ring\r\n--------\r\nItem Level: 62\r\n--------\r\n+42 to maximum Life\r\n";

const ROLLED_LOW: &str = "Item Class: Rings\r\nRarity: Magic\r\nCoral Ring\r\n--------\r\nItem Level: 62\r\n--------\r\n+12 to maximum Life\r\n";

#[test]
fn matching_payload_is_a_hit() {
    let verdict = evaluate_payload(&life_rule(), ROLLED_HIGH);
    assert!(verdict.is_hit(), "{:?}", verdict.lines());
    assert_eq!(verdict.modifier_count(), 1);
}

#[test]
fn below_threshold_payload_is_a_miss() {
    let verdict = evaluate_payload(&life_rule(), ROLLED_LOW);
    assert!(!verdict.is_hit());
    assert!(!verdict.is_undecided());
}

#[test]
fn garbage_payload_is_undecided_so_callers_fail_closed() {
    assert!(evaluate_payload(&life_rule(), "not an item").is_undecided());
}

#[test]
fn identical_payloads_are_the_same_roll() {
    assert!(describes_same_roll(ROLLED_HIGH, ROLLED_HIGH));
}

#[test]
fn a_changed_value_is_a_new_roll() {
    assert!(!describes_same_roll(ROLLED_HIGH, ROLLED_LOW));
}

#[test]
fn cosmetic_differences_are_not_a_new_roll() {
    let unix = ROLLED_HIGH.replace("\r\n", "\n");
    assert!(describes_same_roll(ROLLED_HIGH, &unix));
    let padded = format!("{ROLLED_HIGH}\r\n\r\n");
    assert!(describes_same_roll(ROLLED_HIGH, &padded));
}

fn samples(millis: &[u64]) -> LatencySamples {
    let mut set = LatencySamples::with_capacity(millis.len());
    for value in millis {
        set.push(*value * 1_000_000);
    }
    set
}

#[test]
fn histogram_accounts_for_every_sample() {
    let set = samples(&[5, 15, 25, 500]);
    let counts = set.bucket_counts(&[10, 20, 30]);
    assert_eq!(counts.len(), 4);
    assert_eq!(counts, vec![1, 1, 1, 1]);
    assert!(bucket_label(30, None).contains("30+"));
}

#[test]
fn summary_statistics_of_samples() {
    let set = samples(&[30, 10, 20]);
    assert_eq!(set.len(), 3);
    assert!(!set.is_empty());
    assert_eq!(set.mean(), Some(20_000_000));
    assert_eq!(set.min(), Some(10_000_000));
    assert_eq!(set.max(), Some(30_000_000));
    let empty = samples(&[]);
    assert!(empty.is_empty());
    assert_eq!(empty.mean(), None);
    assert_eq!(empty.min(), None);
    assert_eq!(empty.max(), None);
}

#[test]
fn bucket_rows_are_labelled_by_their_bounds() {
    assert_eq!(bucket_label(0, Some(10)), "   0-10  ms");
    assert_eq!(bucket_label(120, None), " 120+     ms");
    let empty = samples(&[]);
    assert_eq!(empty.bucket_counts(&[10]), vec![0, 0]);
}

fn life_definition(groups: usize) -> RuleSetDefinition {
    let group = AcceptableResultGroup {
        name: "life".to_string(),
        mode: ResultGroupMode::All,
        required_count: 1,
        conditions: vec![AffixCondition::new("life", "+# to maximum Life", vec![])],
    };
    RuleSetDefinition {
        schema_version: CURRENT_SCHEMA_VERSION,
        name: "lab".to_string(),
        groups: vec![group; groups],
    }
}

#[test]
fn a_profile_needs_a_saved_rule_set_that_compiles() {
    let missing = profile_from_settings(None, "en".into(), "Poe2".into(), "settings.json".into());
    assert!(matches!(missing, Err(ProfileError::MissingRuleSet)));
    let empty = profile_from_settings(Some(life_definition(0)), "en".into(), "Poe2".into(), "settings.json".into());
    match empty {
        Err(ProfileError::InvalidRuleSet(message)) => assert!(!message.is_empty()),
        other => panic!("expected an invalid rule set, got {:?}", other.is_ok()),
    }
    let profile = profile_from_settings(Some(life_definition(1)), "en".into(), "Poe2".into(), "settings.json".into())
        .ok()
        .expect("profile");
    assert_eq!(profile.ocr_language, "en");
    assert_eq!(profile.game_profile, "Poe2");
    assert_eq!(profile.settings_path, "settings.json");
    assert!(evaluate_payload(&profile.rules, ROLLED_LOW).is_hit());
}

#[test]
fn the_mean_lies_between_the_extremes() {
    let mut samples = LatencySamples::with_capacity(3);
    samples.push(10);
    samples.push(11);
    samples.push(40);
    assert_eq!(samples.min(), Some(10));
    assert_eq!(samples.mean(), Some(20));
    assert_eq!(samples.max(), Some(40));
}

#[test]
fn a_lone_carriage_return_splits_lines_for_the_parse_only() {
    let payload = "Rarity: Rare\r----\rTest";
    assert!(!looks_like_item(payload));
    assert_ne!(parse(payload), Err(ItemTextError::NotAnItem));
    assert!(looks_like_item("Rarity: Rare\r\n----\r\nTest"));
}
