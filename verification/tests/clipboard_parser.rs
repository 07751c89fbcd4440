use poe_alarm::classify::{
    annotation_name, annotation_tier, classify_annotation, strip_inline_markers, ModKind,
};
use poe_alarm::item::{ItemTextError, ModGroup, ParsedItem};
use poe_alarm::sections::{compact, is_decoration, is_separator, parse};

#[test]
fn classifies_traditional_annotations() {
    assert_eq!(
        classify_annotation("{ 前綴 \"迸出的\"(階層：1)— 傷害,物理,攻擊 }"),
        ModKind::Prefix
    );
    assert_eq!(
        classify_annotation("{ 後綴 \"喝采之\"(階層：1)— 攻擊,速度 }"),
        ModKind::Suffix
    );
}

#[test]
fn an_affix_name_never_drives_classification() {
    assert_eq!(
        classify_annotation("{ 已大師工藝 後綴 \"工藝之\"— 攻擊,暴擊,能力 }"),
        ModKind::Crafted
    );
}

#[test]
fn classifies_english_annotations() {
    assert_eq!(
        classify_annotation("{ Prefix Modifier \"Athlete's\" (Tier: 2) }"),
        ModKind::Prefix
    );
    assert_eq!(classify_annotation("{ Implicit Modifier }"), ModKind::Implicit);
}

#[test]
fn unknown_annotations_read_as_plain_explicit() {
    assert_eq!(classify_annotation("{ something else }"), ModKind::Explicit);
}

#[test]
fn extracts_name_and_tier() {
    let annotation = "{ 前綴 \"獨裁者的\"(階層：1)— 傷害,物理,攻擊  — 增加 15% }";
    assert_eq!(annotation_name(annotation).as_deref(), Some("獨裁者的"));
    assert_eq!(annotation_tier(annotation), Some(1));
    assert_eq!(
        annotation_tier("{ Prefix Modifier \"Athlete's\" (Tier: 12) }"),
        Some(12)
    );
}

#[test]
fn tier_is_absent_when_the_client_omits_it() {
    assert_eq!(
        annotation_tier("{ 已大師工藝 後綴 \"工藝之\"— 攻擊,暴擊,能力 }"),
        None
    );
}

#[test]
fn strips_inline_marker_and_reports_the_kind() {
    let (text, kind) = strip_inline_markers("增加 200% 能力值需求 (enchant)");
    assert_eq!(text, "增加 200% 能力值需求");
    assert_eq!(kind, Some(ModKind::Enchant));
}

#[test]
fn strips_stacked_property_noise_without_implying_a_kind() {
    let (text, kind) = strip_inline_markers("敏捷: 636 (augmented) (unmet)");
    assert_eq!(text, "敏捷: 636");
    assert_eq!(kind, None);
}

#[test]
fn leaves_an_unmarked_line_alone() {
    let (text, kind) = strip_inline_markers("增加 179(170-179)% 物理傷害");
    assert_eq!(text, "增加 179(170-179)% 物理傷害");
    assert_eq!(kind, None);
}

fn group(kind: ModKind, lines: &[&str]) -> ModGroup {
    ModGroup {
        kind,
        lines: lines.iter().map(|line| (*line).to_string()).collect(),
        name: None,
        tier: None,
    }
}

#[test]
fn render_separates_groups_with_a_blank_line() {
    let item = ParsedItem {
        groups: vec![
            group(ModKind::Prefix, &["增加 179% 物理傷害"]),
            group(ModKind::Prefix, &["增加 79% 物理傷害", "+186 命中值"]),
        ],
        ..ParsedItem::default()
    };
    let (lines, identities) = item.render();
    assert_eq!(
        lines,
        vec![
            "增加 179% 物理傷害".to_string(),
            String::new(),
            "增加 79% 物理傷害".to_string(),
            "+186 命中值".to_string(),
        ]
    );
    assert_eq!(identities[0].line_index, 0);
    assert_eq!(identities[1].line_index, 2);
    assert_eq!(identities[2].line_index, 3);
    assert_eq!(identities[1].physical_band_id, identities[2].physical_band_id);
    assert_ne!(identities[0].physical_band_id, identities[1].physical_band_id);
}

#[test]
fn render_of_an_empty_item_is_empty() {
    let (lines, identities) = ParsedItem::default().render();
    assert!(lines.is_empty());
    assert!(identities.is_empty());
}

#[test]
fn separator_needs_a_run_of_dashes() {
    assert!(is_separator("--------"));
    assert!(!is_separator("---"));
    assert!(!is_separator("增加 179% 物理傷害"));
}

#[test]
fn compact_folds_the_full_width_colon() {
    assert_eq!(compact("物品等級: 90"), "物品等級:90");
    assert_eq!(compact("物品等級：90"), "物品等級:90");
    assert_eq!(compact("Item Level: 90"), "itemlevel:90");
}

#[test]
fn decoration_covers_both_bracket_widths() {
    assert!(is_decoration("(implicit)"));
    assert!(is_decoration("（ 近期內意指 4 秒內 ）"));
    assert!(!is_decoration("增加 179(170-179)% 物理傷害"));
}

#[test]
fn rejects_a_payload_that_is_not_an_item() {
    assert_eq!(parse("just some text"), Err(ItemTextError::NotAnItem));
}

const ANNOTATED_RING: &str = "Item Class: Rings\r\nRarity: Rare\r\nDoom Loop\r\nRuby Ring\r\n--------\r\nItem Level: 84\r\n--------\r\n{ Prefix Modifier \"Virile\" (Tier: 2) — Life }\r\n+42(40-49) to maximum Life\r\n{ Suffix Modifier \"of the Furnace\" (Tier: 4) — Elemental, Fire, Resistance }\r\n+30(30-35)% to Fire Resistance\r\n--------\r\nCorrupted\r\n";

#[test]
fn annotated_dump_groups_each_modifier_with_its_kind() {
    let item = parse(ANNOTATED_RING).expect("parses");
    assert_eq!(item.item_class.as_deref(), Some("Rings"));
    assert_eq!(item.rarity.as_deref(), Some("Rare"));
    assert_eq!(item.item_level.as_deref(), Some("84"));
    assert!(item.corrupted);
    assert!(item.grouping_is_authoritative);
    assert_eq!(item.groups.len(), 2);
    assert_eq!(item.groups[0].kind, ModKind::Prefix);
    assert_eq!(item.groups[0].lines, vec!["+42(40-49) to maximum Life".to_string()]);
    assert_eq!(item.groups[0].tier, Some(2));
    assert_eq!(item.groups[0].name.as_deref(), Some("Virile"));
    assert_eq!(item.groups[1].kind, ModKind::Suffix);
    let (lines, identities) = item.render();
    assert_eq!(lines.len(), 3);
    assert_eq!(identities.len(), 2);
}

#[test]
fn kept_lines_keep_no_trailing_marker() {
    let item = parse("Rarity: Rare\nTest Ring\n--------\nItem Level: 80\n--------\n+10 to maximum Life (crafted) (unmet)\n+5% to Fire Resistance (implicit)\n--------").unwrap();
    let lines: Vec<String> = item.groups.iter().flat_map(|g| g.lines.clone()).collect();
    assert_eq!(lines, vec!["+10 to maximum Life".to_string(), "+5% to Fire Resistance".to_string()]);
    for line in &lines {
        assert_eq!(strip_inline_markers(line).0, line.as_str());
    }
}

#[test]
fn an_unannotated_parse_keeps_one_line_per_group() {
    let item = parse("Rarity: Rare\nTest Bow\n--------\nItem Level: 83\n--------\n79% increased Physical Damage\n+186 to Accuracy Rating\n--------").unwrap();
    assert!(!item.grouping_is_authoritative);
    assert_eq!(item.groups.len(), 2);
    assert!(item.groups.iter().all(|g| g.lines.len() == 1));
}
