use poe_alarm::monitor::{ScanPace, CACHED_SCAN_DELAY, UNCACHED_SCAN_DELAY};
use poe_alarm::ocr_language::{language_score, normalize_chinese_numeric_dash, select_language, OcrLanguagePreference};

#[test]
fn a_progressive_yield_never_becomes_a_wait() {
    assert_eq!(ScanPace::ProgressiveYield.delay(), None);
}

#[test]
fn both_finished_paces_carry_a_delay_to_override() {
    assert!(ScanPace::UncachedDelay.delay().is_some());
    assert!(ScanPace::CachedDelay.delay().is_some());
}

#[test]
fn finished_paces_carry_their_own_delays() {
    assert_eq!(ScanPace::UncachedDelay.delay(), Some(UNCACHED_SCAN_DELAY));
    assert_eq!(ScanPace::CachedDelay.delay(), Some(CACHED_SCAN_DELAY));
}

#[test]
fn language_scoring_prefers_expected_regional_recognizers() {
    assert!(
        language_score(&OcrLanguagePreference::English, "en-US")
            > language_score(&OcrLanguagePreference::English, "en-AU")
    );
    assert!(
        language_score(&OcrLanguagePreference::TraditionalChinese, "zh-Hant-TW")
            > language_score(&OcrLanguagePreference::TraditionalChinese, "zh-HK")
    );
    assert_eq!(
        language_score(&OcrLanguagePreference::TraditionalChinese, "zh-Hans-CN"),
        None
    );
}

#[test]
fn the_ideograph_one_between_digits_reads_as_a_dash() {
    assert_eq!(normalize_chinese_numeric_dash("增加 (25一30)% 速度"), "增加 (25-30)% 速度");
    assert_eq!(normalize_chinese_numeric_dash("3 一 5"), "3 - 5");
    assert_eq!(normalize_chinese_numeric_dash("有一個插槽"), "有一個插槽");
    assert_eq!(normalize_chinese_numeric_dash("一5"), "一5");
    assert_eq!(normalize_chinese_numeric_dash(""), "");
}

#[test]
fn the_best_scoring_recognizer_language_is_chosen() {
    let tags = |v: &[&str]| v.iter().map(|t| t.to_string()).collect::<Vec<String>>();
    let english = OcrLanguagePreference::English;
    assert_eq!(select_language(&english, &tags(&["fr-FR", "en-GB", "en-US", "en-AU"])), Some(2));
    assert_eq!(select_language(&english, &tags(&["en-CA", "en-AU"])), Some(1));
    assert_eq!(select_language(&english, &tags(&["en-AU", "en-AU"])), Some(1));
    assert_eq!(select_language(&english, &tags(&["fr-FR", "de-DE"])), None);
    let chinese = OcrLanguagePreference::TraditionalChinese;
    assert_eq!(select_language(&chinese, &tags(&["zh-Hans-CN", "zh-HK", "zh-Hant-TW"])), Some(2));
}
