use poe_alarm::clipboard::ClipboardError;
use poe_alarm::decimal::Decimal;
use poe_alarm::lab::Options;
use poe_alarm::polling::{should_poll, watch_read, widen_gap, RollPoll, RollStep, WatchStep};
use poe_alarm::rules::{
    AcceptableResultGroup, AffixCondition, CompiledRuleSet, NumericConstraint, ResultGroupMode,
    RuleSetDefinition, CURRENT_SCHEMA_VERSION,
};

fn life_rule() -> CompiledRuleSet {
    CompiledRuleSet::compile(RuleSetDefinition {
        schema_version: CURRENT_SCHEMA_VERSION,
        name: "lab".to_string(),
        groups: vec![AcceptableResultGroup {
            name: "life".to_string(),
            mode: ResultGroupMode::All,
            required_count: 1,
            conditions: vec![AffixCondition::new(
                "life",
                "+# to maximum Life",
                vec![NumericConstraint::at_least(Decimal::from(40))],
            )],
        }],
    })
    .expect("rule compiles")
}

const BEFORE: &str = "Item Class: Rings\r\nRarity: Magic\r\nCoral Ring\r\n--------\r\nItem Level: 62\r\n--------\r\n+12 to maximum Life\r\n";

const AFTER: &str = "Item Class: Rings\r\nRarity: Magic\r\nCoral Ring\r\n--------\r\nItem Level: 62\r\n--------\r\n+42 to maximum Life\r\n";

#[test]
fn gap_grows_by_half_within_its_bounds() {
    assert_eq!(widen_gap(10, 100), 15);
    assert_eq!(widen_gap(12, 60), 18);
    assert_eq!(widen_gap(50, 60), 60);
    assert_eq!(widen_gap(0, 60), 1);
    assert_eq!(widen_gap(40, 0), 1);
}

#[test]
fn deadline_gives_the_click_up() {
    let options = Options::default();
    let mut poll = RollPoll::new(&options);
    assert_eq!(poll.gap_ms, options.poll_gap_ms);
    assert!(poll.begin_copy(0, &options));
    assert!(poll.begin_copy(options.deadline_ms - 1, &options));
    assert_eq!(poll.copies, 2);
    assert!(!poll.begin_copy(options.deadline_ms, &options));
    assert_eq!(poll.copies, 2);
}

#[test]
fn first_read_only_sets_the_baseline() {
    let options = Options::default();
    let rules = life_rule();
    let mut poll = RollPoll::new(&options);
    let mut baseline = None;
    let step = poll.observe(&mut baseline, Ok(BEFORE.to_string()), 3, &options, &rules);
    assert!(matches!(step, RollStep::Retry { wait_ms: 0 }));
    assert_eq!(baseline.as_deref(), Some(BEFORE));
    assert_eq!(poll.gap_ms, options.poll_gap_ms);
}

#[test]
fn unchanged_read_waits_and_widens_the_gap() {
    let options = Options::default();
    let rules = life_rule();
    let mut poll = RollPoll::new(&options);
    let mut baseline = Some(BEFORE.to_string());
    let step = poll.observe(&mut baseline, Ok(BEFORE.to_string()), 30, &options, &rules);
    assert!(matches!(step, RollStep::Retry { wait_ms: 12 }));
    assert_eq!(poll.gap_ms, 18);
    assert_eq!(poll.first_change_ms, None);
}

#[test]
fn early_change_is_left_over_from_the_craft_before() {
    let options = Options::default();
    let rules = life_rule();
    let mut poll = RollPoll::new(&options);
    let mut baseline = Some(BEFORE.to_string());
    let step = poll.observe(&mut baseline, Ok(AFTER.to_string()), 5, &options, &rules);
    assert!(matches!(step, RollStep::Discarded { wait_ms: 12 }));
    assert_eq!(baseline.as_deref(), Some(AFTER));
    assert_eq!(poll.first_change_ms, Some(5));
    assert!(poll.candidate.is_none());
}

#[test]
fn settled_change_is_judged_on_the_second_identical_read() {
    let options = Options::default();
    let rules = life_rule();
    let mut poll = RollPoll::new(&options);
    let mut baseline = Some(BEFORE.to_string());
    let first = poll.observe(&mut baseline, Ok(AFTER.to_string()), 40, &options, &rules);
    assert!(matches!(first, RollStep::Retry { wait_ms: 12 }));
    assert_eq!(poll.candidate.as_deref(), Some(AFTER));
    assert_eq!(baseline.as_deref(), Some(BEFORE));
    let second = poll.observe(&mut baseline, Ok(AFTER.to_string()), 55, &options, &rules);
    match second {
        RollStep::Decided(verdict) => assert!(verdict.is_hit()),
        other => panic!("expected a verdict, got {other:?}"),
    }
    assert_eq!(baseline.as_deref(), Some(AFTER));
    assert_eq!(poll.first_change_ms, Some(40));
}

#[test]
fn without_settling_the_first_change_is_judged() {
    let mut options = Options::default();
    options.settle = false;
    let rules = life_rule();
    let mut poll = RollPoll::new(&options);
    let mut baseline = Some(AFTER.to_string());
    let step = poll.observe(&mut baseline, Ok(BEFORE.to_string()), 40, &options, &rules);
    match step {
        RollStep::Decided(verdict) => {
            assert!(!verdict.is_hit());
            assert!(!verdict.is_undecided());
        }
        other => panic!("expected a verdict, got {other:?}"),
    }
    assert_eq!(baseline.as_deref(), Some(BEFORE));
}

#[test]
fn transient_refusal_is_retried_and_remembered() {
    let options = Options::default();
    let rules = life_rule();
    let mut poll = RollPoll::new(&options);
    let mut baseline = Some(BEFORE.to_string());
    let step = poll.observe(&mut baseline, Err(ClipboardError::NoText), 30, &options, &rules);
    assert!(matches!(step, RollStep::Retry { wait_ms: 12 }));
    assert_eq!(poll.last_error, Some(ClipboardError::NoText));
    assert_eq!(poll.gap_ms, 18);
}

#[test]
fn lasting_refusal_fails_the_click() {
    let options = Options::default();
    let rules = life_rule();
    let mut poll = RollPoll::new(&options);
    let mut baseline = Some(BEFORE.to_string());
    let error = ClipboardError::InputRejected { delivered: 2, expected: 4 };
    let step = poll.observe(&mut baseline, Err(error.clone()), 30, &options, &rules);
    match step {
        RollStep::Failed(e) => assert_eq!(e, error),
        other => panic!("expected a failure, got {other:?}"),
    }
    assert_eq!(poll.last_error, None);
    assert_eq!(baseline.as_deref(), Some(BEFORE));
}

#[test]
fn transient_errors_are_the_ones_another_copy_can_mend() {
    assert!(ClipboardError::Timeout { waited_nanos: 1 }.is_transient());
    assert!(ClipboardError::Busy { attempts: 3 }.is_transient());
    assert!(ClipboardError::NoText.is_transient());
    assert!(!ClipboardError::Os { operation: "OpenClipboard".to_string(), code: 5 }.is_transient());
}

#[test]
fn watcher_polls_only_while_crafting() {
    let options = Options::default();
    assert!(should_poll(true, false, Some(100), &options));
    assert!(!should_poll(true, false, Some(options.active_window_ms), &options));
    assert!(!should_poll(true, true, Some(100), &options));
    assert!(!should_poll(false, false, Some(100), &options));
    assert!(!should_poll(true, false, None, &options));
}

#[test]
fn watcher_judges_only_changes() {
    let rules = life_rule();
    let mut last = None;
    assert!(matches!(watch_read(&mut last, BEFORE.to_string(), &rules), WatchStep::Baseline));
    assert!(matches!(watch_read(&mut last, BEFORE.to_string(), &rules), WatchStep::Unchanged));
    match watch_read(&mut last, AFTER.to_string(), &rules) {
        WatchStep::NewRoll(verdict) => assert!(verdict.is_hit()),
        other => panic!("expected a new roll, got {other:?}"),
    }
    assert_eq!(last.as_deref(), Some(AFTER));
}
