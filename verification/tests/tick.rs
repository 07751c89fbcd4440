use poe_alarm::tick::{condition_tree_label, elapsed_text, tick_step, TickAction, TickEvent, TickState};
use poe_alarm::view_state::{BridgeState, RunPhase};

fn idle() -> TickState {
    TickState {
        run: RunPhase::Idle,
        pending_start_at: None,
        auto_restart_budget: 0,
        monitor_since: None,
        pending_runtime_reset: false,
        hud_interactive: Some(true),
    }
}

#[test]
fn start_hotkey_schedules_a_start_after_the_debounce() {
    let (st, actions) = tick_step(idle(), &[TickEvent::StartHotkey], 1_000, true, false);
    assert_eq!(st.pending_start_at, Some(1_350));
    assert_eq!(actions, vec![TickAction::RefreshHud { visible: true }]);
    // A second press while a start is pending changes nothing.
    let (again, _) = tick_step(st, &[TickEvent::StartHotkey], 1_100, true, false);
    assert_eq!(again.pending_start_at, Some(1_350));
    // Not yet due.
    let (waiting, quiet) = tick_step(st, &[], 1_349, true, false);
    assert_eq!(waiting.pending_start_at, Some(1_350));
    assert!(quiet.is_empty());
    // Due: the start is carried out.
    let (started, actions) = tick_step(st, &[], 1_350, false, false);
    assert_eq!(started.pending_start_at, None);
    assert_eq!(actions, vec![TickAction::ToggleRun, TickAction::RefreshHud { visible: false }]);
}

#[test]
fn start_hotkey_is_ignored_while_monitoring() {
    let st = TickState { run: RunPhase::Monitoring, monitor_since: Some(0), hud_interactive: Some(false), ..idle() };
    let (after, actions) = tick_step(st, &[TickEvent::StartHotkey], 5, true, false);
    assert_eq!(after.pending_start_at, None);
    assert_eq!(actions, vec![TickAction::RefreshHud { visible: true }]);
}

#[test]
fn a_due_start_is_dropped_unless_idle() {
    let st = TickState { run: RunPhase::Hit, pending_start_at: Some(10), hud_interactive: Some(false), ..idle() };
    let (after, actions) = tick_step(st, &[], 20, true, false);
    assert_eq!(after.pending_start_at, None);
    assert_eq!(actions, vec![TickAction::RefreshHud { visible: false }]);
}

#[test]
fn stop_hotkey_only_stops_monitoring() {
    let monitoring = TickState { run: RunPhase::Monitoring, monitor_since: Some(0), hud_interactive: Some(false), ..idle() };
    let (_, actions) = tick_step(monitoring, &[TickEvent::StopHotkey], 5, true, false);
    assert_eq!(actions, vec![TickAction::ToggleRun, TickAction::RefreshHud { visible: true }]);
    let hit = TickState { run: RunPhase::Hit, ..monitoring };
    let (_, actions) = tick_step(hit, &[TickEvent::StopHotkey], 5, true, false);
    assert_eq!(actions, vec![TickAction::RefreshHud { visible: false }]);
}

#[test]
fn entering_monitoring_starts_the_clock_and_the_restart_budget() {
    let (st, actions) = tick_step(idle(), &[TickEvent::RuntimeState(BridgeState::Starting)], 7_000, true, false);
    assert_eq!(st.run, RunPhase::Monitoring);
    assert_eq!(st.monitor_since, Some(7_000));
    assert_eq!(st.auto_restart_budget, 2);
    assert_eq!(st.hud_interactive, Some(false));
    assert_eq!(actions, vec![TickAction::RefreshHud { visible: true }, TickAction::SetHudInteractive(false)]);
    let (later, _) = tick_step(st, &[TickEvent::RuntimeState(BridgeState::Monitoring)], 9_000, true, false);
    assert_eq!(later.monitor_since, Some(7_000));
}

#[test]
fn capture_faults_restart_twice_then_stay_idle() {
    let mut st = TickState { run: RunPhase::Monitoring, monitor_since: Some(0), auto_restart_budget: 2, hud_interactive: Some(false), ..idle() };
    let fault = TickEvent::Fault("BitBlt failed".to_string());
    let (after, actions) = tick_step(st, &[fault.clone()], 1_000, true, false);
    assert_eq!(after.run, RunPhase::Idle);
    assert_eq!(after.monitor_since, None);
    assert_eq!(after.auto_restart_budget, 1);
    assert_eq!(after.pending_start_at, Some(1_700));
    assert_eq!(
        actions,
        vec![TickAction::ResetRuntime, TickAction::RefreshHud { visible: true }, TickAction::SetHudInteractive(true)]
    );
    st = TickState { run: RunPhase::Monitoring, auto_restart_budget: 0, pending_start_at: None, ..after };
    let (spent, actions) = tick_step(st, &[fault], 2_000, true, false);
    assert_eq!(spent.pending_start_at, None);
    assert_eq!(spent.auto_restart_budget, 0);
    assert_eq!(actions[0], TickAction::ResetRuntime);
}

#[test]
fn other_faults_reset_without_restarting() {
    let st = TickState { run: RunPhase::Monitoring, monitor_since: Some(0), auto_restart_budget: 2, hud_interactive: Some(false), ..idle() };
    let (after, actions) = tick_step(st, &[TickEvent::Fault("OCR engine missing".to_string())], 1_000, false, false);
    assert_eq!(after.auto_restart_budget, 2);
    assert_eq!(after.pending_start_at, None);
    assert_eq!(
        actions,
        vec![TickAction::ResetRuntime, TickAction::RefreshHud { visible: false }, TickAction::SetHudInteractive(true)]
    );
}

#[test]
fn a_deferred_rebuild_happens_on_reaching_idle() {
    let st = TickState { run: RunPhase::Hit, pending_runtime_reset: true, hud_interactive: Some(false), ..idle() };
    let (after, actions) = tick_step(st, &[TickEvent::AlertAcknowledged], 3, true, false);
    assert!(!after.pending_runtime_reset);
    assert_eq!(after.run, RunPhase::Idle);
    assert_eq!(
        actions,
        vec![TickAction::ResetRuntime, TickAction::RefreshHud { visible: true }, TickAction::SetHudInteractive(true)]
    );
}

#[test]
fn the_alert_window_hides_the_floating_window() {
    let st = TickState { run: RunPhase::Monitoring, monitor_since: Some(0), hud_interactive: Some(false), ..idle() };
    let (after, actions) = tick_step(st, &[TickEvent::AlertPresented], 3, true, false);
    assert_eq!(after.run, RunPhase::Hit);
    assert_eq!(actions, vec![TickAction::RefreshHud { visible: false }]);
}

#[test]
fn a_quiet_tick_refreshes_only_for_its_own_redraws() {
    let (_, none) = tick_step(idle(), &[], 3, true, false);
    assert!(none.is_empty());
    let (_, some) = tick_step(idle(), &[TickEvent::Other], 3, true, false);
    assert_eq!(some, vec![TickAction::RefreshHud { visible: true }]);
    let (_, redraw) = tick_step(idle(), &[], 3, true, true);
    assert_eq!(redraw, vec![TickAction::RefreshHud { visible: true }]);
}

#[test]
fn the_clock_shows_minutes_and_seconds() {
    assert_eq!(elapsed_text(None, 5), "--:--");
    assert_eq!(elapsed_text(Some(1_000), 1_999), "00:00");
    assert_eq!(elapsed_text(Some(0), 65_000), "01:05");
    assert_eq!(elapsed_text(Some(0), 6_000_000), "100:00");
    assert_eq!(elapsed_text(Some(10), 5), "00:00");
}

#[test]
fn tree_labels_prefer_name_then_template() {
    assert_eq!(condition_tree_label("  Life ", "+# to maximum Life"), ("Life".to_string(), false));
    assert_eq!(condition_tree_label(" ", " +# to maximum Life "), ("+# to maximum Life".to_string(), false));
    assert_eq!(condition_tree_label("", "  "), ("新词缀 · 粘贴模板".to_string(), true));
    assert_eq!(condition_tree_label("Life", ""), ("Life".to_string(), true));
}
