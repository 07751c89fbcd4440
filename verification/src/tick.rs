//! The workbench's periodic tick: what the hotkeys, the runtime's reports
//! and the clock decide between two frames. The shell gathers the events,
//! hands them here with the time, and performs the actions that come back.
use vstd::prelude::*;

use crate::text::{chars_of, contains, decimal, has_infix, push_decimal, string_of, trim, trim_chars};
use crate::view_state::{BridgeState, RunPhase};

verus! {

/// How long a start hotkey waits before monitoring starts, so the key is up
/// and any input-method popup has closed before the first capture.
pub const START_DEBOUNCE_MS: u64 = 350;

/// How long a restart after a one-off screen-capture fault waits, so the
/// rebuilt alert service has released its single-instance lock.
pub const FAULT_RESTART_DELAY_MS: u64 = 700;

/// Restarts granted after one-off screen-capture faults, per monitoring run.
pub const AUTO_RESTART_BUDGET: u32 = 2;

/// What the tick remembers between frames.
#[derive(Clone, Copy, Debug, PartialEq, Eq, Structural)]
pub struct TickState {
    pub run: RunPhase,
    /// When a scheduled start is due, in milliseconds of the shell's clock.
    pub pending_start_at: Option<u64>,
    pub auto_restart_budget: u32,
    /// When the current monitoring run began.
    pub monitor_since: Option<u64>,
    /// A runtime rebuild deferred until monitoring stops.
    pub pending_runtime_reset: bool,
    /// Whether the floating window was last told to accept input.
    pub hud_interactive: Option<bool>,
}

/// What happened since the last tick, in the order it was seen.
#[derive(Clone, Debug, PartialEq, Eq)]
pub enum TickEvent {
    /// The start hotkey.
    StartHotkey,
    /// The stop hotkey; it only stops monitoring, a hit is released elsewhere.
    StopHotkey,
    /// The runtime reports a new state.
    RuntimeState(BridgeState),
    /// The red alert window took over input.
    AlertPresented,
    /// The alert was acknowledged.
    AlertAcknowledged,
    /// The runtime failed, with its description.
    Fault(String),
    /// Anything the tick only shows: region changes, readings, matches.
    Other,
}

/// What the shell does for a tick, in order.
#[derive(Clone, Copy, Debug, PartialEq, Eq, Structural)]
pub enum TickAction {
    /// The primary action: start when idle, stop when monitoring.
    ToggleRun,
    /// Rebuild the runtime.
    ResetRuntime,
    /// Redraw the floating window and show or hide it.
    RefreshHud { visible: bool },
    /// Let the floating window take input, or make it click-through.
    SetHudInteractive(bool),
}

/// The phase the workbench shows for a runtime state.
pub open spec fn phase_of(s: BridgeState) -> RunPhase {
    match s {
        BridgeState::Starting | BridgeState::Monitoring | BridgeState::CheckingItem => RunPhase::Monitoring,
        BridgeState::MatchFound => RunPhase::Hit,
        BridgeState::Idle | BridgeState::Faulted | BridgeState::ShuttingDown | BridgeState::Stopped => RunPhase::Idle,
    }
}

/// Entering phase `next`: a fresh monitoring run starts its clock and its
/// restart budget; leaving monitoring stops the clock; reaching idle carries
/// out a deferred runtime rebuild.
pub open spec fn enter_phase(st: TickState, next: RunPhase, now: u64) -> (TickState, Seq<TickAction>) {
    if next == RunPhase::Monitoring {
        if st.monitor_since is None {
            (TickState { run: next, monitor_since: Some(now), auto_restart_budget: AUTO_RESTART_BUDGET, ..st }, seq![])
        } else {
            (TickState { run: next, ..st }, seq![])
        }
    } else if next == RunPhase::Idle && st.pending_runtime_reset {
        (TickState { run: next, monitor_since: None, pending_runtime_reset: false, ..st }, seq![TickAction::ResetRuntime])
    } else {
        (TickState { run: next, monitor_since: None, ..st }, seq![])
    }
}

/// Whether a fault came from screen capture, which is retried.
pub open spec fn capture_fault(detail: Seq<char>) -> bool {
    contains(detail, "BitBlt"@)
}

/// One event: the state after it, whether it asks for a runtime rebuild and
/// for a delayed restart, and the actions it takes at once.
pub open spec fn on_event(st: TickState, e: TickEvent, now: u64) -> (TickState, bool, bool, Seq<TickAction>) {
    match e {
        TickEvent::StartHotkey => if st.run == RunPhase::Idle && st.pending_start_at is None {
            (TickState { pending_start_at: Some((now + START_DEBOUNCE_MS) as u64), ..st }, false, false, seq![])
        } else {
            (st, false, false, seq![])
        },
        TickEvent::StopHotkey => if st.run == RunPhase::Monitoring {
            (st, false, false, seq![TickAction::ToggleRun])
        } else {
            (st, false, false, seq![])
        },
        TickEvent::RuntimeState(s) => {
            let (n, a) = enter_phase(st, phase_of(s), now);
            (n, false, false, a)
        },
        TickEvent::AlertPresented => (TickState { run: RunPhase::Hit, ..st }, false, false, seq![]),
        TickEvent::AlertAcknowledged => {
            let (n, a) = enter_phase(st, RunPhase::Idle, now);
            (n, false, false, a)
        },
        TickEvent::Fault(d) => {
            let (n, a) = enter_phase(st, RunPhase::Idle, now);
            if capture_fault(d@) && n.auto_restart_budget > 0 {
                (TickState { auto_restart_budget: (n.auto_restart_budget - 1) as u32, ..n }, true, true, a)
            } else {
                (n, true, false, a)
            }
        },
        TickEvent::Other => (st, false, false, seq![]),
    }
}

/// The events in order: the state, whether any asked for a rebuild or a
/// restart, and the actions they took.
pub open spec fn after_events(st: TickState, events: Seq<TickEvent>, now: u64) -> (TickState, bool, bool, Seq<TickAction>)
    decreases events.len(),
{
    if events.len() == 0 {
        (st, false, false, seq![])
    } else {
        let (s0, reset0, restart0, a0) = after_events(st, events.drop_last(), now);
        let (s1, reset1, restart1, a1) = on_event(s0, events.last(), now);
        (s1, reset0 || reset1, restart0 || restart1, a0 + a1)
    }
}

/// The whole tick. After the events: a rebuild if a fault asked for one, a
/// restart scheduled after a capture fault, a due start carried out (it
/// starts only when idle), and, when anything changed, the floating window
/// redrawn, shown while "keep visible" is on and no hit is showing, and
/// taking input only when idle.
pub open spec fn tick_spec(
    st: TickState,
    events: Seq<TickEvent>,
    now: u64,
    keep_hud_visible: bool,
    display_changed: bool,
) -> (TickState, Seq<TickAction>) {
    let (s0, reset, restart, a0) = after_events(st, events, now);
    let a1 = if reset { a0.push(TickAction::ResetRuntime) } else { a0 };
    let s1 = if restart { TickState { pending_start_at: Some((now + FAULT_RESTART_DELAY_MS) as u64), ..s0 } } else { s0 };
    let due = s1.pending_start_at matches Some(at) && now >= at;
    let s2 = if due { TickState { pending_start_at: None, ..s1 } } else { s1 };
    let a2 = if due && s2.run == RunPhase::Idle { a1.push(TickAction::ToggleRun) } else { a1 };
    let changed = events.len() > 0 || due || display_changed;
    let interactive = s2.run == RunPhase::Idle;
    if !changed {
        (s2, a2)
    } else {
        let a3 = a2.push(TickAction::RefreshHud { visible: keep_hud_visible && s2.run != RunPhase::Hit });
        if s2.hud_interactive == Some(interactive) {
            (s2, a3)
        } else {
            (TickState { hud_interactive: Some(interactive), ..s2 }, a3.push(TickAction::SetHudInteractive(interactive)))
        }
    }
}

/// After a tick in which anything changed, the floating window takes input
/// exactly when the workbench is idle, and it is hidden while a hit shows.
pub proof fn hud_follows_the_phase(
    st: TickState,
    events: Seq<TickEvent>,
    now: u64,
    keep_hud_visible: bool,
    display_changed: bool,
)
    requires
        events.len() > 0 || display_changed,
    ensures
        ({
            let (s, a) = tick_spec(st, events, now, keep_hud_visible, display_changed);
            &&& s.hud_interactive == Some(s.run == RunPhase::Idle)
            &&& a.contains(TickAction::RefreshHud { visible: keep_hud_visible && s.run != RunPhase::Hit })
        }),
{
    let (s, a) = tick_spec(st, events, now, keep_hud_visible, display_changed);
    let (s0, reset, restart, a0) = after_events(st, events, now);
    let a1 = if reset { a0.push(TickAction::ResetRuntime) } else { a0 };
    let s1 = if restart { TickState { pending_start_at: Some((now + FAULT_RESTART_DELAY_MS) as u64), ..s0 } } else { s0 };
    let due = s1.pending_start_at matches Some(at) && now >= at;
    let s2 = if due { TickState { pending_start_at: None, ..s1 } } else { s1 };
    let a2 = if due && s2.run == RunPhase::Idle { a1.push(TickAction::ToggleRun) } else { a1 };
    let a3 = a2.push(TickAction::RefreshHud { visible: keep_hud_visible && s2.run != RunPhase::Hit });
    assert(a3[a3.len() - 1] == TickAction::RefreshHud { visible: keep_hud_visible && s2.run != RunPhase::Hit });
    if s2.hud_interactive != Some(s2.run == RunPhase::Idle) {
        let a4 = a3.push(TickAction::SetHudInteractive(s2.run == RunPhase::Idle));
        assert(a4[a3.len() - 1] == a3[a3.len() - 1]);
    }
}

fn enter(st: TickState, next: RunPhase, now: u64, actions: &mut Vec<TickAction>) -> (r: TickState)
    ensures
        r == enter_phase(st, next, now).0,
        final(actions)@ == old(actions)@ + enter_phase(st, next, now).1,
{
    if next == RunPhase::Monitoring {
        if st.monitor_since.is_none() {
            TickState { run: next, monitor_since: Some(now), auto_restart_budget: AUTO_RESTART_BUDGET, ..st }
        } else {
            TickState { run: next, ..st }
        }
    } else if next == RunPhase::Idle && st.pending_runtime_reset {
        actions.push(TickAction::ResetRuntime);
        TickState { run: next, monitor_since: None, pending_runtime_reset: false, ..st }
    } else {
        TickState { run: next, monitor_since: None, ..st }
    }
}

fn runtime_phase(s: BridgeState) -> (p: RunPhase)
    ensures
        p == phase_of(s),
{
    match s {
        BridgeState::Starting | BridgeState::Monitoring | BridgeState::CheckingItem => RunPhase::Monitoring,
        BridgeState::MatchFound => RunPhase::Hit,
        BridgeState::Idle | BridgeState::Faulted | BridgeState::ShuttingDown | BridgeState::Stopped => RunPhase::Idle,
    }
}

fn handle_event(st: TickState, e: &TickEvent, now: u64, actions: &mut Vec<TickAction>) -> (r: (TickState, bool, bool))
    requires
        now <= u64::MAX - FAULT_RESTART_DELAY_MS,
    ensures
        r.0 == on_event(st, *e, now).0,
        r.1 == on_event(st, *e, now).1,
        r.2 == on_event(st, *e, now).2,
        final(actions)@ == old(actions)@ + on_event(st, *e, now).3,
{
    match e {
        TickEvent::StartHotkey => {
            if st.run == RunPhase::Idle && st.pending_start_at.is_none() {
                (TickState { pending_start_at: Some(now + START_DEBOUNCE_MS), ..st }, false, false)
            } else {
                (st, false, false)
            }
        },
        TickEvent::StopHotkey => {
            if st.run == RunPhase::Monitoring {
                actions.push(TickAction::ToggleRun);
            }
            (st, false, false)
        },
        TickEvent::RuntimeState(s) => (enter(st, runtime_phase(*s), now, actions), false, false),
        TickEvent::AlertPresented => (TickState { run: RunPhase::Hit, ..st }, false, false),
        TickEvent::AlertAcknowledged => (enter(st, RunPhase::Idle, now, actions), false, false),
        TickEvent::Fault(d) => {
            let n = enter(st, RunPhase::Idle, now, actions);
            let detail = chars_of(d.as_str());
            let marker = chars_of("BitBlt");
            if has_infix(detail.as_slice(), marker.as_slice()) && n.auto_restart_budget > 0 {
                (TickState { auto_restart_budget: n.auto_restart_budget - 1, ..n }, true, true)
            } else {
                (n, true, false)
            }
        },
        TickEvent::Other => (st, false, false),
    }
}

/// One tick of the workbench: the state after `events`, seen at `now_ms`,
/// and the actions to perform, in order. `keep_hud_visible` is the user's
/// setting; `display_changed` says whether the shell redrew something of its
/// own this tick (a tree label, the elapsed time).
pub fn tick_step(
    state: TickState,
    events: &[TickEvent],
    now_ms: u64,
    keep_hud_visible: bool,
    display_changed: bool,
) -> (r: (TickState, Vec<TickAction>))
    requires
        now_ms <= u64::MAX - FAULT_RESTART_DELAY_MS,
    ensures
        r.0 == tick_spec(state, events@, now_ms, keep_hud_visible, display_changed).0,
        r.1@ == tick_spec(state, events@, now_ms, keep_hud_visible, display_changed).1,
{
    let mut actions: Vec<TickAction> = Vec::new();
    let mut st = state;
    let mut reset = false;
    let mut restart = false;
    let mut i: usize = 0;
    while i < events.len()
        invariant
            i <= events@.len(),
            now_ms <= u64::MAX - FAULT_RESTART_DELAY_MS,
            (st, reset, restart, actions@) == after_events(state, events@.take(i as int), now_ms),
        decreases events@.len() - i,
    {
        let ghost before = actions@;
        let r = handle_event(st, &events[i], now_ms, &mut actions);
        proof {
            assert(events@.take(i + 1).drop_last() =~= events@.take(i as int));
            assert(events@.take(i + 1).last() == events@[i as int]);
        }
        st = r.0;
        reset = reset || r.1;
        restart = restart || r.2;
        i = i + 1;
    }
    assert(events@.take(events@.len() as int) =~= events@);
    if reset {
        actions.push(TickAction::ResetRuntime);
    }
    if restart {
        st = TickState { pending_start_at: Some(now_ms + FAULT_RESTART_DELAY_MS), ..st };
    }
    let due = match st.pending_start_at {
        Some(at) => now_ms >= at,
        None => false,
    };
    if due {
        st = TickState { pending_start_at: None, ..st };
        if st.run == RunPhase::Idle {
            actions.push(TickAction::ToggleRun);
        }
    }
    let changed = events.len() > 0 || due || display_changed;
    if changed {
        actions.push(TickAction::RefreshHud { visible: keep_hud_visible && st.run != RunPhase::Hit });
        let interactive = st.run == RunPhase::Idle;
        let same = match st.hud_interactive {
            Some(b) => b == interactive,
            None => false,
        };
        if !same {
            st = TickState { hud_interactive: Some(interactive), ..st };
            actions.push(TickAction::SetHudInteractive(interactive));
        }
    }
    (st, actions)
}

/// Two-digit rendering of `n`, as `format!("{:02}")` writes it.
pub open spec fn two_digits(n: nat) -> Seq<char> {
    if n < 10 {
        seq!['0'] + decimal(n)
    } else {
        decimal(n)
    }
}

/// The monitoring clock: minutes and seconds since the run began, each at
/// least two digits, or `--:--` when no run is going.
pub open spec fn elapsed_spec(since: Option<u64>, now: u64) -> Seq<char> {
    match since {
        Some(s) => {
            let total: nat = if now >= s { ((now - s) / 1000) as nat } else { 0 };
            two_digits(total / 60) + seq![':'] + two_digits(total % 60)
        },
        None => "--:--"@,
    }
}

fn push_two_digits(out: &mut Vec<char>, n: u64)
    ensures
        final(out)@ == old(out)@ + two_digits(n as nat),
{
    if n < 10 {
        out.push('0');
    }
    push_decimal(out, n);
}

/// The text of the monitoring clock.
pub fn elapsed_text(since_ms: Option<u64>, now_ms: u64) -> (s: String)
    ensures
        s@ == elapsed_spec(since_ms, now_ms),
{
    match since_ms {
        Some(since) => {
            let total: u64 = if now_ms >= since { (now_ms - since) / 1000 } else { 0 };
            let mut out: Vec<char> = Vec::new();
            push_two_digits(&mut out, total / 60);
            out.push(':');
            push_two_digits(&mut out, total % 60);
            string_of(out.as_slice())
        },
        None => {
            let out = chars_of("--:--");
            string_of(out.as_slice())
        },
    }
}

/// The label a condition shows in the rule tree while it is edited: the
/// trimmed name, else a prompt when the template is blank, else the trimmed
/// template.
pub open spec fn tree_label_spec(name: Seq<char>, template: Seq<char>) -> Seq<char> {
    if trim(name).len() > 0 {
        trim(name)
    } else if trim(template).len() == 0 {
        "新词缀 · 粘贴模板"@
    } else {
        trim(template)
    }
}

/// The tree label of an edited condition, and whether its template is still
/// missing.
pub fn condition_tree_label(name: &str, template: &str) -> (r: (String, bool))
    ensures
        r.0@ == tree_label_spec(name@, template@),
        r.1 == (trim(template@).len() == 0),
{
    let n = chars_of(name);
    let t = chars_of(template);
    let trimmed_name = trim_chars(n.as_slice());
    let trimmed_template = trim_chars(t.as_slice());
    let missing = trimmed_template.len() == 0;
    let label = if trimmed_name.len() > 0 {
        string_of(trimmed_name.as_slice())
    } else if missing {
        let prompt = chars_of("新词缀 · 粘贴模板");
        string_of(prompt.as_slice())
    } else {
        string_of(trimmed_template.as_slice())
    };
    (label, missing)
}

} // verus!
