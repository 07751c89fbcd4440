//! The run states the workbench shows, and the words it shows for them.
use vstd::prelude::*;

verus! {

/// How a status badge is drawn.
#[derive(Clone, Copy, Debug, PartialEq, Eq, Structural)]
pub enum StatusKind {
    Idle,
    Monitoring,
    Hit,
}

/// The program's run phases: quiet, monitoring, or stopped on a hit.
#[derive(Clone, Copy, Debug, PartialEq, Eq, Structural)]
pub enum RunPhase {
    Idle,
    Monitoring,
    Hit,
}

impl RunPhase {
    /// The badge for this phase.
    pub fn status_kind(self) -> (k: StatusKind)
        ensures
            k == (match self {
                RunPhase::Idle => StatusKind::Idle,
                RunPhase::Monitoring => StatusKind::Monitoring,
                RunPhase::Hit => StatusKind::Hit,
            }),
    {
        match self {
            RunPhase::Idle => StatusKind::Idle,
            RunPhase::Monitoring => StatusKind::Monitoring,
            RunPhase::Hit => StatusKind::Hit,
        }
    }

    /// The status line for this phase.
    pub fn status_text(self) -> (s: &'static str)
        ensures
            s@ == (match self {
                RunPhase::Idle => "可以开始"@,
                RunPhase::Monitoring => "正在监控词缀"@,
                RunPhase::Hit => "已命中,请确认"@,
            }),
    {
        match self {
            RunPhase::Idle => "可以开始",
            RunPhase::Monitoring => "正在监控词缀",
            RunPhase::Hit => "已命中,请确认",
        }
    }

    /// The label of the primary button in this phase.
    pub fn primary_label(self) -> (s: &'static str)
        ensures
            s@ == (match self {
                RunPhase::Idle => "开始监控"@,
                RunPhase::Monitoring => "停止监控"@,
                RunPhase::Hit => "解除鼠标锁定"@,
            }),
    {
        match self {
            RunPhase::Idle => "开始监控",
            RunPhase::Monitoring => "停止监控",
            RunPhase::Hit => "解除鼠标锁定",
        }
    }
}

/// The tabs of the central editor: conditions, capture region, alerts.
#[derive(Clone, Copy, Debug, PartialEq, Eq, Structural)]
pub enum EditorTab {
    Conditions,
    Region,
    Alerts,
}

/// What a rule-tree node points at.
#[derive(Clone, Copy, Debug, PartialEq, Eq, Structural)]
pub enum NodeRef {
    Game,
    Group(usize),
    Condition(usize, usize),
}

/// The runtime's states as the user interface sees them.
#[derive(Clone, Copy, Debug, PartialEq, Eq, Structural)]
pub enum BridgeState {
    Idle,
    Starting,
    Monitoring,
    CheckingItem,
    MatchFound,
    Faulted,
    ShuttingDown,
    Stopped,
}

} // verus!
