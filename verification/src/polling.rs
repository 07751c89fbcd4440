//! The harness's polling decisions: how long to wait between copies, when a
//! changed read counts as the new roll, and when to judge it. The harness
//! makes the copies and the pauses; these functions say what follows each.
use vstd::prelude::*;

use crate::clipboard::ClipboardError;
use crate::lab::{describes_same_roll, evaluate_payload, judged, meaningful, Options, Verdict};
use crate::rules::CompiledRuleSet;
use crate::text::lines_of;

verus! {

/// Two payloads show the same item state.
pub open spec fn same_roll(a: Seq<char>, b: Seq<char>) -> bool {
    meaningful(lines_of(a)) == meaningful(lines_of(b))
}

/// A refusal that another copy may mend.
pub open spec fn transient(e: ClipboardError) -> bool {
    e is Timeout || e is Busy || e is NoText
}

/// The next pause between copies: half again as long, at least one
/// millisecond, and at most the ceiling (itself at least one).
pub open spec fn widened_gap(gap: int, ceiling: int) -> int {
    let top = if ceiling < 1 {
        1
    } else {
        ceiling
    };
    let grown = gap * 3 / 2;
    if grown < 1 {
        1
    } else if grown > top {
        top
    } else {
        grown
    }
}

/// The pause between copies grows by half each time, never falls below one
/// millisecond, never exceeds the ceiling (at least one), and a longer pause
/// never widens to a shorter one.
pub proof fn gap_widens_by_half_up_to_the_ceiling(gap: int, longer: int, ceiling: int)
    requires
        0 <= gap <= longer,
    ensures
        1 <= widened_gap(gap, ceiling),
        widened_gap(gap, ceiling) <= if ceiling < 1 { 1 } else { ceiling },
        1 <= gap * 3 / 2 <= ceiling ==> widened_gap(gap, ceiling) == gap * 3 / 2,
        ceiling >= 1 && gap * 3 / 2 >= ceiling ==> widened_gap(gap, ceiling) == ceiling,
        widened_gap(gap, ceiling) <= widened_gap(longer, ceiling),
{
    assert(gap * 3 / 2 <= longer * 3 / 2) by (nonlinear_arith)
        requires
            0 <= gap <= longer,
    ;
}

/// Widens the pause between copies after an attempt that did not decide.
pub fn widen_gap(gap: u64, ceiling: u64) -> (next: u64)
    requires
        gap * 3 <= u64::MAX,
    ensures
        next == widened_gap(gap as int, ceiling as int),
        1 <= next,
{
    let top = if ceiling < 1 {
        1
    } else {
        ceiling
    };
    let grown = gap * 3 / 2;
    if grown < 1 {
        1
    } else if grown > top {
        top
    } else {
        grown
    }
}

/// Where the polling for one click stands.
pub struct RollPoll {
    /// Copies made so far.
    pub copies: u32,
    /// The pause before the next copy, in milliseconds.
    pub gap_ms: u64,
    /// A changed read waiting for an identical one before it is judged.
    pub candidate: Option<String>,
    /// Milliseconds from the click to the first changed read.
    pub first_change_ms: Option<u64>,
    /// The last refusal that another copy could mend.
    pub last_error: Option<ClipboardError>,
}

/// What follows one read.
#[derive(Debug)]
pub enum RollStep {
    /// Copy again after this pause.
    Retry { wait_ms: u64 },
    /// The change came too soon after the click to be its craft: it is left
    /// over from the one before and becomes the new baseline. Copy again
    /// after this pause.
    Discarded { wait_ms: u64 },
    /// The round trip failed in a way another copy will not mend.
    Failed(ClipboardError),
    /// The new roll, judged.
    Decided(Verdict),
}

/// The poll after an attempt that did not decide: the pause widened, the
/// rest as given.
pub open spec fn backed_off(
    p: RollPoll,
    ceiling: u64,
    candidate: Option<String>,
    first_change_ms: Option<u64>,
    last_error: Option<ClipboardError>,
) -> RollPoll {
    RollPoll {
        copies: p.copies,
        gap_ms: widened_gap(p.gap_ms as int, ceiling as int) as u64,
        candidate,
        first_change_ms,
        last_error,
    }
}

/// The first change seen since the click: the one already recorded, or now.
pub open spec fn first_change(p: RollPoll, elapsed_ms: u64) -> Option<u64> {
    if p.first_change_ms is None {
        Some(elapsed_ms)
    } else {
        p.first_change_ms
    }
}

/// The candidate already holds exactly this text.
pub open spec fn confirms(candidate: Option<String>, text: Seq<char>) -> bool {
    candidate matches Some(c) && c@ == text
}

impl RollPoll {
    /// The state right after a click: nothing copied yet, the first pause
    /// from the options.
    pub fn new(options: &Options) -> (p: RollPoll)
        ensures
            p.copies == 0,
            p.gap_ms == options.poll_gap_ms,
            p.candidate is None,
            p.first_change_ms is None,
            p.last_error is None,
    {
        RollPoll {
            copies: 0,
            gap_ms: options.poll_gap_ms,
            candidate: None,
            first_change_ms: None,
            last_error: None,
        }
    }

    /// Before each copy: once the deadline has passed the click is given up
    /// (false, nothing counted); otherwise the copy is counted.
    pub fn begin_copy(&mut self, elapsed_ms: u64, options: &Options) -> (go: bool)
        requires
            elapsed_ms < options.deadline_ms ==> old(self).copies < u32::MAX,
        ensures
            go == (elapsed_ms < options.deadline_ms),
            final(self).copies == if go {
                old(self).copies + 1
            } else {
                old(self).copies as int
            },
            final(self).gap_ms == old(self).gap_ms,
            final(self).candidate == old(self).candidate,
            final(self).first_change_ms == old(self).first_change_ms,
            final(self).last_error == old(self).last_error,
    {
        if elapsed_ms >= options.deadline_ms {
            return false;
        }
        self.copies = self.copies + 1;
        true
    }

    /// Decides what one read means. `baseline` is the item as it stood
    /// before the click (none before the session's first read), `elapsed_ms`
    /// the time since the click.
    ///
    /// A refusal that may mend is remembered and retried after the pause; any
    /// other fails. The session's first read only sets the baseline and is
    /// followed at once by another copy. A read that shows the baseline's roll
    /// is retried after the pause. A changed read earlier than
    /// `min_craft_ms` is left over from the craft before: it becomes the
    /// baseline. With `settle`, a changed read is judged only once a second
    /// read shows exactly the same text. A judged read becomes the baseline.
    /// Every retry after the pause widens it.
    pub fn observe(
        &mut self,
        baseline: &mut Option<String>,
        read: Result<String, ClipboardError>,
        elapsed_ms: u64,
        options: &Options,
        rules: &CompiledRuleSet,
    ) -> (step: RollStep)
        requires
            old(self).gap_ms * 3 <= u64::MAX,
        ensures
            match read {
                Err(e) => if transient(e) {
                    &&& step == (RollStep::Retry { wait_ms: old(self).gap_ms })
                    &&& *final(self) == backed_off(
                        *old(self),
                        options.poll_gap_max_ms,
                        old(self).candidate,
                        old(self).first_change_ms,
                        Some(e),
                    )
                    &&& *final(baseline) == *old(baseline)
                } else {
                    &&& step == RollStep::Failed(e)
                    &&& *final(self) == *old(self)
                    &&& *final(baseline) == *old(baseline)
                },
                Ok(text) => match *old(baseline) {
                    None => {
                        &&& step == (RollStep::Retry { wait_ms: 0 })
                        &&& *final(self) == *old(self)
                        &&& *final(baseline) == Some(text)
                    },
                    Some(previous) => if same_roll(previous@, text@) {
                        &&& step == (RollStep::Retry { wait_ms: old(self).gap_ms })
                        &&& *final(self) == backed_off(
                            *old(self),
                            options.poll_gap_max_ms,
                            old(self).candidate,
                            old(self).first_change_ms,
                            old(self).last_error,
                        )
                        &&& *final(baseline) == *old(baseline)
                    } else if elapsed_ms < options.min_craft_ms {
                        &&& step == (RollStep::Discarded { wait_ms: old(self).gap_ms })
                        &&& *final(self) == backed_off(
                            *old(self),
                            options.poll_gap_max_ms,
                            None,
                            first_change(*old(self), elapsed_ms),
                            old(self).last_error,
                        )
                        &&& *final(baseline) == Some(text)
                    } else if options.settle && !confirms(old(self).candidate, text@) {
                        &&& step == (RollStep::Retry { wait_ms: old(self).gap_ms })
                        &&& *final(self) == backed_off(
                            *old(self),
                            options.poll_gap_max_ms,
                            Some(text),
                            first_change(*old(self), elapsed_ms),
                            old(self).last_error,
                        )
                        &&& *final(baseline) == *old(baseline)
                    } else {
                        &&& step matches RollStep::Decided(v) && judged(
                            rules.source(),
                            rules.line_span(),
                            text@,
                            v,
                        )
                        &&& *final(self) == (RollPoll {
                            first_change_ms: first_change(*old(self), elapsed_ms),
                            ..*old(self)
                        })
                        &&& *final(baseline) == Some(text)
                    },
                },
            },
    {
        let text = match read {
            Err(error) => {
                if error.is_transient() {
                    let wait_ms = self.gap_ms;
                    self.gap_ms = widen_gap(self.gap_ms, options.poll_gap_max_ms);
                    self.last_error = Some(error);
                    return RollStep::Retry { wait_ms };
                } else {
                    return RollStep::Failed(error);
                }
            },
            Ok(text) => text,
        };
        let unchanged: Option<bool> = match baseline {
            Some(previous) => Some(describes_same_roll(previous.as_str(), text.as_str())),
            None => None,
        };
        match unchanged {
            None => {
                *baseline = Some(text);
                RollStep::Retry { wait_ms: 0 }
            },
            Some(true) => {
                let wait_ms = self.gap_ms;
                self.gap_ms = widen_gap(self.gap_ms, options.poll_gap_max_ms);
                RollStep::Retry { wait_ms }
            },
            Some(false) => {
                if self.first_change_ms.is_none() {
                    self.first_change_ms = Some(elapsed_ms);
                }
                if elapsed_ms < options.min_craft_ms {
                    let wait_ms = self.gap_ms;
                    self.gap_ms = widen_gap(self.gap_ms, options.poll_gap_max_ms);
                    self.candidate = None;
                    *baseline = Some(text);
                    return RollStep::Discarded { wait_ms };
                }
                let confirmed = match &self.candidate {
                    Some(c) => *c == text,
                    None => false,
                };
                if options.settle && !confirmed {
                    let wait_ms = self.gap_ms;
                    self.gap_ms = widen_gap(self.gap_ms, options.poll_gap_max_ms);
                    self.candidate = Some(text);
                    return RollStep::Retry { wait_ms };
                }
                let verdict = evaluate_payload(rules, text.as_str());
                *baseline = Some(text);
                RollStep::Decided(verdict)
            },
        }
    }
}

/// Whether the continuous watcher should poll now: the game is focused,
/// nothing is locked, and the last click came within the active window.
pub fn should_poll(armed: bool, locked: bool, since_click_ms: Option<u64>, options: &Options) -> (b: bool)
    ensures
        b == (armed && !locked && (since_click_ms matches Some(t) && t < options.active_window_ms)),
{
    armed && !locked && match since_click_ms {
        Some(t) => t < options.active_window_ms,
        None => false,
    }
}

/// What the continuous watcher makes of one read.
#[derive(Debug)]
pub enum WatchStep {
    /// The same roll as the last read.
    Unchanged,
    /// The first read since arming: it only sets the state.
    Baseline,
    /// A new roll, judged.
    NewRoll(Verdict),
}

/// One read of the continuous watcher. An unchanged read leaves the last
/// text as it was; any other becomes the last text, and a change from an
/// earlier read is judged.
pub fn watch_read(last_text: &mut Option<String>, text: String, rules: &CompiledRuleSet) -> (step: WatchStep)
    ensures
        match *old(last_text) {
            None => step is Baseline && *final(last_text) == Some(text),
            Some(previous) => if same_roll(previous@, text@) {
                step is Unchanged && *final(last_text) == *old(last_text)
            } else {
                &&& step matches WatchStep::NewRoll(v) && judged(
                    rules.source(),
                    rules.line_span(),
                    text@,
                    v,
                )
                &&& *final(last_text) == Some(text)
            },
        },
{
    let unchanged: Option<bool> = match last_text {
        Some(previous) => Some(describes_same_roll(previous.as_str(), text.as_str())),
        None => None,
    };
    match unchanged {
        None => {
            *last_text = Some(text);
            WatchStep::Baseline
        },
        Some(true) => WatchStep::Unchanged,
        Some(false) => {
            let verdict = evaluate_payload(rules, text.as_str());
            *last_text = Some(text);
            WatchStep::NewRoll(verdict)
        },
    }
}

} // verus!
