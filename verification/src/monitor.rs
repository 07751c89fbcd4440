//! The monitoring state machine: what one reading of the item decides, and
//! the session lifecycle that keeps a late reading from claiming a match.
//!
//! The worker thread, the clock and the cancellation signal live outside the
//! library; they ask this module what to do with each reading and each
//! lifecycle request. Times are carried in nanoseconds.
use vstd::prelude::*;

use crate::matching::{
    display, lex, plain_joined, span_before, span_fits, span_source, token_views,
    FullLineAffixMatcher, LogicalAffixMatch,
};
use crate::rules::{
    evaluation_ok, evaluation_optimal, identity_respected, AssistedModifierObservation, CompiledRuleSet, ConditionEvaluation,
    PhysicalLineIdentity, RuleEvaluationResult,
};
use crate::text::{push_str_chars, same_chars, string_of, string_views};

verus! {

/// Delay after a changed reading completed without cached evidence, in milliseconds.
pub const UNCACHED_SCAN_DELAY: u64 = 4;

/// Delay after an unchanged reading, in milliseconds.
pub const CACHED_SCAN_DELAY: u64 = 8;

/// The pacing chosen after one decision.
#[derive(Clone, Copy, Debug, PartialEq, Eq, Structural)]
pub enum ScanPace {
    /// Evidence is incomplete: yield and read again at once.
    ProgressiveYield,
    /// A changed reading completed without cached evidence.
    UncachedDelay,
    /// An unchanged reading, or one completed from cached evidence.
    CachedDelay,
}

impl ScanPace {
    /// How long to wait before the next reading, in milliseconds; a
    /// progressive yield never waits.
    pub fn delay(self) -> (d: Option<u64>)
        ensures
            d == (match self {
                ScanPace::ProgressiveYield => None,
                ScanPace::UncachedDelay => Some(UNCACHED_SCAN_DELAY),
                ScanPace::CachedDelay => Some(CACHED_SCAN_DELAY),
            }),
    {
        match self {
            ScanPace::ProgressiveYield => None,
            ScanPace::UncachedDelay => Some(UNCACHED_SCAN_DELAY),
            ScanPace::CachedDelay => Some(CACHED_SCAN_DELAY),
        }
    }
}

#[derive(Clone, Copy, Debug, PartialEq, Eq, Structural)]
pub enum MonitorState {
    Idle,
    Running,
    MatchFound,
    Faulted,
}

impl Default for MonitorState {
    fn default() -> (s: MonitorState)
        ensures
            s == MonitorState::Idle,
    {
        MonitorState::Idle
    }
}

/// Identifies one monitoring session.
#[derive(Clone, Copy, Debug, PartialEq, Eq, Structural, PartialOrd, Ord, Hash)]
pub struct SessionId(pub u64);

/// What is being watched for: one template, or a whole rule set.
#[derive(Debug)]
pub enum MonitorPlan {
    Quick(FullLineAffixMatcher),
    Structured(CompiledRuleSet),
}

/// Whether a source can judge a whole rule set from one reading.
#[derive(Clone, Copy, Debug, PartialEq, Eq, Structural)]
pub enum StructuredOcrSupport {
    Unsupported,
    StrictBatch,
    ConfirmedStrictBatch,
}

impl Default for StructuredOcrSupport {
    fn default() -> (s: StructuredOcrSupport)
        ensures
            s == StructuredOcrSupport::Unsupported,
    {
        StructuredOcrSupport::Unsupported
    }
}

/// Evidence from one reading of the item under the cursor.
#[derive(Clone, Debug, PartialEq, Eq)]
pub struct RecognitionResult {
    pub lines: Vec<String>,
    pub preprocessing_elapsed_nanos: u64,
    pub recognition_elapsed_nanos: u64,
    pub was_cached: bool,
    pub requires_rescan: bool,
    /// A match a target-aware reader found for a quick plan.
    pub target_assisted_match: Option<LogicalAffixMatch>,
    /// Readings a recognizer tied to templates, for a structured plan.
    pub assisted_observations: Vec<AssistedModifierObservation>,
    pub physical_line_identities: Vec<PhysicalLineIdentity>,
}

pub open spec fn saturating(total: int) -> u64 {
    if total > u64::MAX {
        u64::MAX
    } else {
        total as u64
    }
}

impl RecognitionResult {
    /// Preprocessing and recognition time together, saturating.
    pub fn total_elapsed(&self) -> (t: u64)
        ensures
            t == saturating(self.preprocessing_elapsed_nanos + self.recognition_elapsed_nanos),
    {
        self.preprocessing_elapsed_nanos.saturating_add(self.recognition_elapsed_nanos)
    }
}

/// What the monitor reports after a reading.
#[derive(Clone, Debug, PartialEq, Eq)]
pub struct MonitorSnapshot {
    pub session_id: SessionId,
    pub state: MonitorState,
    pub scan_count: u64,
    pub capture_elapsed_nanos: u64,
    pub ocr_elapsed_nanos: u64,
    pub last_lines: Vec<String>,
    pub detail: Option<String>,
    pub ocr_was_cached: bool,
}

impl MonitorSnapshot {
    /// The snapshot of a session that has stopped.
    pub fn idle(session_id: SessionId) -> (s: MonitorSnapshot)
        ensures
            s.session_id == session_id,
            s.state == MonitorState::Idle,
            s.scan_count == 0,
            s.capture_elapsed_nanos == 0,
            s.ocr_elapsed_nanos == 0,
            s.last_lines@.len() == 0,
            s.detail is None,
            !s.ocr_was_cached,
    {
        MonitorSnapshot {
            session_id,
            state: MonitorState::Idle,
            scan_count: 0,
            capture_elapsed_nanos: 0,
            ocr_elapsed_nanos: 0,
            last_lines: Vec::new(),
            detail: None,
            ocr_was_cached: false,
        }
    }
}

/// A match, with the snapshot that reports it.
#[derive(Clone, Debug, PartialEq, Eq)]
pub enum MonitorDetection {
    Quick { matched: LogicalAffixMatch, snapshot: MonitorSnapshot },
    Structured { evaluation: RuleEvaluationResult, detected_text: String, snapshot: MonitorSnapshot },
}

impl MonitorDetection {
    /// The snapshot reporting this match.
    pub fn snapshot(&self) -> (s: &MonitorSnapshot)
        ensures
            *s == (match *self {
                MonitorDetection::Quick { snapshot, .. } => snapshot,
                MonitorDetection::Structured { snapshot, .. } => snapshot,
            }),
    {
        match self {
            MonitorDetection::Quick { snapshot, .. } => snapshot,
            MonitorDetection::Structured { snapshot, .. } => snapshot,
        }
    }
}

/// Output the monitor delivers to its consumer.
#[derive(Clone, Debug, PartialEq, Eq)]
pub enum MonitorEvent {
    Snapshot(MonitorSnapshot),
    Detection(MonitorDetection),
    InputGuardRequested { session_id: SessionId },
    InputGuardReleased { session_id: SessionId },
}

/// Why monitoring could not start.
#[derive(Clone, Copy, Debug, PartialEq, Eq, Structural)]
pub enum StartError {
    AlreadyRunning,
    StopInProgress,
    StructuredOcrUnsupported,
    WorkerPanicked,
}

impl StartError {
    pub open spec fn message_spec(self) -> Seq<char> {
        match self {
            StartError::AlreadyRunning => "monitoring is already running"@,
            StartError::StopInProgress => "monitoring is still stopping"@,
            StartError::StructuredOcrUnsupported => "the OCR adapter does not support strict Structured batches"@,
            StartError::WorkerPanicked => "the previous monitoring worker panicked"@,
        }
    }

    /// What went wrong, in words.
    pub fn message(&self) -> (s: &'static str)
        ensures
            s@ == self.message_spec(),
    {
        match self {
            StartError::AlreadyRunning => "monitoring is already running",
            StartError::StopInProgress => "monitoring is still stopping",
            StartError::StructuredOcrUnsupported => "the OCR adapter does not support strict Structured batches",
            StartError::WorkerPanicked => "the previous monitoring worker panicked",
        }
    }
}

/// The worker panicked while stopping.
#[derive(Clone, Copy, Debug, PartialEq, Eq, Structural)]
pub struct StopError;

impl StopError {
    /// What went wrong, in words.
    pub fn message(&self) -> (s: &'static str)
        ensures
            s@ == "the monitoring worker panicked while stopping"@,
    {
        "the monitoring worker panicked while stopping"
    }
}

// ---------------------------------------------------------------------------
// Session lifecycle
// ---------------------------------------------------------------------------

/// Which session runs, whether a stop is under way, and what the monitor is
/// doing. One of these is shared between the controller and its worker.
#[derive(Clone, Copy, Debug, PartialEq, Eq, Structural)]
pub struct Lifecycle {
    pub state: MonitorState,
    pub current: Option<SessionId>,
    pub stop_in_progress: bool,
    pub next_session: u64,
}

impl Default for Lifecycle {
    fn default() -> (l: Lifecycle)
        ensures
            l == (Lifecycle { state: MonitorState::Idle, current: None, stop_in_progress: false, next_session: 1 }),
    {
        Lifecycle { state: MonitorState::Idle, current: None, stop_in_progress: false, next_session: 1 }
    }
}

/// `session` is the live session: not cancelled, no stop under way, running,
/// and current.
pub open spec fn live(l: Lifecycle, session: SessionId, cancelled: bool) -> bool {
    !cancelled && !l.stop_in_progress && l.state == MonitorState::Running && l.current == Some(session)
}

/// What a start request answers.
pub open spec fn start_outcome(l: Lifecycle, worker_alive: bool, structured: bool, support: StructuredOcrSupport) -> Result<SessionId, StartError> {
    if l.stop_in_progress {
        Err(StartError::StopInProgress)
    } else if worker_alive || l.state == MonitorState::Running {
        Err(StartError::AlreadyRunning)
    } else if structured && support == StructuredOcrSupport::Unsupported {
        Err(StartError::StructuredOcrUnsupported)
    } else {
        Ok(SessionId(l.next_session))
    }
}

/// The lifecycle after a start request.
pub open spec fn after_start(l: Lifecycle, worker_alive: bool, structured: bool, support: StructuredOcrSupport) -> Lifecycle {
    match start_outcome(l, worker_alive, structured, support) {
        Ok(id) => Lifecycle {
            state: MonitorState::Running,
            current: Some(id),
            stop_in_progress: false,
            next_session: saturating(l.next_session + 1),
        },
        Err(_) => l,
    }
}

/// The lifecycle after the live session claims `state` (a match or a fault);
/// any other session claims nothing.
pub open spec fn after_claim(l: Lifecycle, session: SessionId, cancelled: bool, state: MonitorState) -> Lifecycle {
    if live(l, session, cancelled) {
        Lifecycle { state, ..l }
    } else {
        l
    }
}

/// The lifecycle once a stop begins: the session is withdrawn first.
pub open spec fn after_stop_begins(l: Lifecycle) -> Lifecycle {
    Lifecycle { current: None, stop_in_progress: true, ..l }
}

/// The lifecycle once the worker is gone.
pub open spec fn after_stop_ends(l: Lifecycle) -> Lifecycle {
    Lifecycle { state: MonitorState::Idle, current: None, stop_in_progress: false, ..l }
}

impl Lifecycle {
    /// Is `session` the live session?
    pub fn is_running(&self, session: SessionId, cancelled: bool) -> (b: bool)
        ensures
            b == live(*self, session, cancelled),
    {
        !cancelled && !self.stop_in_progress && self.state == MonitorState::Running
            && self.current == Some(session)
    }

    /// Starts a session, unless a stop is under way, a worker is still alive
    /// or running, or a structured plan meets a source that cannot judge one.
    pub fn start(&mut self, worker_alive: bool, structured: bool, support: StructuredOcrSupport) -> (r: Result<SessionId, StartError>)
        ensures
            r == start_outcome(*old(self), worker_alive, structured, support),
            *final(self) == after_start(*old(self), worker_alive, structured, support),
    {
        if self.stop_in_progress {
            return Err(StartError::StopInProgress);
        }
        if worker_alive || self.state == MonitorState::Running {
            return Err(StartError::AlreadyRunning);
        }
        if structured && support == StructuredOcrSupport::Unsupported {
            return Err(StartError::StructuredOcrUnsupported);
        }
        let id = SessionId(self.next_session);
        self.next_session = self.next_session.saturating_add(1);
        self.current = Some(id);
        self.state = MonitorState::Running;
        self.stop_in_progress = false;
        Ok(id)
    }

    /// The live session claims a match; a stale or cancelled one cannot.
    pub fn claim_match(&mut self, session: SessionId, cancelled: bool) -> (claimed: bool)
        ensures
            claimed == live(*old(self), session, cancelled),
            *final(self) == after_claim(*old(self), session, cancelled, MonitorState::MatchFound),
    {
        if self.is_running(session, cancelled) {
            self.state = MonitorState::MatchFound;
            true
        } else {
            false
        }
    }

    /// The live session reports a fault; a stale or cancelled one cannot.
    pub fn claim_fault(&mut self, session: SessionId, cancelled: bool) -> (claimed: bool)
        ensures
            claimed == live(*old(self), session, cancelled),
            *final(self) == after_claim(*old(self), session, cancelled, MonitorState::Faulted),
    {
        if self.is_running(session, cancelled) {
            self.state = MonitorState::Faulted;
            true
        } else {
            false
        }
    }

    /// Begins a stop: withdraws the current session, which is returned so its
    /// work can be cancelled.
    pub fn begin_stop(&mut self) -> (session: Option<SessionId>)
        ensures
            session == old(self).current,
            *final(self) == after_stop_begins(*old(self)),
    {
        let session = self.current;
        self.current = None;
        self.stop_in_progress = true;
        session
    }

    /// Ends a stop once the worker is gone.
    pub fn finish_stop(&mut self)
        ensures
            *final(self) == after_stop_ends(*old(self)),
    {
        self.state = MonitorState::Idle;
        self.current = None;
        self.stop_in_progress = false;
    }
}

/// Once a stop has begun, no reading (of any session, cancelled or not) can
/// claim a match or report a fault, until the stop ends.
pub proof fn stop_outranks_late_readings(l: Lifecycle, session: SessionId, cancelled: bool)
    ensures
        !live(after_stop_begins(l), session, cancelled),
        after_claim(after_stop_begins(l), session, cancelled, MonitorState::MatchFound) == after_stop_begins(l),
        after_claim(after_stop_begins(l), session, cancelled, MonitorState::Faulted) == after_stop_begins(l),
{
}

/// A session that claimed a match is the only one: after the claim no
/// session, the same one included, can claim again before a new start.
pub proof fn one_match_per_session(l: Lifecycle, session: SessionId, cancelled: bool, other: SessionId, other_cancelled: bool)
    requires
        live(l, session, cancelled),
    ensures
        !live(after_claim(l, session, cancelled, MonitorState::MatchFound), other, other_cancelled),
        !live(after_claim(l, session, cancelled, MonitorState::Faulted), other, other_cancelled),
{
}

/// A started session is live, and the next start hands out a different id
/// (while ids remain).
pub proof fn fresh_sessions(l: Lifecycle, worker_alive: bool, structured: bool, support: StructuredOcrSupport)
    requires
        start_outcome(l, worker_alive, structured, support) is Ok,
        l.next_session < u64::MAX,
    ensures
        ({
            let id = start_outcome(l, worker_alive, structured, support).unwrap();
            let next = after_start(l, worker_alive, structured, support);
            &&& live(next, id, false)
            &&& (start_outcome(after_stop_ends(after_stop_begins(next)), false, structured, support) matches Ok(second) ==> second != id)
        }),
{
}

// ---------------------------------------------------------------------------
// What one reading decides
// ---------------------------------------------------------------------------

/// The texts of the modifiers that satisfied conditions, each once, in order.
pub open spec fn matched_texts(conds: Seq<ConditionEvaluation>) -> Seq<Seq<char>>
    decreases conds.len(),
{
    if conds.len() == 0 {
        Seq::empty()
    } else {
        let p = matched_texts(conds.drop_last());
        let c = conds.last();
        if c.is_matched && c.observation is Some && !p.contains(c.observation.unwrap().original_text@) {
            p.push(c.observation.unwrap().original_text@)
        } else {
            p
        }
    }
}

proof fn lemma_listed_text_witness(conds: Seq<ConditionEvaluation>, i: int) -> (k: int)
    requires
        0 <= i < matched_texts(conds).len(),
    ensures
        0 <= k < conds.len(),
        conds[k].is_matched,
        conds[k].observation is Some,
        conds[k].observation.unwrap().original_text@ == matched_texts(conds)[i],
    decreases conds.len(),
{
    let init = conds.drop_last();
    let p = matched_texts(init);
    let c = conds.last();
    if i < p.len() {
        let k = lemma_listed_text_witness(init, i);
        assert(conds[k] == init[k]);
        k
    } else {
        (conds.len() - 1) as int
    }
}

proof fn lemma_matched_text_listed(conds: Seq<ConditionEvaluation>, k: int)
    requires
        0 <= k < conds.len(),
        conds[k].is_matched,
        conds[k].observation is Some,
    ensures
        matched_texts(conds).contains(conds[k].observation.unwrap().original_text@),
    decreases conds.len(),
{
    let init = conds.drop_last();
    let p = matched_texts(init);
    let m = matched_texts(conds);
    let t = conds[k].observation.unwrap().original_text@;
    if k < init.len() {
        assert(init[k] == conds[k]);
        lemma_matched_text_listed(init, k);
        let i = choose|i: int| 0 <= i < p.len() && p[i] == t;
        assert(m[i] == p[i]);
    } else if p.contains(t) {
        let i = choose|i: int| 0 <= i < p.len() && p[i] == t;
        assert(m[i] == p[i]);
    } else {
        assert(m[p.len() as int] == t);
    }
}

proof fn lemma_listed_once(conds: Seq<ConditionEvaluation>)
    ensures
        forall|i: int, j: int|
            0 <= i < j < matched_texts(conds).len() ==> matched_texts(conds)[i] != matched_texts(conds)[j],
    decreases conds.len(),
{
    if conds.len() > 0 {
        let init = conds.drop_last();
        lemma_listed_once(init);
        let p = matched_texts(init);
        let m = matched_texts(conds);
        assert forall|i: int, j: int| 0 <= i < j < m.len() implies m[i] != m[j] by {
            if j < p.len() {
                assert(m[i] == p[i] && m[j] == p[j]);
            } else {
                assert(m[i] == p[i]);
                assert(p.contains(p[i]));
            }
        }
    }
}

/// The modifiers a match detail lists are exactly the observations of the
/// conditions that were satisfied: each listed text is the observed text of
/// a satisfied condition, every satisfied condition's observed text is
/// listed, and no text is listed twice. A near miss, observed but not
/// satisfied, is listed only when a satisfied condition observed the same
/// text.
pub proof fn detail_lists_exactly_the_satisfied_modifiers(conds: Seq<ConditionEvaluation>)
    ensures
        forall|i: int|
            0 <= i < matched_texts(conds).len() ==> exists|k: int|
                0 <= k < conds.len() && (#[trigger] conds[k]).is_matched && conds[k].observation is Some
                    && conds[k].observation.unwrap().original_text@ == #[trigger] matched_texts(conds)[i],
        forall|k: int|
            0 <= k < conds.len() && (#[trigger] conds[k]).is_matched && conds[k].observation is Some
                ==> matched_texts(conds).contains(conds[k].observation.unwrap().original_text@),
        forall|i: int, j: int|
            0 <= i < j < matched_texts(conds).len() ==> matched_texts(conds)[i] != matched_texts(conds)[j],
{
    assert forall|i: int| 0 <= i < matched_texts(conds).len() implies exists|k: int|
        0 <= k < conds.len() && (#[trigger] conds[k]).is_matched && conds[k].observation is Some
            && conds[k].observation.unwrap().original_text@ == #[trigger] matched_texts(conds)[i] by {
        let k = lemma_listed_text_witness(conds, i);
        assert(conds[k].is_matched);
    }
    assert forall|k: int|
        0 <= k < conds.len() && (#[trigger] conds[k]).is_matched && conds[k].observation is Some
            implies matched_texts(conds).contains(conds[k].observation.unwrap().original_text@) by {
        lemma_matched_text_listed(conds, k);
    }
    lemma_listed_once(conds);
}

pub open spec fn joined_with(parts: Seq<Seq<char>>, separator: Seq<char>) -> Seq<char>
    decreases parts.len(),
{
    if parts.len() == 0 {
        Seq::empty()
    } else if parts.len() == 1 {
        parts[0]
    } else {
        joined_with(parts.drop_last(), separator) + separator + parts.last()
    }
}

/// The detail shown for a structured match: the matched acceptable result's
/// name and the modifiers that satisfied it.
pub open spec fn detail_text(e: RuleEvaluationResult) -> Seq<char> {
    match e.matched_group_index {
        Some(i) => if i < e.groups@.len() {
            let g = e.groups@[i as int];
            let parts = matched_texts(g.conditions@);
            if parts.len() == 0 {
                g.name@
            } else {
                g.name@ + ": "@ + joined_with(parts, " + "@)
            }
        } else {
            "Structured rule matched."@
        },
        None => "Structured rule matched."@,
    }
}

fn contains_text(parts: &Vec<Vec<char>>, text: &Vec<char>) -> (b: bool)
    ensures
        b == crate::text::views(parts@).contains(text@),
{
    let n = parts.len();
    let mut k: usize = 0;
    while k < n
        invariant
            n == parts@.len(),
            k <= n,
            forall|m: int| 0 <= m < k ==> crate::text::views(parts@)[m] != text@,
        decreases n - k,
    {
        if same_chars(parts[k].as_slice(), text.as_slice()) {
            assert(crate::text::views(parts@)[k as int] == text@);
            return true;
        }
        k = k + 1;
    }
    false
}

/// The detail shown for a structured match.
pub fn structured_detail(evaluation: &RuleEvaluationResult) -> (s: String)
    ensures
        s@ == detail_text(*evaluation),
{
    let group = match evaluation.matched_group() {
        Some(g) => g,
        None => {
            let s = String::from_str("Structured rule matched.");
            proof {
                reveal_strlit("Structured rule matched.");
            }
            return s;
        },
    };
    let conds = &group.conditions;
    let n = conds.len();
    let mut parts: Vec<Vec<char>> = Vec::new();
    let mut k: usize = 0;
    while k < n
        invariant
            n == conds@.len(),
            k <= n,
            crate::text::views(parts@) == matched_texts(conds@.take(k as int)),
        decreases n - k,
    {
        assert(conds@.take(k + 1).drop_last() =~= conds@.take(k as int));
        let c = &conds[k];
        if c.is_matched {
            match &c.observation {
                Some(o) => {
                    let text = crate::text::chars_of(o.original_text.as_str());
                    if !contains_text(&parts, &text) {
                        let ghost before = parts@;
                        parts.push(text);
                        assert(crate::text::views(parts@) =~= crate::text::views(before).push(o.original_text@));
                    }
                },
                None => {},
            }
        }
        k = k + 1;
    }
    assert(conds@.take(n as int) =~= conds@);
    let mut out = crate::text::chars_of(group.name.as_str());
    if parts.len() > 0 {
        push_str_chars(&mut out, ": ");
        let m = parts.len();
        let ghost head = out@;
        let mut k: usize = 0;
        while k < m
            invariant
                m == parts@.len(),
                m > 0,
                k <= m,
                out@ == head + joined_with(crate::text::views(parts@).take(k as int), " + "@),
            decreases m - k,
        {
            let ghost t = crate::text::views(parts@).take(k + 1);
            assert(t.drop_last() =~= crate::text::views(parts@).take(k as int));
            if k > 0 {
                push_str_chars(&mut out, " + ");
            }
            crate::text::push_all(&mut out, parts[k].as_slice());
            assert(out@ =~= head + joined_with(t, " + "@));
            k = k + 1;
        }
        assert(crate::text::views(parts@).take(m as int) =~= crate::text::views(parts@));
    }
    string_of(out.as_slice())
}

/// `m` is the first run of lines that reads as the target.
pub open spec fn first_fit(target: FullLineAffixMatcher, lines: Seq<Seq<char>>, m: LogicalAffixMatch) -> bool {
    &&& span_fits(target.shape(), lines, m.start_line_index as int, m.physical_line_count as int, target.span())
    &&& m.canonical_text@ == display(token_views(lex(span_source(lines, m.start_line_index as int, m.physical_line_count as int))))
    &&& m.original_text@ == plain_joined(lines.subrange(m.start_line_index as int, (m.start_line_index + m.physical_line_count) as int))
    &&& forall|s2: int, c2: int|
        span_before(s2, c2, m.start_line_index as int, m.physical_line_count as int) ==> !span_fits(target.shape(), lines, s2, c2, target.span())
}

pub open spec fn nothing_fits(target: FullLineAffixMatcher, lines: Seq<Seq<char>>) -> bool {
    forall|s2: int, c2: int| !span_fits(target.shape(), lines, s2, c2, target.span())
}

/// The snapshot that reports a match.
pub open spec fn match_snapshot(
    snap: MonitorSnapshot,
    session: SessionId,
    scan_count: u64,
    capture_elapsed: u64,
    reading: RecognitionResult,
    detail: Seq<char>,
) -> bool {
    &&& snap.session_id == session
    &&& snap.state == MonitorState::MatchFound
    &&& snap.scan_count == scan_count
    &&& snap.capture_elapsed_nanos == capture_elapsed
    &&& snap.ocr_elapsed_nanos == saturating(reading.preprocessing_elapsed_nanos + reading.recognition_elapsed_nanos)
    &&& string_views(snap.last_lines@) == string_views(reading.lines@)
    &&& snap.detail is Some && snap.detail.unwrap()@ == detail
    &&& snap.ocr_was_cached == reading.was_cached
}

fn copy_strings(v: &Vec<String>) -> (r: Vec<String>)
    ensures
        string_views(r@) == string_views(v@),
{
    let n = v.len();
    let mut r: Vec<String> = Vec::new();
    let mut k: usize = 0;
    while k < n
        invariant
            n == v@.len(),
            k <= n,
            string_views(r@) == string_views(v@).take(k as int),
        decreases n - k,
    {
        let ghost before = r@;
        r.push(v[k].clone());
        assert(string_views(r@) =~= string_views(before).push(v@[k as int]@));
        assert(string_views(v@).take(k + 1) =~= string_views(v@).take(k as int).push(v@[k as int]@));
        k = k + 1;
    }
    assert(string_views(v@).take(n as int) =~= string_views(v@));
    r
}

fn copy_match(m: &LogicalAffixMatch) -> (r: LogicalAffixMatch)
    ensures
        r.start_line_index == m.start_line_index,
        r.physical_line_count == m.physical_line_count,
        r.original_text@ == m.original_text@,
        r.canonical_text@ == m.canonical_text@,
{
    LogicalAffixMatch {
        start_line_index: m.start_line_index,
        physical_line_count: m.physical_line_count,
        original_text: m.original_text.clone(),
        canonical_text: m.canonical_text.clone(),
    }
}

fn found_snapshot(reading: &RecognitionResult, session: SessionId, scan_count: u64, capture_elapsed: u64, detail: String) -> (s: MonitorSnapshot)
    ensures
        match_snapshot(s, session, scan_count, capture_elapsed, *reading, detail@),
{
    MonitorSnapshot {
        session_id: session,
        state: MonitorState::MatchFound,
        scan_count,
        capture_elapsed_nanos: capture_elapsed,
        ocr_elapsed_nanos: reading.total_elapsed(),
        last_lines: copy_strings(&reading.lines),
        detail: Some(detail),
        ocr_was_cached: reading.was_cached,
    }
}

/// What a detection reports of a reading against a plan (`None`: no match).
pub open spec fn detection_ok(
    plan: MonitorPlan,
    reading: RecognitionResult,
    session: SessionId,
    scan_count: u64,
    capture_elapsed: u64,
    d: Option<MonitorDetection>,
) -> bool {
    match plan {
        MonitorPlan::Quick(target) => match d {
            Some(MonitorDetection::Quick { matched, snapshot }) => match_snapshot(
                snapshot,
                session,
                scan_count,
                capture_elapsed,
                reading,
                matched.original_text@,
            ) && (first_fit(target, string_views(reading.lines@), matched) || (nothing_fits(
                target,
                string_views(reading.lines@),
            ) && reading.target_assisted_match is Some && matched.canonical_text@
                == display(target.shape()) && matched.original_text@
                == reading.target_assisted_match.unwrap().original_text@)),
            Some(MonitorDetection::Structured { .. }) => false,
            None => nothing_fits(target, string_views(reading.lines@)) && (
            reading.target_assisted_match is None
                || reading.target_assisted_match.unwrap().canonical_text@ != display(
                target.shape(),
            )),
        },
        MonitorPlan::Structured(rules) => match d {
            Some(MonitorDetection::Structured { evaluation, detected_text, snapshot }) => evaluation_ok(
                rules.source(),
                rules.line_span(),
                string_views(reading.lines@),
                evaluation,
            ) && identity_respected(
                evaluation,
                reading.lines@.len() as int,
                reading.physical_line_identities@,
                reading.assisted_observations@,
            ) && (reading.lines@.len() + reading.assisted_observations@.len() <= usize::MAX ==> evaluation_optimal(
                rules.source(),
                rules.line_span(),
                string_views(reading.lines@),
                reading.physical_line_identities@,
                reading.assisted_observations@,
                evaluation,
            )) && evaluation.is_match && detected_text@ == detail_text(evaluation) && match_snapshot(
                snapshot,
                session,
                scan_count,
                capture_elapsed,
                reading,
                detected_text@,
            ),
            Some(MonitorDetection::Quick { .. }) => false,
            None => exists|e: RuleEvaluationResult|
                evaluation_ok(rules.source(), rules.line_span(), string_views(reading.lines@), e)
                    && identity_respected(
                    e,
                    reading.lines@.len() as int,
                    reading.physical_line_identities@,
                    reading.assisted_observations@,
                ) && (reading.lines@.len() + reading.assisted_observations@.len() <= usize::MAX ==> evaluation_optimal(
                    rules.source(),
                    rules.line_span(),
                    string_views(reading.lines@),
                    reading.physical_line_identities@,
                    reading.assisted_observations@,
                    e,
                )) && !e.is_match,
        },
    }
}

/// What one reading shows against a plan: for a quick plan, the first run of
/// lines that reads as the target, or else an assisted match whose canonical
/// text is the target's; for a structured plan, the evaluation when it is a
/// match.
pub fn detect(plan: &MonitorPlan, reading: &RecognitionResult, session: SessionId, scan_count: u64, capture_elapsed: u64) -> (d: Option<MonitorDetection>)
    ensures
        detection_ok(*plan, *reading, session, scan_count, capture_elapsed, d),
{
    match plan {
        MonitorPlan::Quick(target) => {
            let found = target.find_match(reading.lines.as_slice());
            let matched = match found {
                Some(m) => m,
                None => match &reading.target_assisted_match {
                    Some(candidate) => {
                        let text = &target.template().text;
                        if candidate.canonical_text == *text {
                            copy_match(candidate)
                        } else {
                            return None;
                        }
                    },
                    None => {
                        return None;
                    },
                },
            };
            let detail = matched.original_text.clone();
            let snapshot = found_snapshot(reading, session, scan_count, capture_elapsed, detail);
            Some(MonitorDetection::Quick { matched, snapshot })
        },
        MonitorPlan::Structured(rules) => {
            let evaluation = rules.evaluate_with_identity(
                reading.lines.as_slice(),
                reading.assisted_observations.as_slice(),
                reading.physical_line_identities.as_slice(),
            );
            if !evaluation.is_match {
                return None;
            }
            let detected_text = structured_detail(&evaluation);
            let snapshot = found_snapshot(reading, session, scan_count, capture_elapsed, detected_text.clone());
            Some(MonitorDetection::Structured { evaluation, detected_text, snapshot })
        },
    }
}

/// What the worker does with one reading that arrived while its session was
/// live.
#[derive(Debug)]
pub enum ReadingStep {
    /// Nothing changed: release the input guard, report, pace as cached.
    Unchanged { snapshot: MonitorSnapshot },
    /// A match: claim it, report it, and end the session's loop.
    Detected(MonitorDetection),
    /// No match yet: report, then pace; the guard is released unless the
    /// reading asked for an immediate rescan.
    Continue { snapshot: MonitorSnapshot, pace: ScanPace, release_guard: bool },
}

/// The snapshot of a running session after a reading.
pub open spec fn running_snapshot(
    snap: MonitorSnapshot,
    session: SessionId,
    scan_count: u64,
    capture_elapsed: u64,
    reading: RecognitionResult,
) -> bool {
    &&& snap.session_id == session
    &&& snap.state == MonitorState::Running
    &&& snap.scan_count == scan_count
    &&& snap.capture_elapsed_nanos == capture_elapsed
    &&& snap.ocr_elapsed_nanos == saturating(reading.preprocessing_elapsed_nanos + reading.recognition_elapsed_nanos)
    &&& string_views(snap.last_lines@) == string_views(reading.lines@)
    &&& snap.detail is None
    &&& snap.ocr_was_cached == reading.was_cached
}

fn running(reading: &RecognitionResult, session: SessionId, scan_count: u64, capture_elapsed: u64) -> (s: MonitorSnapshot)
    ensures
        running_snapshot(s, session, scan_count, capture_elapsed, *reading),
{
    MonitorSnapshot {
        session_id: session,
        state: MonitorState::Running,
        scan_count,
        capture_elapsed_nanos: capture_elapsed,
        ocr_elapsed_nanos: reading.total_elapsed(),
        last_lines: copy_strings(&reading.lines),
        detail: None,
        ocr_was_cached: reading.was_cached,
    }
}

/// Decides what a reading leads to. An unchanged reading is never evaluated:
/// it would reach the verdict already reached.
pub fn decide_reading(plan: &MonitorPlan, reading: &RecognitionResult, session: SessionId, scan_count: u64, capture_elapsed: u64) -> (step: ReadingStep)
    ensures
        match step {
            ReadingStep::Unchanged { snapshot } => reading.was_cached && running_snapshot(
                snapshot,
                session,
                scan_count,
                capture_elapsed,
                *reading,
            ),
            ReadingStep::Detected(d) => !reading.was_cached && detection_ok(
                *plan,
                *reading,
                session,
                scan_count,
                capture_elapsed,
                Some(d),
            ),
            ReadingStep::Continue { snapshot, pace, release_guard } => !reading.was_cached
                && detection_ok(*plan, *reading, session, scan_count, capture_elapsed, None)
                && running_snapshot(snapshot, session, scan_count, capture_elapsed, *reading) && pace
                == (if reading.requires_rescan {
                ScanPace::ProgressiveYield
            } else {
                ScanPace::UncachedDelay
            }) && release_guard == !reading.requires_rescan,
        },
{
    if reading.was_cached {
        return ReadingStep::Unchanged { snapshot: running(reading, session, scan_count, capture_elapsed) };
    }
    match detect(plan, reading, session, scan_count, capture_elapsed) {
        Some(d) => ReadingStep::Detected(d),
        None => {
            let pace = if reading.requires_rescan {
                ScanPace::ProgressiveYield
            } else {
                ScanPace::UncachedDelay
            };
            ReadingStep::Continue {
                snapshot: running(reading, session, scan_count, capture_elapsed),
                pace,
                release_guard: !reading.requires_rescan,
            }
        },
    }
}

} // verus!
