//! The field harness's verdict on one clipboard payload, and its change
//! detector.
use vstd::prelude::*;

use crate::item::{parse, render_spec, ItemTextError, ParsedItem};
use crate::sections::parse_spec;
use crate::matching::DEFAULT_MAXIMUM_PHYSICAL_LINE_SPAN;
use crate::rules::{
    definition_errors, evaluation_optimal, identity_evaluation, joined_messages, problem_from, CompiledRuleSet,
    RuleEvaluationResult, RuleSetDefinition,
};
use crate::text::string_views;
use crate::text::{chars_of, lines_of, split_lines, trim_end, trim_end_chars, views};

verus! {

/// Everything the harness needs from the user's saved configuration.
pub struct LabProfile {
    /// Rules compiled from the saved rule set.
    pub rules: CompiledRuleSet,
    /// Affix language the profile is configured for.
    pub ocr_language: String,
    /// Which game profile the settings were loaded from.
    pub game_profile: String,
    /// Where the settings came from.
    pub settings_path: String,
}

/// Why the harness could not build a profile from saved settings.
#[derive(Clone, Debug, PartialEq, Eq)]
pub enum ProfileError {
    /// The settings file could not be located or opened (the reader's message).
    Settings(String),
    /// The profile has no structured rule set saved.
    MissingRuleSet,
    /// The saved rule set does not compile (its messages).
    InvalidRuleSet(String),
}

/// Whether a saved rule set compiles at the default line span.
pub open spec fn rule_set_compiles(d: crate::rules::DefinitionView) -> bool {
    definition_errors(d, DEFAULT_MAXIMUM_PHYSICAL_LINE_SPAN as int).len() == 0
        && problem_from(d.groups, 0, DEFAULT_MAXIMUM_PHYSICAL_LINE_SPAN as int) is None
}

/// The messages of a saved rule set that does not compile, joined as the
/// compiler's error prints them.
pub open spec fn rule_set_messages(d: crate::rules::DefinitionView) -> Seq<char> {
    let span = DEFAULT_MAXIMUM_PHYSICAL_LINE_SPAN as int;
    joined_messages(
        if definition_errors(d, span).len() > 0 {
            definition_errors(d, span)
        } else {
            seq![problem_from(d.groups, 0, span).unwrap()]
        },
    )
}

/// The profile the saved configuration gives: the selected profile's rule
/// set, compiled, with its affix language, game profile and settings path.
/// Refused when no rule set is saved, and with the compiler's messages when
/// it does not compile.
pub fn profile_from_settings(
    rule_set: Option<RuleSetDefinition>,
    ocr_language: String,
    game_profile: String,
    settings_path: String,
) -> (r: Result<LabProfile, ProfileError>)
    ensures
        rule_set is None ==> r == Err::<LabProfile, ProfileError>(ProfileError::MissingRuleSet),
        rule_set matches Some(d) ==> match r {
            Ok(p) => rule_set_compiles(d@) && p.rules.source() == d@
                && p.rules.line_span() == DEFAULT_MAXIMUM_PHYSICAL_LINE_SPAN as int
                && p.ocr_language@ == ocr_language@ && p.game_profile@ == game_profile@
                && p.settings_path@ == settings_path@,
            Err(e) => !rule_set_compiles(d@) && (e matches ProfileError::InvalidRuleSet(m) && m@
                == rule_set_messages(d@)),
        },
{
    let definition = match rule_set {
        Some(d) => d,
        None => return Err(ProfileError::MissingRuleSet),
    };
    match CompiledRuleSet::compile(definition) {
        Ok(rules) => Ok(LabProfile { rules, ocr_language, game_profile, settings_path }),
        Err(error) => Err(ProfileError::InvalidRuleSet(error.to_string())),
    }
}

/// Outcome of evaluating one clipboard payload.
#[derive(Debug)]
pub enum Verdict {
    /// The payload parsed and the rules matched.
    Hit { item: Box<ParsedItem>, evaluation: Box<RuleEvaluationResult> },
    /// The payload parsed and the rules did not match.
    Miss { item: Box<ParsedItem>, evaluation: Box<RuleEvaluationResult> },
    /// The payload could not be read as an item.
    Unreadable(ItemTextError),
}

/// Number of modifier lines across groups.
pub open spec fn line_total(groups: Seq<crate::item::GroupView>) -> nat
    decreases groups.len(),
{
    if groups.len() == 0 {
        0
    } else {
        line_total(groups.drop_last()) + groups.last().lines.len()
    }
}

/// Every modifier line, groups in order.
pub open spec fn all_lines(groups: Seq<crate::item::GroupView>) -> Seq<Seq<char>>
    decreases groups.len(),
{
    if groups.len() == 0 {
        Seq::empty()
    } else {
        all_lines(groups.drop_last()) + groups.last().lines
    }
}

pub open spec fn str_views(v: Seq<&str>) -> Seq<Seq<char>> {
    v.map_values(|s: &str| s@)
}

impl Verdict {
    /// The rules matched.
    pub fn is_hit(&self) -> (b: bool)
        ensures
            b == (*self is Hit),
    {
        match self {
            Verdict::Hit { .. } => true,
            _ => false,
        }
    }

    /// No opinion could be formed; callers must fail closed.
    pub fn is_undecided(&self) -> (b: bool)
        ensures
            b == (*self is Unreadable),
    {
        match self {
            Verdict::Unreadable(_) => true,
            _ => false,
        }
    }

    /// A short tag for the console.
    pub fn label(&self) -> (s: &'static str)
        ensures
            s@ == (match *self {
                Verdict::Hit { .. } => "HIT"@,
                Verdict::Miss { .. } => "miss"@,
                Verdict::Unreadable(_) => "??"@,
            }),
    {
        match self {
            Verdict::Hit { .. } => "HIT",
            Verdict::Miss { .. } => "miss",
            Verdict::Unreadable(_) => "??",
        }
    }

    /// Modifier lines the rules were run against.
    pub fn line_count(&self) -> (n: usize)
        requires
            (match *self {
                Verdict::Hit { item, .. } => line_total(item@.groups),
                Verdict::Miss { item, .. } => line_total(item@.groups),
                Verdict::Unreadable(_) => 0,
            }) <= usize::MAX,
        ensures
            n == (match *self {
                Verdict::Hit { item, .. } => line_total(item@.groups),
                Verdict::Miss { item, .. } => line_total(item@.groups),
                Verdict::Unreadable(_) => 0,
            }),
    {
        match self {
            Verdict::Hit { item, .. } => count_lines(item),
            Verdict::Miss { item, .. } => count_lines(item),
            Verdict::Unreadable(_) => 0,
        }
    }

    /// Modifiers the rules were run against, as distinct physical affixes.
    pub fn modifier_count(&self) -> (n: usize)
        ensures
            n == (match *self {
                Verdict::Hit { item, .. } => item@.groups.len(),
                Verdict::Miss { item, .. } => item@.groups.len(),
                Verdict::Unreadable(_) => 0,
            }),
    {
        match self {
            Verdict::Hit { item, .. } => item.groups.len(),
            Verdict::Miss { item, .. } => item.groups.len(),
            Verdict::Unreadable(_) => 0,
        }
    }

    /// Every modifier line, flattened, for display.
    pub fn lines(&self) -> (v: Vec<&str>)
        ensures
            str_views(v@) == (match *self {
                Verdict::Hit { item, .. } => all_lines(item@.groups),
                Verdict::Miss { item, .. } => all_lines(item@.groups),
                Verdict::Unreadable(_) => Seq::empty(),
            }),
    {
        match self {
            Verdict::Hit { item, .. } => flat_lines(item),
            Verdict::Miss { item, .. } => flat_lines(item),
            Verdict::Unreadable(_) => {
                let v: Vec<&str> = Vec::new();
                assert(str_views(v@) =~= Seq::<Seq<char>>::empty());
                v
            },
        }
    }
}

fn count_lines(item: &ParsedItem) -> (n: usize)
    requires
        line_total(item@.groups) <= usize::MAX,
    ensures
        n == line_total(item@.groups),
{
    let groups = &item.groups;
    let m = groups.len();
    let mut n: usize = 0;
    let mut g: usize = 0;
    while g < m
        invariant
            m == groups@.len(),
            g <= m,
            groups == &item.groups,
            line_total(item@.groups) <= usize::MAX,
            n == line_total(item@.groups.take(g as int)),
        decreases m - g,
    {
        assert(item@.groups.take(g + 1).drop_last() =~= item@.groups.take(g as int));
        assert(item@.groups[g as int] == groups@[g as int]@);
        proof {
            lemma_line_total_prefix(item@.groups, g + 1);
        }
        let more = groups[g].lines.len();
        n = n + more;
        g = g + 1;
    }
    assert(item@.groups.take(m as int) =~= item@.groups);
    n
}

proof fn lemma_line_total_prefix(groups: Seq<crate::item::GroupView>, k: int)
    requires
        0 <= k <= groups.len(),
    ensures
        line_total(groups.take(k)) <= line_total(groups),
    decreases groups.len() - k,
{
    if k < groups.len() {
        lemma_line_total_prefix(groups, k + 1);
        assert(groups.take(k + 1).drop_last() =~= groups.take(k));
    } else {
        assert(groups.take(k) =~= groups);
    }
}

fn flat_lines(item: &ParsedItem) -> (v: Vec<&str>)
    ensures
        str_views(v@) == all_lines(item@.groups),
{
    let groups = &item.groups;
    let m = groups.len();
    let mut v: Vec<&str> = Vec::new();
    let mut g: usize = 0;
    while g < m
        invariant
            m == groups@.len(),
            g <= m,
            groups == &item.groups,
            str_views(v@) == all_lines(item@.groups.take(g as int)),
        decreases m - g,
    {
        assert(item@.groups.take(g + 1).drop_last() =~= item@.groups.take(g as int));
        assert(item@.groups[g as int] == groups@[g as int]@);
        let lines = &groups[g].lines;
        let k_max = lines.len();
        let ghost start = str_views(v@);
        let mut k: usize = 0;
        while k < k_max
            invariant
                k_max == lines@.len(),
                k <= k_max,
                str_views(v@) == start + crate::text::string_views(lines@).take(k as int),
            decreases k_max - k,
        {
            let ghost before = v@;
            v.push(lines[k].as_str());
            assert(str_views(v@) =~= str_views(before).push(lines@[k as int]@));
            assert(crate::text::string_views(lines@).take(k + 1) =~= crate::text::string_views(lines@).take(k as int).push(lines@[k as int]@));
            k = k + 1;
        }
        assert(crate::text::string_views(lines@).take(k_max as int) =~= crate::text::string_views(lines@));
        g = g + 1;
    }
    assert(item@.groups.take(m as int) =~= item@.groups);
    v
}

/// The evaluation is the one a single evaluation of the rendered lines with
/// their identities gives: each modifier group is one band, so its lines
/// satisfy at most one condition, and every acceptable result satisfies as
/// many conditions as can be.
pub open spec fn banded(
    e: RuleEvaluationResult,
    groups: Seq<crate::item::GroupView>,
    source: crate::rules::DefinitionView,
    span: int,
) -> bool {
    exists|ids: Seq<crate::rules::PhysicalLineIdentity>|
        crate::item::identity_views(ids) == render_spec(groups).1 && #[trigger] identity_evaluation(
            source,
            span,
            render_spec(groups).0,
            ids,
            Seq::empty(),
            e,
        ) && evaluation_optimal(source, span, render_spec(groups).0, ids, Seq::empty(), e)
}

/// What judging a parsed item gives: a hit or a miss over exactly that item,
/// with the banded evaluation of its rendered lines deciding which.
pub open spec fn item_judged(
    source: crate::rules::DefinitionView,
    span: int,
    item: crate::item::ItemView,
    v: Verdict,
) -> bool {
    match v {
        Verdict::Hit { item: i, evaluation: e } => i@ == item && banded(*e, item.groups, source, span) && e.is_match,
        Verdict::Miss { item: i, evaluation: e } => i@ == item && banded(*e, item.groups, source, span) && !e.is_match,
        Verdict::Unreadable(_) => false,
    }
}

/// A verdict on a parsed item is a hit or a miss, decided by one evaluation
/// of the item's rendered lines with their identities and no assisted
/// reading: a hit exactly when that evaluation matched.
pub proof fn item_verdict_is_one_evaluation(
    source: crate::rules::DefinitionView,
    span: int,
    item: crate::item::ItemView,
    v: Verdict,
)
    requires
        item_judged(source, span, item, v),
    ensures
        v matches Verdict::Hit { evaluation: e, .. } ==> e.is_match && exists|ids: Seq<crate::rules::PhysicalLineIdentity>|
            crate::item::identity_views(ids) == render_spec(item.groups).1 && #[trigger] identity_evaluation(
                source,
                span,
                render_spec(item.groups).0,
                ids,
                Seq::empty(),
                *e,
            ),
        v matches Verdict::Miss { evaluation: e, .. } ==> !e.is_match && exists|ids: Seq<crate::rules::PhysicalLineIdentity>|
            crate::item::identity_views(ids) == render_spec(item.groups).1 && #[trigger] identity_evaluation(
                source,
                span,
                render_spec(item.groups).0,
                ids,
                Seq::empty(),
                *e,
            ),
        !(v is Unreadable),
{
}

/// Runs an already-parsed item through the compiled rules, with the bands
/// each line came from, so a modifier rendered across several lines counts
/// once.
pub fn evaluate_item(rules: &CompiledRuleSet, item: ParsedItem) -> (v: Verdict)
    ensures
        item_judged(rules.source(), rules.line_span(), item@, v),
{
    let (lines, identities) = item.render();
    let assisted: Vec<crate::rules::AssistedModifierObservation> = Vec::new();
    let evaluation = rules.evaluate_with_identity(lines.as_slice(), assisted.as_slice(), identities.as_slice());
    let _count = lines.len();
    proof {
        assert(assisted@ =~= Seq::<crate::rules::AssistedModifierObservation>::empty());
        assert(crate::text::string_views(lines@).len() == lines@.len());
        assert(banded(evaluation, item@.groups, rules.source(), rules.line_span()));
    }
    if evaluation.is_match {
        Verdict::Hit { item: Box::new(item), evaluation: Box::new(evaluation) }
    } else {
        Verdict::Miss { item: Box::new(item), evaluation: Box::new(evaluation) }
    }
}

/// What judging `payload` against the rules gives: for a payload that
/// parses, what judging the parsed item gives; for one that does not, the
/// parse error.
pub open spec fn judged(
    source: crate::rules::DefinitionView,
    span: int,
    payload: Seq<char>,
    v: Verdict,
) -> bool {
    match parse_spec(payload) {
        Ok(item) => item_judged(source, span, item, v),
        Err(error) => v == Verdict::Unreadable(error),
    }
}

/// Judging a payload that parses is judging the item it parses to.
pub proof fn payload_verdict_is_item_verdict(
    source: crate::rules::DefinitionView,
    span: int,
    payload: Seq<char>,
    v: Verdict,
)
    requires
        parse_spec(payload) is Ok,
    ensures
        judged(source, span, payload, v) == item_judged(source, span, parse_spec(payload)->Ok_0, v),
{
}

/// Parses a clipboard payload and runs it through the compiled rules.
pub fn evaluate_payload(rules: &CompiledRuleSet, payload: &str) -> (v: Verdict)
    ensures
        judged(rules.source(), rules.line_span(), payload@, v),
{
    match parse(payload) {
        Ok(item) => evaluate_item(rules, item),
        Err(error) => Verdict::Unreadable(error),
    }
}

/// The lines that carry meaning: trailing white space dropped, blank lines
/// skipped.
pub open spec fn meaningful(lines: Seq<Seq<char>>) -> Seq<Seq<char>>
    decreases lines.len(),
{
    if lines.len() == 0 {
        Seq::empty()
    } else if trim_end(lines.last()).len() == 0 {
        meaningful(lines.drop_last())
    } else {
        meaningful(lines.drop_last()).push(trim_end(lines.last()))
    }
}

proof fn lemma_trim_end_blank(l: Seq<char>)
    requires
        forall|k: int| 0 <= k < l.len() ==> crate::text::is_ws(#[trigger] l[k]),
    ensures
        trim_end(l).len() == 0,
    decreases l.len(),
{
    if l.len() > 0 {
        assert(crate::text::is_ws(l[l.len() - 1]));
        assert forall|k: int| 0 <= k < l.drop_last().len() implies crate::text::is_ws(#[trigger] l.drop_last()[k]) by {
            assert(l.drop_last()[k] == l[k]);
        }
        lemma_trim_end_blank(l.drop_last());
    }
}

/// What makes two copies the same roll: white space at the end of a line and
/// lines of white space only do not count, while everything else on a line
/// does, leading white space included, and each line that carries text
/// counts once, in order.
pub proof fn same_roll_ignores_only_trailing_space_and_blank_lines(lines: Seq<Seq<char>>, l: Seq<char>, w: char)
    requires
        crate::text::is_ws(w),
    ensures
        meaningful(lines.push(l.push(w))) == meaningful(lines.push(l)),
        (forall|k: int| 0 <= k < l.len() ==> crate::text::is_ws(#[trigger] l[k])) ==> meaningful(lines.push(l))
            == meaningful(lines),
        l.len() > 0 && !crate::text::is_ws(l.last()) ==> meaningful(lines.push(l)) == meaningful(lines).push(l),
{
    assert(lines.push(l).drop_last() =~= lines);
    assert(lines.push(l.push(w)).drop_last() =~= lines);
    assert(lines.push(l).last() == l);
    assert(lines.push(l.push(w)).last() == l.push(w));
    assert(l.push(w).drop_last() =~= l);
    if forall|k: int| 0 <= k < l.len() ==> crate::text::is_ws(#[trigger] l[k]) {
        lemma_trim_end_blank(l);
    }
}

fn meaningful_lines(payload: &str) -> (out: Vec<Vec<char>>)
    ensures
        views(out@) == meaningful(lines_of(payload@)),
{
    let chars = chars_of(payload);
    let lines = split_lines(chars.as_slice());
    let n = lines.len();
    let mut out: Vec<Vec<char>> = Vec::new();
    let mut k: usize = 0;
    while k < n
        invariant
            n == lines@.len(),
            k <= n,
            views(out@) == meaningful(views(lines@).take(k as int)),
        decreases n - k,
    {
        assert(views(lines@).take(k + 1).drop_last() =~= views(lines@).take(k as int));
        let t = trim_end_chars(lines[k].as_slice());
        if t.len() > 0 {
            let ghost before = out@;
            out.push(t);
            assert(views(out@) =~= views(before).push(t@));
        }
        k = k + 1;
    }
    assert(views(lines@).take(n as int) =~= views(lines@));
    out
}

/// Whether two clipboard payloads describe the same item state: the same
/// meaningful lines, in order. Line endings, trailing white space and blank
/// lines do not count.
pub fn describes_same_roll(previous: &str, current: &str) -> (same: bool)
    ensures
        same == (meaningful(lines_of(previous@)) == meaningful(lines_of(current@))),
{
    let a = meaningful_lines(previous);
    let b = meaningful_lines(current);
    let n = a.len();
    if n != b.len() {
        assert(views(a@).len() != views(b@).len());
        assert(views(a@) != views(b@));
        return false;
    }
    let mut k: usize = 0;
    while k < n
        invariant
            n == a@.len(),
            n == b@.len(),
            k <= n,
            views(a@) == meaningful(lines_of(previous@)),
            views(b@) == meaningful(lines_of(current@)),
            forall|m: int| 0 <= m < k ==> a@[m]@ == b@[m]@,
        decreases n - k,
    {
        if !crate::text::same_chars(a[k].as_slice(), b[k].as_slice()) {
            assert(views(a@)[k as int] != views(b@)[k as int]);
            assert(views(a@) != views(b@));
            return false;
        }
        k = k + 1;
    }
    assert(views(a@) =~= views(b@));
    true
}

/// How the harness synthesizes the copy keystroke.
#[derive(Clone, Copy, Debug, PartialEq, Eq, Structural)]
pub enum KeyMethod {
    VirtualKey,
    ScanCode,
}

/// The harness's settings; times in milliseconds.
#[derive(Clone, Copy, Debug, PartialEq, Eq)]
pub struct Options {
    /// Latency the screen-reading pipeline already meets, the pass mark.
    pub budget_ms: u64,
    /// Per-copy deadline: longer means the client is declining to answer.
    pub copy_timeout_ms: u64,
    /// Overall deadline from the click.
    pub deadline_ms: u64,
    /// First pause between copies while a craft resolves; grows up to
    /// `poll_gap_max_ms`.
    pub poll_gap_ms: u64,
    pub poll_gap_max_ms: u64,
    /// Delay before the first copy.
    pub first_delay_ms: u64,
    pub key_method: KeyMethod,
    /// How long an error lock holds before releasing itself.
    pub unlock_after_ms: u64,
    /// Standalone clipboard check: copy this many times and report.
    pub test_copy: Option<usize>,
    /// A change seen sooner than this after a click is left over from an
    /// earlier craft.
    pub min_craft_ms: u64,
    /// Require two identical reads before judging.
    pub settle: bool,
    /// Measure how long crafts take without blocking clicks.
    pub observe: bool,
    /// Block every click until a verdict exists.
    pub block_first: bool,
    /// How long after a click to keep polling.
    pub active_window_ms: u64,
    /// Gap between polls while crafting is active.
    pub watch_interval_ms: u64,
}

impl Default for Options {
    fn default() -> (o: Options)
        ensures
            o == (Options {
                budget_ms: 120,
                copy_timeout_ms: 25,
                deadline_ms: 1_500,
                poll_gap_ms: 12,
                poll_gap_max_ms: 60,
                first_delay_ms: 0,
                key_method: KeyMethod::VirtualKey,
                unlock_after_ms: 4_000,
                test_copy: None,
                min_craft_ms: 25,
                settle: true,
                observe: false,
                block_first: false,
                active_window_ms: 1_200,
                watch_interval_ms: 40,
            }),
    {
        Options {
            budget_ms: 120,
            copy_timeout_ms: 25,
            deadline_ms: 1_500,
            poll_gap_ms: 12,
            poll_gap_max_ms: 60,
            first_delay_ms: 0,
            key_method: KeyMethod::VirtualKey,
            unlock_after_ms: 4_000,
            test_copy: None,
            min_craft_ms: 25,
            settle: true,
            observe: false,
            block_first: false,
            active_window_ms: 1_200,
            watch_interval_ms: 40,
        }
    }
}

} // verus!
